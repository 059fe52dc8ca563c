//! Glyphs and colours of the interface.
use vstd::prelude::*;

use crate::status::FileEntry;
use crate::text::{chars_of, is_text, split, split_on, views};

verus! {

/// A 24-bit colour.
#[derive(Clone, Copy, PartialEq, Eq, Debug, Structural)]
pub struct Rgb {
    pub r: u8,
    pub g: u8,
    pub b: u8,
}

/// The named colours of the palette.
#[derive(Clone, Copy, PartialEq, Eq, Debug, Structural)]
pub enum Tint {
    Text,
    Muted,
    Overlay,
    Accent,
    Folder,
    Red,
    Green,
    Yellow,
    Orange,
    Sky,
    Base,
    Surface,
    ContextFg,
    SelectionBg,
    DelBg,
    AddBg,
    DelFg,
    AddFg,
    DelGutterFg,
    AddGutterFg,
    FillerBg,
    GutterFg,
    GutterSepFg,
    HunkFg,
    HunkBg,
    Guide,
    HeaderBg,
    Border,
    BorderFocus,
}

pub open spec fn tint_rgb(t: Tint) -> Rgb {
    match t {
        Tint::Text => Rgb { r: 205, g: 214, b: 244 },
        Tint::Muted => Rgb { r: 166, g: 173, b: 200 },
        Tint::Overlay => Rgb { r: 108, g: 112, b: 134 },
        Tint::Accent => Rgb { r: 203, g: 166, b: 247 },
        Tint::Folder => Rgb { r: 137, g: 180, b: 250 },
        Tint::Red => Rgb { r: 243, g: 139, b: 168 },
        Tint::Green => Rgb { r: 166, g: 227, b: 161 },
        Tint::Yellow => Rgb { r: 249, g: 226, b: 175 },
        Tint::Orange => Rgb { r: 222, g: 108, b: 58 },
        Tint::Sky => Rgb { r: 116, g: 199, b: 236 },
        Tint::Base => Rgb { r: 30, g: 30, b: 46 },
        Tint::Surface => Rgb { r: 49, g: 50, b: 68 },
        Tint::ContextFg => Rgb { r: 166, g: 173, b: 200 },
        Tint::SelectionBg => Rgb { r: 69, g: 71, b: 90 },
        Tint::DelBg => Rgb { r: 58, g: 32, b: 42 },
        Tint::AddBg => Rgb { r: 33, g: 52, b: 38 },
        Tint::DelFg => Rgb { r: 243, g: 168, b: 184 },
        Tint::AddFg => Rgb { r: 176, g: 227, b: 178 },
        Tint::DelGutterFg => Rgb { r: 243, g: 139, b: 168 },
        Tint::AddGutterFg => Rgb { r: 166, g: 227, b: 161 },
        Tint::FillerBg => Rgb { r: 24, g: 24, b: 37 },
        Tint::GutterFg => Rgb { r: 108, g: 112, b: 134 },
        Tint::GutterSepFg => Rgb { r: 69, g: 71, b: 90 },
        Tint::HunkFg => Rgb { r: 137, g: 180, b: 250 },
        Tint::HunkBg => Rgb { r: 30, g: 37, b: 46 },
        Tint::Guide => Rgb { r: 69, g: 71, b: 90 },
        Tint::HeaderBg => Rgb { r: 24, g: 24, b: 37 },
        Tint::Border => Rgb { r: 69, g: 71, b: 90 },
        Tint::BorderFocus => Rgb { r: 203, g: 166, b: 247 },
    }
}

impl Tint {
    /// The colour that this palette entry names.
    pub fn rgb(self) -> (c: Rgb)
        ensures
            c == tint_rgb(self),
    {
        match self {
            Tint::Text => Rgb { r: 205, g: 214, b: 244 },
            Tint::Muted => Rgb { r: 166, g: 173, b: 200 },
            Tint::Overlay => Rgb { r: 108, g: 112, b: 134 },
            Tint::Accent => Rgb { r: 203, g: 166, b: 247 },
            Tint::Folder => Rgb { r: 137, g: 180, b: 250 },
            Tint::Red => Rgb { r: 243, g: 139, b: 168 },
            Tint::Green => Rgb { r: 166, g: 227, b: 161 },
            Tint::Yellow => Rgb { r: 249, g: 226, b: 175 },
            Tint::Orange => Rgb { r: 222, g: 108, b: 58 },
            Tint::Sky => Rgb { r: 116, g: 199, b: 236 },
            Tint::Base => Rgb { r: 30, g: 30, b: 46 },
            Tint::Surface => Rgb { r: 49, g: 50, b: 68 },
            Tint::ContextFg => Rgb { r: 166, g: 173, b: 200 },
            Tint::SelectionBg => Rgb { r: 69, g: 71, b: 90 },
            Tint::DelBg => Rgb { r: 58, g: 32, b: 42 },
            Tint::AddBg => Rgb { r: 33, g: 52, b: 38 },
            Tint::DelFg => Rgb { r: 243, g: 168, b: 184 },
            Tint::AddFg => Rgb { r: 176, g: 227, b: 178 },
            Tint::DelGutterFg => Rgb { r: 243, g: 139, b: 168 },
            Tint::AddGutterFg => Rgb { r: 166, g: 227, b: 161 },
            Tint::FillerBg => Rgb { r: 24, g: 24, b: 37 },
            Tint::GutterFg => Rgb { r: 108, g: 112, b: 134 },
            Tint::GutterSepFg => Rgb { r: 69, g: 71, b: 90 },
            Tint::HunkFg => Rgb { r: 137, g: 180, b: 250 },
            Tint::HunkBg => Rgb { r: 30, g: 37, b: 46 },
            Tint::Guide => Rgb { r: 69, g: 71, b: 90 },
            Tint::HeaderBg => Rgb { r: 24, g: 24, b: 37 },
            Tint::Border => Rgb { r: 69, g: 71, b: 90 },
            Tint::BorderFocus => Rgb { r: 203, g: 166, b: 247 },
        }
    }
}

/// The four pieces that draw the tree guides in front of a sidebar row.
pub struct Guides {
    pub vertical: &'static str,
    pub branch: &'static str,
    pub last: &'static str,
    pub blank: &'static str,
}

pub struct Theme {
    pub nerd_fonts: bool,
    pub guides_ascii: bool,
}

impl Theme {
    /// The guide pieces: plain ASCII, or box-drawing characters.
    pub fn guides(&self) -> (g: Guides)
        ensures
            self.guides_ascii ==> g.vertical@ == "|   "@ && g.branch@ == "|-- "@ && g.last@
                == "`-- "@ && g.blank@ == "    "@,
            !self.guides_ascii ==> g.vertical@ == "│   "@ && g.branch@ == "├── "@ && g.last@
                == "└── "@ && g.blank@ == "    "@,
    {
        if self.guides_ascii {
            Guides { vertical: "|   ", branch: "|-- ", last: "`-- ", blank: "    " }
        } else {
            Guides { vertical: "│   ", branch: "├── ", last: "└── ", blank: "    " }
        }
    }
}

/// The disclosure triangle of a folder row.
pub fn folder_glyph(open: bool) -> (c: char)
    ensures
        c == (if open {
            '▾'
        } else {
            '▸'
        }),
{
    if open {
        '▾'
    } else {
        '▸'
    }
}

/// The folder icon of a folder row.
pub fn folder_icon(open: bool) -> (c: char)
    ensures
        c == (if open {
            '\u{f07c}'
        } else {
            '\u{f07b}'
        }),
{
    if open {
        '\u{f07c}'
    } else {
        '\u{f07b}'
    }
}

/// Green for a staged change, red otherwise.
pub fn status_color(file: &FileEntry) -> (c: Rgb)
    ensures
        c == tint_rgb(
            if file.staged {
                Tint::Green
            } else {
                Tint::Red
            },
        ),
{
    if file.staged {
        Tint::Green.rgb()
    } else {
        Tint::Red.rgb()
    }
}

/// The icon and colour of a file by its extension.
pub open spec fn icon_spec(ext: Seq<char>) -> (char, Tint) {
    if ext == "rs"@ {
        ('\u{e7a8}', Tint::Orange)
    } else if ext == "toml"@ || ext == "lock"@ {
        ('\u{e615}', Tint::Muted)
    } else if ext == "md"@ {
        ('\u{e73e}', Tint::Text)
    } else if ext == "json"@ || ext == "yaml"@ || ext == "yml"@ {
        ('\u{e60b}', Tint::Yellow)
    } else if ext == "js"@ {
        ('\u{e60c}', Tint::Yellow)
    } else if ext == "ts"@ {
        ('\u{e628}', Tint::Folder)
    } else if ext == "py"@ {
        ('\u{e606}', Tint::Yellow)
    } else if ext == "go"@ {
        ('\u{e627}', Tint::Sky)
    } else if ext == "c"@ || ext == "h"@ {
        ('\u{e61e}', Tint::Folder)
    } else if ext == "cpp"@ || ext == "hpp"@ || ext == "cc"@ {
        ('\u{e61d}', Tint::Folder)
    } else if ext == "sh"@ || ext == "bash"@ || ext == "zsh"@ {
        ('\u{e795}', Tint::Green)
    } else if ext == "css"@ {
        ('\u{e749}', Tint::Folder)
    } else if ext == "html"@ {
        ('\u{e736}', Tint::Orange)
    } else if ext == "png"@ || ext == "jpg"@ || ext == "jpeg"@ || ext == "gif"@ || ext == "svg"@ {
        ('\u{e60d}', Tint::Accent)
    } else if ext == "gitignore"@ || ext == "gitattributes"@ || ext == "gitmodules"@ {
        ('\u{e702}', Tint::Orange)
    } else {
        ('\u{e64e}', Tint::Overlay)
    }
}

/// The part of `path` after its last dot (all of it when there is none).
pub open spec fn extension(path: Seq<char>) -> Seq<char> {
    split_on(path, '.').last()
}

/// The icon and colour of the file at `path`, by extension.
pub fn icon_for(path: &str) -> (out: (char, Rgb))
    ensures
        out == (icon_spec(extension(path@)).0, tint_rgb(icon_spec(extension(path@)).1)),
{
    let chars = chars_of(path);
    let pieces = split(chars.as_slice(), '.');
    proof {
        reveal_with_fuel(crate::text::split_from, 2);
        assert(views(pieces@).len() >= 1);
        assert(views(pieces@).last() == pieces@[pieces.len() - 1]@);
    }
    let e = pieces[pieces.len() - 1].as_slice();
    let (icon, tint) = if is_text(e, "rs") {
        ('\u{e7a8}', Tint::Orange)
    } else if is_text(e, "toml") || is_text(e, "lock") {
        ('\u{e615}', Tint::Muted)
    } else if is_text(e, "md") {
        ('\u{e73e}', Tint::Text)
    } else if is_text(e, "json") || is_text(e, "yaml") || is_text(e, "yml") {
        ('\u{e60b}', Tint::Yellow)
    } else if is_text(e, "js") {
        ('\u{e60c}', Tint::Yellow)
    } else if is_text(e, "ts") {
        ('\u{e628}', Tint::Folder)
    } else if is_text(e, "py") {
        ('\u{e606}', Tint::Yellow)
    } else if is_text(e, "go") {
        ('\u{e627}', Tint::Sky)
    } else if is_text(e, "c") || is_text(e, "h") {
        ('\u{e61e}', Tint::Folder)
    } else if is_text(e, "cpp") || is_text(e, "hpp") || is_text(e, "cc") {
        ('\u{e61d}', Tint::Folder)
    } else if is_text(e, "sh") || is_text(e, "bash") || is_text(e, "zsh") {
        ('\u{e795}', Tint::Green)
    } else if is_text(e, "css") {
        ('\u{e749}', Tint::Folder)
    } else if is_text(e, "html") {
        ('\u{e736}', Tint::Orange)
    } else if is_text(e, "png") || is_text(e, "jpg") || is_text(e, "jpeg") || is_text(e, "gif") || is_text(e, "svg") {
        ('\u{e60d}', Tint::Accent)
    } else if is_text(e, "gitignore") || is_text(e, "gitattributes") || is_text(e, "gitmodules") {
        ('\u{e702}', Tint::Orange)
    } else {
        ('\u{e64e}', Tint::Overlay)
    };
    (icon, tint.rgb())
}

} // verus!
