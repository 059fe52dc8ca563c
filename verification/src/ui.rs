//! What the panes show, as values: the diff title, shortened texts, the
//! colour of a folder, the tree guides in front of each row, the colours of a
//! diff cell, and the rows of the diff that fit the pane.
use vstd::prelude::*;

use crate::app::{chars_start_with, is_under, selected_row, under, App, AppView};
use crate::diff::Kind;
use crate::status::{files_view, FileView};
use crate::text::{
    append, chars_of, decimal, has_prefix, push_char, push_decimal, slice_chars, string_of,
};
use crate::theme::Tint;
use crate::tree::{rows_view, Row, RowKind, RowView};

verus! {

/// `text` cut to `avail` characters, the last one an ellipsis when cut.
pub open spec fn truncated(text: Seq<char>, avail: nat) -> Seq<char> {
    if avail == 0 {
        seq![]
    } else if text.len() <= avail {
        text
    } else {
        text.take(avail - 1).push('…')
    }
}

/// `text` cut to `avail` characters, the last one an ellipsis when cut.
pub fn truncate(text: &str, avail: usize) -> (out: String)
    ensures
        out@ == truncated(text@, avail as nat),
{
    if avail == 0 {
        return String::new();
    }
    let chars = chars_of(text);
    if chars.len() <= avail {
        return text.to_owned();
    }
    let head = slice_chars(chars.as_slice(), 0, avail - 1);
    let mut out = string_of(head.as_slice());
    push_char(&mut out, '…');
    assert(chars@.subrange(0, avail - 1) =~= chars@.take(avail - 1));
    out
}

/// Number of the files strictly inside the folder `path`.
pub open spec fn count_inside(files: Seq<FileView>, path: Seq<char>) -> nat
    decreases files.len(),
{
    if files.len() == 0 {
        0
    } else {
        count_inside(files.drop_last(), path) + (if has_prefix(files.last().path, path + seq!['/']) {
            1nat
        } else {
            0nat
        })
    }
}

/// The title of the diff pane: the selected file's path, or the selected
/// folder's path with the number of files inside it.
pub open spec fn diff_title(v: AppView) -> Seq<char> {
    match selected_row(v) {
        None => "diff"@,
        Some(r) => match r.kind {
            RowKind::File { .. } => r.path,
            RowKind::Dir => r.path + "/  ("@ + decimal(count_inside(v.status.files, r.path)) + ")"@,
        },
    }
}

/// The title of the diff pane.
pub fn title(app: &App) -> (t: String)
    ensures
        t@ == diff_title(app@),
{
    if app.selected >= app.rows.len() {
        return "diff".to_owned();
    }
    proof {
        assert(rows_view(app.rows@)[app.selected as int] == app.rows@[app.selected as int]@);
    }
    let path = &app.rows[app.selected].path;
    match app.rows[app.selected].kind {
        RowKind::File { .. } => path.clone(),
        RowKind::Dir => {
            let mut prefix = chars_of(path.as_str());
            prefix.push('/');
            let ghost fv = files_view(app.status.files@);
            let mut count: u64 = 0;
            let mut k: usize = 0;
            assert(fv.take(0) =~= Seq::<FileView>::empty());
            while k < app.status.files.len()
                invariant
                    fv == files_view(app.status.files@),
                    prefix@ == path@ + seq!['/'],
                    k <= app.status.files.len(),
                    count == count_inside(fv.take(k as int), path@),
                    count <= k,
                decreases app.status.files.len() - k,
            {
                assert(fv.take(k + 1).drop_last() =~= fv.take(k as int));
                assert(fv.take(k + 1).last() == app.status.files@[k as int]@);
                let pc = chars_of(app.status.files[k].path.as_str());
                if chars_start_with(pc.as_slice(), prefix.as_slice()) {
                    count = count + 1;
                }
                k += 1;
            }
            assert(fv.take(k as int) =~= fv);
            let mut t = path.clone();
            push_char(&mut t, '/');
            push_char(&mut t, ' ');
            push_char(&mut t, ' ');
            push_char(&mut t, '(');
            push_decimal(&mut t, count);
            push_char(&mut t, ')');
            proof {
                reveal_strlit("/  (");
                reveal_strlit(")");
            }
            assert(t@ =~= diff_title(app@));
            t
        },
    }
}

/// Some file in the folder `path` has staged changes.
pub open spec fn any_staged_under(files: Seq<FileView>, path: Seq<char>) -> bool {
    exists|k: int| 0 <= k < files.len() && is_under((#[trigger] files[k]).path, path) && files[k].staged
}

/// Some file in the folder `path` has unstaged changes.
pub open spec fn any_unstaged_under(files: Seq<FileView>, path: Seq<char>) -> bool {
    exists|k: int| 0 <= k < files.len() && is_under((#[trigger] files[k]).path, path) && files[k].unstaged
}

/// The colour of a folder's name: yellow when it holds both staged and
/// unstaged changes, green for staged only, red for unstaged only.
pub open spec fn folder_tint(files: Seq<FileView>, path: Seq<char>) -> Tint {
    let s = any_staged_under(files, path);
    let u = any_unstaged_under(files, path);
    if s && u {
        Tint::Yellow
    } else if s {
        Tint::Green
    } else if u {
        Tint::Red
    } else {
        Tint::Folder
    }
}

/// The colour of the name of the folder `path`.
pub fn folder_color(app: &App, path: &String) -> (t: Tint)
    ensures
        t == folder_tint(app@.status.files, path@),
{
    let ghost fv = files_view(app.status.files@);
    let mut staged = false;
    let mut unstaged = false;
    let mut k: usize = 0;
    while k < app.status.files.len()
        invariant
            fv == files_view(app.status.files@),
            k <= app.status.files.len(),
            staged == exists|j: int| 0 <= j < k && is_under((#[trigger] fv[j]).path, path@) && fv[j].staged,
            unstaged == exists|j: int|
                0 <= j < k && is_under((#[trigger] fv[j]).path, path@) && fv[j].unstaged,
        decreases app.status.files.len() - k,
    {
        assert(fv[k as int] == app.status.files@[k as int]@);
        if under(&app.status.files[k].path, path) {
            if app.status.files[k].staged {
                staged = true;
            }
            if app.status.files[k].unstaged {
                unstaged = true;
            }
        }
        k += 1;
    }
    if staged && unstaged {
        Tint::Yellow
    } else if staged {
        Tint::Green
    } else if unstaged {
        Tint::Red
    } else {
        Tint::Folder
    }
}

/// One column of the tree guides in front of a sidebar row.
#[derive(Clone, Copy, PartialEq, Eq, Debug, Structural)]
pub enum Piece {
    /// A line going on down past this row.
    Vertical,
    /// The branch to a row that has siblings below it.
    Branch,
    /// The branch to the last row of its folder.
    Last,
    /// Nothing: the folder of that level has ended.
    Blank,
}

/// For each level above a row, whether the row there was the last of its
/// folder, after the first `n` rows.
pub open spec fn ends_after(rows: Seq<RowView>, n: int) -> Seq<bool>
    decreases n,
{
    if n <= 0 {
        seq![]
    } else {
        let st = ends_after(rows, n - 1);
        let d = rows[n - 1].depth as int;
        (if st.len() > d {
            st.take(d)
        } else {
            st
        }).push(rows[n - 1].is_last)
    }
}

/// The guide columns in front of row `i`: a branch (or the last branch) at its
/// own level, and above it a line where that level's folder goes on.
pub open spec fn pieces_of(rows: Seq<RowView>, i: int) -> Seq<Piece> {
    let st = ends_after(rows, i + 1);
    let d = rows[i].depth as int;
    let n = if st.len() < d {
        st.len() as int
    } else {
        d
    };
    Seq::new(
        n as nat,
        |c: int|
            if c == d - 1 {
                if rows[i].is_last {
                    Piece::Last
                } else {
                    Piece::Branch
                }
            } else if st[c] {
                Piece::Blank
            } else {
                Piece::Vertical
            },
    )
}

/// The guide columns in front of each row.
pub fn guide_pieces(rows: &Vec<Row>) -> (out: Vec<Vec<Piece>>)
    ensures
        out.len() == rows.len(),
        forall|i: int| 0 <= i < rows.len() ==> (#[trigger] out@[i])@ == pieces_of(rows_view(rows@), i),
{
    let ghost rv = rows_view(rows@);
    let mut ends: Vec<bool> = Vec::new();
    let mut out: Vec<Vec<Piece>> = Vec::new();
    let mut i: usize = 0;
    while i < rows.len()
        invariant
            rv == rows_view(rows@),
            i <= rows.len(),
            ends@ == ends_after(rv, i as int),
            out.len() == i,
            forall|j: int| 0 <= j < i ==> (#[trigger] out@[j])@ == pieces_of(rv, j),
        decreases rows.len() - i,
    {
        assert(rv[i as int] == rows@[i as int]@);
        let depth = rows[i].depth as usize;
        ends.truncate(depth);
        ends.push(rows[i].is_last);
        assert(ends@ =~= ends_after(rv, i + 1));
        let n = if ends.len() < depth {
            ends.len()
        } else {
            depth
        };
        let mut line: Vec<Piece> = Vec::new();
        let mut c: usize = 0;
        while c < n
            invariant
                rv == rows_view(rows@),
                i < rows.len(),
                depth == rv[i as int].depth,
                ends@ == ends_after(rv, i + 1),
                n == (if ends.len() < depth {
                    ends.len()
                } else {
                    depth
                }),
                c <= n,
                line.len() == c,
                forall|j: int| 0 <= j < c ==> line@[j] == pieces_of(rv, i as int)[j],
            decreases n - c,
        {
            let p = if c == depth - 1 {
                if rows[i].is_last {
                    Piece::Last
                } else {
                    Piece::Branch
                }
            } else if ends[c] {
                Piece::Blank
            } else {
                Piece::Vertical
            };
            line.push(p);
            c += 1;
        }
        assert(line@ =~= pieces_of(rv, i as int));
        out.push(line);
        i += 1;
    }
    out
}

/// The background, text and line-number colours of a diff cell.
pub open spec fn palette_of(kind: Kind) -> (Tint, Tint, Tint) {
    match kind {
        Kind::Context => (Tint::Base, Tint::ContextFg, Tint::GutterFg),
        Kind::Del => (Tint::DelBg, Tint::DelFg, Tint::DelGutterFg),
        Kind::Add => (Tint::AddBg, Tint::AddFg, Tint::AddGutterFg),
        Kind::Empty => (Tint::FillerBg, Tint::ContextFg, Tint::GutterFg),
        Kind::Hunk => (Tint::HunkBg, Tint::HunkFg, Tint::HunkFg),
        Kind::File => (Tint::HunkBg, Tint::HunkFg, Tint::HunkFg),
    }
}

/// The background, text and line-number colours of a diff cell.
pub fn palette(kind: Kind) -> (p: (Tint, Tint, Tint))
    ensures
        p == palette_of(kind),
{
    match kind {
        Kind::Context => (Tint::Base, Tint::ContextFg, Tint::GutterFg),
        Kind::Del => (Tint::DelBg, Tint::DelFg, Tint::DelGutterFg),
        Kind::Add => (Tint::AddBg, Tint::AddFg, Tint::AddGutterFg),
        Kind::Empty => (Tint::FillerBg, Tint::ContextFg, Tint::GutterFg),
        Kind::Hunk | Kind::File => (Tint::HunkBg, Tint::HunkFg, Tint::HunkFg),
    }
}

/// The border colour of a pane: the accent when it has the focus.
pub fn border_tint(active: bool) -> (t: Tint)
    ensures
        t == (if active {
            Tint::BorderFocus
        } else {
            Tint::Border
        }),
{
    if active {
        Tint::BorderFocus
    } else {
        Tint::Border
    }
}

/// The rows of a diff of `len` rows that a pane of `height` lines shows when
/// scrolled by `scroll`: from `start` up to `end`, the scroll kept so that the
/// pane stays full where it can.
pub fn diff_window(len: usize, scroll: u16, height: usize) -> (w: (usize, usize))
    ensures
        w.0 == (if len > height {
            if (scroll as int) < len - height {
                scroll as int
            } else {
                len - height
            }
        } else {
            0
        }),
        w.1 == (if w.0 + height < len {
            w.0 + height
        } else {
            len as int
        }),
{
    let room = if len > height {
        len - height
    } else {
        0
    };
    let start = if (scroll as usize) < room {
        scroll as usize
    } else {
        room
    };
    let end = if height < len - start {
        start + height
    } else {
        len
    };
    (start, end)
}

/// A shortened text takes at most `avail` characters, and all of them when the
/// text is no longer.
pub proof fn law_truncate_fits(text: Seq<char>, avail: nat)
    ensures
        truncated(text, avail).len() == if text.len() < avail {
            text.len()
        } else {
            avail
        },
{
}

/// How a piece of the footer line looks.
#[derive(Clone, Copy, PartialEq, Eq, Debug, Structural)]
pub enum Look {
    /// No colour of its own.
    Plain,
    /// A command being typed.
    Pending,
    /// The message of the last command.
    Message,
    /// A key on a chip.
    Key,
    /// What a key does.
    Label,
}

/// The pieces of the footer that list the main keys and what they do.
pub open spec fn key_pieces() -> Seq<(Seq<char>, Look)> {
    seq![
        (" j/k "@, Look::Key),
        (" move  "@, Look::Label),
        (" space "@, Look::Key),
        (" stage  "@, Look::Label),
        (" enter "@, Look::Key),
        (" open  "@, Look::Label),
        (" c "@, Look::Key),
        (" commit  "@, Look::Label),
        (" p "@, Look::Key),
        (" pull  "@, Look::Label),
        (" P "@, Look::Key),
        (" push  "@, Look::Label),
        (" b "@, Look::Key),
        (" branch  "@, Look::Label),
        (" ? "@, Look::Key),
        (" help  "@, Look::Label),
    ]
}

/// The footer line, piece by piece: a command being typed first, then the
/// last message, else the main keys; each after a space.
pub open spec fn footer_pieces(v: AppView) -> Seq<(Seq<char>, Look)> {
    match v.count {
        Some(c) => seq![(seq![' '] + decimal(c as nat), Look::Pending)],
        None => if v.awaiting_g {
            seq![(seq![' ', 'g'], Look::Pending)]
        } else if v.message.len() > 0 {
            seq![(seq![' '] + v.message, Look::Message)]
        } else {
            seq![(seq![' '], Look::Plain)] + key_pieces()
        },
    }
}

pub open spec fn pieces_view(p: Seq<(String, Look)>) -> Seq<(Seq<char>, Look)> {
    p.map_values(|x: (String, Look)| (x.0@, x.1))
}

fn piece(text: &str, look: Look) -> (p: (String, Look))
    ensures
        p.0@ == text@,
        p.1 == look,
{
    (text.to_owned(), look)
}

/// The footer line, piece by piece.
pub fn footer(app: &App) -> (pieces: Vec<(String, Look)>)
    ensures
        pieces_view(pieces@) == footer_pieces(app@),
{
    let mut text = String::new();
    push_char(&mut text, ' ');
    if let Some(c) = app.count {
        push_decimal(&mut text, c as u64);
        let out = vec![(text, Look::Pending)];
        assert(pieces_view(out@) =~= footer_pieces(app@));
        return out;
    }
    if app.awaiting_g {
        push_char(&mut text, 'g');
        assert(text@ =~= seq![' ', 'g']);
        let out = vec![(text, Look::Pending)];
        assert(pieces_view(out@) =~= footer_pieces(app@));
        return out;
    }
    if !app.message.as_str().is_empty() {
        append(&mut text, app.message.as_str());
        let out = vec![(text, Look::Message)];
        assert(pieces_view(out@) =~= footer_pieces(app@));
        return out;
    }
    let out = vec![
        (text, Look::Plain),
        piece(" j/k ", Look::Key),
        piece(" move  ", Look::Label),
        piece(" space ", Look::Key),
        piece(" stage  ", Look::Label),
        piece(" enter ", Look::Key),
        piece(" open  ", Look::Label),
        piece(" c ", Look::Key),
        piece(" commit  ", Look::Label),
        piece(" p ", Look::Key),
        piece(" pull  ", Look::Label),
        piece(" P ", Look::Key),
        piece(" push  ", Look::Label),
        piece(" b ", Look::Key),
        piece(" branch  ", Look::Label),
        piece(" ? ", Look::Key),
        piece(" help  ", Look::Label),
    ];
    assert(pieces_view(out@) =~= footer_pieces(app@));
    out
}

} // verus!
