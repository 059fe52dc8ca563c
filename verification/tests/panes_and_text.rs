use laziergit::app::{Action, App};
use laziergit::diff::Kind;
use laziergit::reply::{reply_line, trim};
use laziergit::spinner::Spinner;
use laziergit::status::{parse_text, FileEntry};
use laziergit::theme::{folder_glyph, folder_icon, icon_for, status_color, Rgb, Theme, Tint};
use laziergit::layout::{assemble, inner, Rect};
use laziergit::ui::{
    border_tint, diff_window, folder_color, footer, guide_pieces, palette, title, truncate, Look, Piece,
};

fn app_from(report: &str) -> App {
    let mut app = App::new(Theme { nerd_fonts: true, guides_ascii: false });
    app.take_work();
    app.load_status(parse_text(report));
    app.take_work();
    app
}

#[test]
fn reply_is_the_last_line_with_text() {
    assert_eq!(reply_line("From x\n * main\nAlready up to date.\n\n  \n"), "Already up to date.");
    assert_eq!(reply_line("one\r\n  two  \r\n"), "two");
    assert_eq!(reply_line(""), "done");
    assert_eq!(reply_line(" \n\t\n"), "done");
}

#[test]
fn trim_drops_white_space_at_both_ends() {
    assert_eq!(trim("  fatal: no remote \n"), "fatal: no remote");
    assert_eq!(trim("\u{3000}x\u{a0}"), "x");
    assert_eq!(trim(" \t "), "");
}

#[test]
fn truncate_marks_a_cut_with_an_ellipsis() {
    assert_eq!(truncate("hello", 0), "");
    assert_eq!(truncate("hello", 5), "hello");
    assert_eq!(truncate("hello", 9), "hello");
    assert_eq!(truncate("hello", 4), "hel…");
    assert_eq!(truncate("héllo", 2), "h…");
    assert_eq!(truncate("hello", 1), "…");
}

#[test]
fn the_diff_title_names_the_selection() {
    let mut app = app_from("? src/a.rs\0? src/b.rs\0? srcx/c.rs\0");
    assert_eq!(title(&app), "src/  (2)");
    app.perform(Action::NavNext);
    assert_eq!(title(&app), "src/a.rs");
    let empty = app_from("");
    assert_eq!(title(&empty), "diff");
}

#[test]
fn folder_colour_says_what_is_staged_inside() {
    let app = app_from(
        "1 M. N... 100644 100644 100644 a b both/x\0\
         1 .M N... 100644 100644 100644 a b both/y\0\
         1 M. N... 100644 100644 100644 a b done/x\0\
         1 .M N... 100644 100644 100644 a b work/x\0",
    );
    assert_eq!(folder_color(&app, &"both".to_string()), Tint::Yellow);
    assert_eq!(folder_color(&app, &"done".to_string()), Tint::Green);
    assert_eq!(folder_color(&app, &"work".to_string()), Tint::Red);
    assert_eq!(folder_color(&app, &"none".to_string()), Tint::Folder);
    assert_eq!(folder_color(&app, &"bot".to_string()), Tint::Folder);
}

#[test]
fn guides_draw_the_tree() {
    let app = app_from("? a/b/c.rs\0? a/d.rs\0? e.rs\0");
    // a, b, c.rs, d.rs, e.rs
    let names: Vec<&str> = app.rows.iter().map(|r| r.name.as_str()).collect();
    assert_eq!(names, vec!["a", "b", "c.rs", "d.rs", "e.rs"]);
    let pieces = guide_pieces(&app.rows);
    assert_eq!(pieces[0], vec![]);
    assert_eq!(pieces[1], vec![Piece::Branch]);
    assert_eq!(pieces[2], vec![Piece::Vertical, Piece::Last]);
    assert_eq!(pieces[3], vec![Piece::Last]);
    assert_eq!(pieces[4], vec![]);
}

#[test]
fn palette_and_borders() {
    assert_eq!(palette(Kind::Del), (Tint::DelBg, Tint::DelFg, Tint::DelGutterFg));
    assert_eq!(palette(Kind::Empty), (Tint::FillerBg, Tint::ContextFg, Tint::GutterFg));
    assert_eq!(palette(Kind::File), palette(Kind::Hunk));
    assert_eq!(border_tint(true), Tint::BorderFocus);
    assert_eq!(border_tint(false), Tint::Border);
    assert_eq!(Tint::Base.rgb(), Rgb { r: 30, g: 30, b: 46 });
}

#[test]
fn the_window_keeps_the_pane_full() {
    assert_eq!(diff_window(100, 0, 10), (0, 10));
    assert_eq!(diff_window(100, 95, 10), (90, 100));
    assert_eq!(diff_window(5, 3, 10), (0, 5));
    assert_eq!(diff_window(0, 0, 0), (0, 0));
}

#[test]
fn spinner_turns_each_tick() {
    let mut s = Spinner::new();
    let mut seen = Vec::new();
    for _ in 0..5 {
        seen.push(s.spinner());
        s.tick();
    }
    assert_eq!(seen, vec!['|', '/', '-', '\\', '|']);
    let mut last = Spinner { frame: usize::MAX };
    let before = last.spinner();
    last.tick();
    assert_eq!(last.frame, 0);
    assert_ne!(before, last.spinner());
}

#[test]
fn icons_and_colours() {
    assert_eq!(icon_for("src/main.rs"), ('\u{e7a8}', Rgb { r: 222, g: 108, b: 58 }));
    assert_eq!(icon_for("Cargo.lock").0, '\u{e615}');
    assert_eq!(icon_for(".gitignore").0, '\u{e702}');
    assert_eq!(icon_for("Makefile").0, '\u{e64e}');
    assert_eq!(folder_glyph(true), '▾');
    assert_eq!(folder_glyph(false), '▸');
    assert_eq!(folder_icon(false), '\u{f07b}');
    let f = FileEntry {
        path: "x".to_string(),
        staged: true,
        unstaged: false,
        untracked: false,
        kind: laziergit::status::Kind::Added,
    };
    assert_eq!(status_color(&f), Tint::Green.rgb());
    let t = Theme { nerd_fonts: false, guides_ascii: true };
    assert_eq!(t.guides().last, "`-- ");
}

#[test]
fn the_footer_shows_what_is_typed_then_the_message_then_the_keys() {
    let mut app = app_from("? a.txt\0");
    let keys = footer(&app);
    assert_eq!(keys.len(), 17);
    assert_eq!(keys[0], (" ".to_string(), Look::Plain));
    assert_eq!(keys[1], (" j/k ".to_string(), Look::Key));
    assert_eq!(keys[2], (" move  ".to_string(), Look::Label));
    assert_eq!(keys[15], (" ? ".to_string(), Look::Key));
    assert_eq!(keys[16], (" help  ".to_string(), Look::Label));
    let line: String = keys.iter().map(|(t, _)| t.as_str()).collect();
    assert_eq!(
        line,
        "  j/k  move   space  stage   enter  open   c  commit   p  pull   P  push   b  branch   ?  help  "
    );
    app.finish_git(&laziergit::app::GitOp::Commit("m".to_string()), Ok(String::new()));
    assert_eq!(footer(&app), vec![(" commit: ok".to_string(), Look::Message)]);
    app.press_g();
    assert_eq!(footer(&app), vec![(" g".to_string(), Look::Pending)]);
    app.push_digit(4);
    app.push_digit(2);
    assert_eq!(footer(&app), vec![(" 42".to_string(), Look::Pending)]);
}

#[test]
fn inner_keeps_inside_the_border() {
    assert_eq!(inner(Rect { x: 3, y: 4, width: 10, height: 5 }), Rect { x: 4, y: 5, width: 8, height: 3 });
    assert_eq!(inner(Rect { x: 65535, y: 0, width: 1, height: 0 }), Rect { x: 65535, y: 1, width: 0, height: 0 });
    let z = Rect { x: 0, y: 0, width: 0, height: 0 };
    let side = Rect { x: 0, y: 1, width: 10, height: 8 };
    let r = assemble((z, z, z), (side, z));
    assert_eq!(r.sidebar_inner, Rect { x: 1, y: 2, width: 8, height: 6 });
    assert_eq!(r.diff_inner, Rect { x: 1, y: 1, width: 0, height: 0 });
}

#[test]
fn spinner_advances_each_tick() {
    let mut task = Spinner::new();
    let first = task.spinner();
    task.tick();
    assert_ne!(first, task.spinner());
}
