use laziergit::app::{Action, App, Focus};
use laziergit::field::EditOp;
use laziergit::input::{self, Key};
use laziergit::layout::{contains, regions, Rect};
use laziergit::mouse::{self, MouseEvent, MouseKind};
use laziergit::status::parse_text;
use laziergit::theme::Theme;

fn app_with_rows() -> App {
    let mut app = App::new(Theme { nerd_fonts: true, guides_ascii: false });
    app.take_work();
    app.load_status(parse_text("? a.txt\0? b.txt\0? c.txt\0"));
    app.take_work();
    app
}

fn screen() -> Rect {
    Rect { x: 0, y: 0, width: 100, height: 30 }
}

#[test]
fn sidebar_keys() {
    let app = app_with_rows();
    assert_eq!(input::map(&app, Key::Char('q')), Action::Quit);
    assert_eq!(input::map(&app, Key::Char('j')), Action::NavNext);
    assert_eq!(input::map(&app, Key::Down), Action::NavNext);
    assert_eq!(input::map(&app, Key::Char('k')), Action::NavPrev);
    assert_eq!(input::map(&app, Key::Left), Action::Collapse);
    assert_eq!(input::map(&app, Key::Char('l')), Action::Expand);
    assert_eq!(input::map(&app, Key::Enter), Action::EnterRow);
    assert_eq!(input::map(&app, Key::Tab), Action::ToggleFocus);
    assert_eq!(input::map(&app, Key::Char(' ')), Action::StageToggle);
    assert_eq!(input::map(&app, Key::Char('c')), Action::OpenCommit);
    assert_eq!(input::map(&app, Key::Char('b')), Action::OpenBranch);
    assert_eq!(input::map(&app, Key::Char('p')), Action::Pull);
    assert_eq!(input::map(&app, Key::Char('P')), Action::Push);
    assert_eq!(input::map(&app, Key::Char('X')), Action::OpenConfirm);
    assert_eq!(input::map(&app, Key::Char('?')), Action::OpenHelp);
    assert_eq!(input::map(&app, Key::Char('z')), Action::Noop);
    assert_eq!(input::map(&app, Key::Esc), Action::Noop);
}

#[test]
fn diff_keys() {
    let mut app = app_with_rows();
    app.perform(Action::ToggleFocus);
    assert_eq!(input::map(&app, Key::Char('j')), Action::ScrollDiff(1));
    assert_eq!(input::map(&app, Key::Up), Action::ScrollDiff(-1));
    assert_eq!(input::map(&app, Key::Enter), Action::ToggleFocus);
    assert_eq!(input::map(&app, Key::Tab), Action::ToggleFocus);
    assert_eq!(input::map(&app, Key::Char('?')), Action::OpenHelp);
    assert_eq!(input::map(&app, Key::Char(' ')), Action::Noop);
}

#[test]
fn prompt_keys_edit() {
    let mut app = app_with_rows();
    app.perform(Action::OpenCommit);
    assert_eq!(input::map(&app, Key::Char('q')), Action::Edit(EditOp::Insert('q')));
    assert_eq!(input::map(&app, Key::Backspace), Action::Edit(EditOp::Backspace));
    assert_eq!(input::map(&app, Key::Left), Action::Edit(EditOp::Left));
    assert_eq!(input::map(&app, Key::Right), Action::Edit(EditOp::Right));
    assert_eq!(input::map(&app, Key::Enter), Action::Submit);
    assert_eq!(input::map(&app, Key::Esc), Action::Cancel);
    assert_eq!(input::map(&app, Key::Tab), Action::Noop);
}

#[test]
fn confirm_and_help_keys() {
    let mut app = app_with_rows();
    app.perform(Action::OpenConfirm);
    assert_eq!(input::map(&app, Key::Char('y')), Action::Submit);
    assert_eq!(input::map(&app, Key::Enter), Action::Submit);
    assert_eq!(input::map(&app, Key::Char('n')), Action::Cancel);
    assert_eq!(input::map(&app, Key::Esc), Action::Cancel);
    assert_eq!(input::map(&app, Key::Char('q')), Action::Noop);
    app.perform(Action::OpenHelp);
    assert_eq!(input::map(&app, Key::Char('j')), Action::Cancel);
}

#[test]
fn regions_split_the_screen() {
    let r = regions(screen());
    assert_eq!(r.header, Rect { x: 0, y: 0, width: 100, height: 1 });
    assert_eq!(r.footer, Rect { x: 0, y: 29, width: 100, height: 1 });
    assert_eq!(r.sidebar, Rect { x: 0, y: 1, width: 20, height: 28 });
    assert_eq!(r.diff, Rect { x: 20, y: 1, width: 80, height: 28 });
    assert_eq!(r.sidebar_inner, Rect { x: 1, y: 2, width: 18, height: 26 });
    assert_eq!(r.diff_inner, Rect { x: 21, y: 2, width: 78, height: 26 });
}

#[test]
fn contains_is_half_open() {
    let a = Rect { x: 2, y: 3, width: 4, height: 2 };
    assert!(contains(a, 2, 3));
    assert!(contains(a, 5, 4));
    assert!(!contains(a, 6, 4));
    assert!(!contains(a, 5, 5));
    assert!(!contains(a, 1, 3));
    assert!(!contains(Rect { x: 65535, y: 0, width: 10, height: 1 }, 65534, 0));
    assert!(contains(Rect { x: 65530, y: 0, width: 10, height: 1 }, 65535, 0));
}

#[test]
fn clicks_select_rows_and_focus_panes() {
    let mut app = app_with_rows();
    app.set_area(screen());
    let click = |column, row| MouseEvent { kind: MouseKind::LeftDown, column, row };
    assert_eq!(mouse::map(&app, click(5, 2)), Action::SelectRow(0));
    assert_eq!(mouse::map(&app, click(5, 4)), Action::SelectRow(2));
    assert_eq!(mouse::map(&app, click(5, 10)), Action::FocusSidebar);
    assert_eq!(mouse::map(&app, click(50, 10)), Action::FocusDiff);
    assert_eq!(mouse::map(&app, click(50, 0)), Action::Noop);
    let other = MouseEvent { kind: MouseKind::Other, column: 5, row: 2 };
    assert_eq!(mouse::map(&app, other), Action::Noop);
    app.perform(mouse::map(&app, click(5, 4)));
    assert_eq!(app.selected, 2);
    assert!(app.focus == Focus::Sidebar);
}

#[test]
fn the_wheel_scrolls_the_pane_under_it() {
    let mut app = app_with_rows();
    app.set_area(screen());
    let wheel = |kind, column, row| MouseEvent { kind, column, row };
    assert_eq!(mouse::map(&app, wheel(MouseKind::ScrollDown, 50, 10)), Action::ScrollDiff(3));
    assert_eq!(mouse::map(&app, wheel(MouseKind::ScrollUp, 50, 10)), Action::ScrollDiff(-3));
    assert_eq!(mouse::map(&app, wheel(MouseKind::ScrollDown, 5, 10)), Action::NavNext);
    assert_eq!(mouse::map(&app, wheel(MouseKind::ScrollUp, 0, 1)), Action::NavPrev);
    assert_eq!(mouse::map(&app, wheel(MouseKind::ScrollUp, 50, 29)), Action::Noop);
}

#[test]
fn short_screens_leave_no_room_inside_the_panes() {
    for height in 0..5u16 {
        let r = regions(Rect { x: 0, y: 0, width: 50, height });
        assert_eq!(r.sidebar_inner.height, 0);
        assert_eq!(r.diff_inner.height, 0);
    }
    let r = regions(Rect { x: 0, y: 0, width: 50, height: 7 });
    assert_eq!(r.header, Rect { x: 0, y: 0, width: 50, height: 1 });
    assert_eq!(r.footer, Rect { x: 0, y: 6, width: 50, height: 1 });
    assert_eq!(r.diff_inner.height, 3);
}
