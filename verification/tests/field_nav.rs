use laziergit::app::{Action, App, Focus};
use laziergit::field::{EditOp, Input};
use laziergit::layout::Rect;
use laziergit::status::parse_text;
use laziergit::theme::Theme;

fn input(value: &str, cursor: usize) -> Input {
    Input { value: value.to_string(), cursor }
}

#[test]
fn insert_moves_the_cursor_by_the_bytes_of_the_character() {
    let mut i = Input::default();
    i.apply(EditOp::Insert('a'));
    i.apply(EditOp::Insert('é'));
    i.apply(EditOp::Insert('€'));
    assert_eq!(i.value, "aé€");
    assert_eq!(i.cursor, 6);
    assert_eq!(i.cursor_col(), 3);
}

#[test]
fn backspace_left_and_right_step_whole_characters() {
    let mut i = input("aé€", 6);
    i.apply(EditOp::Left);
    assert_eq!(i.cursor, 3);
    assert_eq!(i.cursor_col(), 2);
    i.apply(EditOp::Backspace);
    assert_eq!(i.value, "a€");
    assert_eq!(i.cursor, 1);
    i.apply(EditOp::Right);
    assert_eq!(i.cursor, 4);
    i.apply(EditOp::Right);
    assert_eq!(i.cursor, 4);
    i.apply(EditOp::Insert('x'));
    assert_eq!(i.value, "a€x");
}

#[test]
fn edits_at_the_start_do_nothing() {
    let mut i = input("ab", 0);
    i.apply(EditOp::Backspace);
    i.apply(EditOp::Left);
    assert_eq!(i.value, "ab");
    assert_eq!(i.cursor, 0);
    i.apply(EditOp::Insert('z'));
    assert_eq!(i.value, "zab");
    assert_eq!(i.cursor, 1);
}

#[test]
fn typing_then_deleting_restores_the_field() {
    let mut i = input("héllo", 3);
    i.apply(EditOp::Insert('ß'));
    i.apply(EditOp::Backspace);
    assert_eq!(i.value, "héllo");
    assert_eq!(i.cursor, 3);
    assert!(i.has_room());
}

fn app_with(n: usize) -> App {
    let mut report = String::new();
    for k in 0..n {
        report.push_str(&format!("? f{k:02}.txt\0"));
    }
    let mut app = App::new(Theme { nerd_fonts: false, guides_ascii: false });
    app.take_work();
    app.load_status(parse_text(&report));
    app.take_work();
    app
}

#[test]
fn the_selection_stays_within_the_rows() {
    let mut app = app_with(3);
    app.move_selection(-5);
    assert_eq!(app.selected, 0);
    app.move_selection(10);
    assert_eq!(app.selected, 2);
    app.set_selected(1);
    assert_eq!(app.selected, 1);
    app.set_selected(usize::MAX);
    assert_eq!(app.selected, 2);
    app.move_selection(i32::MIN);
    assert_eq!(app.selected, 0);
    app.move_selection(i32::MAX);
    assert_eq!(app.selected, 2);
}

#[test]
fn counts_collect_digits_and_stop_at_the_limit() {
    let mut app = app_with(1);
    app.push_digit(0);
    assert_eq!(app.count, None);
    assert_eq!(app.pending_label(), None);
    app.push_digit(1);
    app.push_digit(2);
    assert_eq!(app.count, Some(12));
    assert_eq!(app.pending_label(), Some("12".to_string()));
    assert_eq!(app.take_count(), 12);
    assert_eq!(app.take_count(), 1);
    for _ in 0..7 {
        app.push_digit(9);
    }
    assert_eq!(app.count, Some(99_999));
    app.clear_pending();
    assert_eq!(app.count, None);
}

#[test]
fn g_waits_for_a_second_g_and_jumps() {
    let mut app = app_with(30);
    app.set_area(Rect { x: 0, y: 0, width: 100, height: 12 });
    app.press_g();
    assert!(app.awaiting_g);
    assert_eq!(app.pending_label(), Some("g".to_string()));
    app.push_digit(7);
    app.press_g();
    assert!(!app.awaiting_g);
    assert_eq!(app.selected, 6);
    app.go_bottom();
    assert_eq!(app.selected, 29);
    assert_eq!(app.sidebar_offset, 29 + 1 - 8);
    app.push_digit(2);
    app.go_bottom();
    assert_eq!(app.selected, 1);
    assert_eq!(app.sidebar_offset, 1);
    app.press_g();
    app.press_g();
    assert_eq!(app.selected, 0);
    assert_eq!(app.sidebar_offset, 0);
}

#[test]
fn the_diff_scrolls_within_its_rows() {
    let mut app = app_with(1);
    app.set_area(Rect { x: 0, y: 0, width: 100, height: 12 });
    let mut text = String::from("@@ -1,20 +1,20 @@\n");
    for k in 0..20 {
        text.push_str(&format!(" line {k}\n"));
    }
    app.finish_diff(vec![text], false);
    assert_eq!(app.diff_rows.len(), 21);
    assert_eq!(app.max_diff_scroll(), 21 - 8);
    app.scroll_diff(5);
    assert_eq!(app.diff_scroll, 5);
    app.scroll_diff(100);
    assert_eq!(app.diff_scroll, 13);
    app.scroll_diff(-100);
    assert_eq!(app.diff_scroll, 0);
    app.perform(Action::ScrollDiff(20));
    assert_eq!(app.diff_scroll, 20);
    app.perform(Action::ScrollDiff(-30));
    assert_eq!(app.diff_scroll, 0);
    app.perform(Action::ScrollDiff(70_000));
    assert_eq!(app.diff_scroll, 70_000u32 as u16);
    app.perform(Action::ScrollDiff(20 - 70_000i32 as u16 as i32));
    assert_eq!(app.diff_scroll, 20);
    app.set_area(Rect { x: 0, y: 0, width: 100, height: 20 });
    assert_eq!(app.diff_scroll, 5);
    app.focus = Focus::Diff;
    app.push_digit(3);
    app.press_g();
    app.press_g();
    assert_eq!(app.diff_scroll, 2);
    app.go_bottom();
    assert_eq!(app.diff_scroll, 5);
    assert_eq!(app.wheel_step(), 3);
}

#[test]
fn left_then_right_comes_back() {
    let mut i = input("añb", 3);
    i.apply(EditOp::Left);
    assert_eq!(i.cursor, 1);
    i.apply(EditOp::Right);
    assert_eq!(i.cursor, 3);
    assert_eq!(i.value, "añb");
}
