use laziergit::app::{Action, App, DiffSource, Focus, GitOp, Mode, Work};
use laziergit::field::EditOp;
use laziergit::input::{self, Key};
use laziergit::status::parse_text;
use laziergit::theme::Theme;
use laziergit::tree::RowKind;

const REPORT: &str = "# branch.head main\0\
1 .M N... 100644 100644 100644 aaaa bbbb src/a.rs\0\
1 M. N... 100644 100644 100644 aaaa bbbb src/b.rs\0\
? notes.txt\0";

fn theme() -> Theme {
    Theme { nerd_fonts: false, guides_ascii: true }
}

/// An application with the status `REPORT` taken in: rows `src`, `a.rs`,
/// `b.rs`, `notes.txt`.
fn loaded_app() -> App {
    let mut app = App::new(theme());
    app.take_work();
    app.load_status(parse_text(REPORT));
    app.take_work();
    app
}

fn git_op(app: &mut App) -> Option<GitOp> {
    match app.take_work() {
        Some(Work::Git(op)) => Some(op),
        _ => None,
    }
}

#[test]
fn new_app_asks_for_the_status() {
    let mut app = App::new(theme());
    assert!(app.rows.is_empty());
    assert_eq!(app.selected, 0);
    assert!(!app.should_quit());
    assert!(matches!(app.take_work(), Some(Work::Status)));
    assert!(app.take_work().is_none());
}

#[test]
fn loading_a_status_lays_out_rows_and_asks_for_the_folder_diff() {
    let mut app = App::new(theme());
    app.take_work();
    app.load_status(parse_text(REPORT));
    assert_eq!(app.rows.len(), 4);
    assert_eq!(app.rows[0].name, "src");
    assert!(matches!(app.rows[0].kind, RowKind::Dir));
    assert_eq!(app.rows[1].name, "a.rs");
    assert_eq!(app.rows[3].name, "notes.txt");
    match app.take_work() {
        Some(Work::Diffs(sources, folder)) => {
            assert!(folder);
            assert_eq!(sources.len(), 2);
            assert!(matches!(&sources[0], DiffSource::Unstaged(p) if p == "src/a.rs"));
            assert!(matches!(&sources[1], DiffSource::Staged(p) if p == "src/b.rs"));
        }
        _ => panic!("expected a diff request"),
    }
}

#[test]
fn moving_down_selects_a_file_and_asks_for_its_diff() {
    let mut app = loaded_app();
    app.perform(Action::NavNext);
    assert_eq!(app.selected, 1);
    match app.take_work() {
        Some(Work::Diffs(sources, folder)) => {
            assert!(!folder);
            assert_eq!(sources.len(), 1);
            assert!(matches!(&sources[0], DiffSource::Unstaged(p) if p == "src/a.rs"));
        }
        _ => panic!("expected a diff request"),
    }
    app.perform(Action::NavNext);
    app.perform(Action::NavNext);
    app.perform(Action::NavNext);
    assert_eq!(app.selected, 3);
    assert!(matches!(app.take_work(), Some(Work::Diffs(s, false)) if matches!(&s[0], DiffSource::Untracked(p) if p == "notes.txt")));
    app.perform(Action::NavPrev);
    assert_eq!(app.selected, 2);
}

#[test]
fn collapse_folds_an_open_folder_and_expand_opens_it() {
    let mut app = loaded_app();
    app.perform(Action::Collapse);
    assert_eq!(app.rows.len(), 2);
    assert!(!app.rows[0].expanded);
    assert_eq!(app.selected, 0);
    app.perform(Action::Expand);
    assert_eq!(app.rows.len(), 4);
    assert!(app.rows[0].expanded);
    assert_eq!(app.selected, 0);
    app.perform(Action::Expand);
    assert_eq!(app.selected, 1);
}

#[test]
fn collapse_on_a_file_goes_to_its_folder() {
    let mut app = loaded_app();
    app.perform(Action::NavNext);
    app.perform(Action::NavNext);
    assert_eq!(app.selected, 2);
    app.perform(Action::Collapse);
    assert_eq!(app.selected, 0);
    assert_eq!(app.rows.len(), 4);
}

#[test]
fn enter_toggles_a_folder_and_focuses_the_diff_of_a_file() {
    let mut app = loaded_app();
    app.perform(Action::EnterRow);
    assert_eq!(app.rows.len(), 2);
    app.perform(Action::EnterRow);
    assert_eq!(app.rows.len(), 4);
    app.perform(Action::NavNext);
    app.perform(Action::EnterRow);
    assert!(app.focus == Focus::Diff);
    app.perform(Action::ToggleFocus);
    assert!(app.focus == Focus::Sidebar);
}

#[test]
fn folding_keeps_the_selection_on_the_same_node() {
    let mut app = loaded_app();
    app.perform(Action::NavNext);
    app.perform(Action::NavNext);
    app.perform(Action::NavNext);
    assert_eq!(app.rows[app.selected].name, "notes.txt");
    app.perform(Action::NavPrev);
    app.perform(Action::NavPrev);
    app.perform(Action::NavPrev);
    app.perform(Action::EnterRow);
    assert_eq!(app.rows[app.selected].name, "src");
}

#[test]
fn space_stages_unstaged_and_unstages_staged() {
    let mut app = loaded_app();
    app.perform(Action::StageToggle);
    assert!(matches!(git_op(&mut app), Some(GitOp::Stage(p)) if p == "src"));
    app.perform(Action::NavNext);
    app.take_work();
    app.perform(Action::StageToggle);
    assert!(matches!(git_op(&mut app), Some(GitOp::Stage(p)) if p == "src/a.rs"));
    app.perform(Action::NavNext);
    app.take_work();
    app.perform(Action::StageToggle);
    assert!(matches!(git_op(&mut app), Some(GitOp::Unstage(p)) if p == "src/b.rs"));
}

#[test]
fn space_unstages_a_folder_whose_files_are_all_staged() {
    let mut app = App::new(theme());
    app.take_work();
    app.load_status(parse_text("1 M. N... 100644 100644 100644 aaaa bbbb lib/x.rs\0"));
    app.take_work();
    app.perform(Action::StageToggle);
    assert!(matches!(git_op(&mut app), Some(GitOp::Unstage(p)) if p == "lib"));
}

#[test]
fn commit_prompt_collects_text_and_submits_it() {
    let mut app = loaded_app();
    app.perform(Action::OpenCommit);
    assert!(matches!(app.mode, Mode::Commit(_)));
    for c in "fix it".chars() {
        app.perform(Action::Edit(EditOp::Insert(c)));
    }
    app.perform(Action::Edit(EditOp::Backspace));
    app.perform(Action::Submit);
    assert!(matches!(app.mode, Mode::Normal));
    assert!(matches!(git_op(&mut app), Some(GitOp::Commit(m)) if m == "fix i"));
}

#[test]
fn branch_prompt_checks_out_the_name() {
    let mut app = loaded_app();
    app.perform(Action::OpenBranch);
    for c in "dev".chars() {
        app.perform(Action::Edit(EditOp::Insert(c)));
    }
    app.perform(Action::Submit);
    assert!(matches!(git_op(&mut app), Some(GitOp::Checkout(n)) if n == "dev"));
}

#[test]
fn confirm_submits_reset_and_cancel_closes() {
    let mut app = loaded_app();
    app.perform(Action::OpenConfirm);
    app.perform(Action::Cancel);
    assert!(matches!(app.mode, Mode::Normal));
    assert!(app.take_work().is_none());
    app.perform(Action::OpenConfirm);
    app.perform(Action::Submit);
    assert!(matches!(git_op(&mut app), Some(GitOp::ResetHardClean)));
    app.perform(Action::Submit);
    assert!(matches!(app.take_work(), Some(Work::Status)));
}

#[test]
fn edits_outside_a_prompt_do_nothing() {
    let mut app = loaded_app();
    app.perform(Action::OpenHelp);
    app.perform(Action::Edit(EditOp::Insert('x')));
    assert!(matches!(app.mode, Mode::Help));
}

#[test]
fn pull_and_push_are_requested() {
    let mut app = loaded_app();
    app.perform(Action::Pull);
    assert!(matches!(git_op(&mut app), Some(GitOp::Pull)));
    app.perform(Action::Push);
    assert!(matches!(git_op(&mut app), Some(GitOp::Push)));
}

#[test]
fn quit_is_remembered() {
    let mut app = loaded_app();
    app.perform(Action::Noop);
    assert!(!app.should_quit());
    app.perform(Action::Quit);
    assert!(app.should_quit());
}

#[test]
fn select_row_focuses_the_sidebar_and_clamps() {
    let mut app = loaded_app();
    app.perform(Action::FocusDiff);
    assert!(app.focus == Focus::Diff);
    app.perform(Action::SelectRow(2));
    assert!(app.focus == Focus::Sidebar);
    assert_eq!(app.selected, 2);
    app.perform(Action::SelectRow(40));
    assert_eq!(app.selected, 3);
    app.perform(Action::FocusSidebar);
    assert!(app.focus == Focus::Sidebar);
}

#[test]
fn git_replies_become_messages() {
    let mut app = loaded_app();
    app.finish_git(&GitOp::Stage("x".to_string()), Ok(String::new()));
    assert_eq!(app.message, "");
    assert!(matches!(app.take_work(), Some(Work::Status)));
    app.finish_git(&GitOp::Unstage("x".to_string()), Err("boom".to_string()));
    assert_eq!(app.message, "boom");
    app.finish_git(&GitOp::Commit("m".to_string()), Ok(String::new()));
    assert_eq!(app.message, "commit: ok");
    app.finish_git(&GitOp::Checkout("dev".to_string()), Err("no such branch".to_string()));
    assert_eq!(app.message, "branch: no such branch");
    app.finish_git(&GitOp::ResetHardClean, Ok(String::new()));
    assert_eq!(app.message, "reset: ok");
    app.finish_git(&GitOp::Pull, Ok("Already up to date.".to_string()));
    assert_eq!(app.message, "pull: Already up to date.");
    app.finish_git(&GitOp::Push, Err("rejected".to_string()));
    assert_eq!(app.message, "push: rejected");
    assert!(matches!(app.take_work(), Some(Work::Status)));
}

#[test]
fn a_failed_status_read_becomes_the_message() {
    let mut app = loaded_app();
    app.finish_status(Err("not a git repository".to_string()));
    assert_eq!(app.message, "not a git repository");
    assert_eq!(app.rows.len(), 4);
    assert!(app.take_work().is_none());
}

#[test]
fn a_status_read_replaces_the_tree_and_keeps_the_selection_in_range() {
    let mut app = loaded_app();
    app.perform(Action::NavNext);
    app.perform(Action::NavNext);
    app.perform(Action::NavNext);
    app.take_work();
    app.finish_status(Ok(b"? only.txt\0".to_vec()));
    assert_eq!(app.rows.len(), 1);
    assert_eq!(app.selected, 0);
    assert_eq!(app.status.files.len(), 1);
    assert!(matches!(app.take_work(), Some(Work::Diffs(s, false)) if s.len() == 1));
}

#[test]
fn diff_text_fills_the_pane() {
    let mut app = loaded_app();
    app.finish_diff(vec!["@@ -1 +1 @@\n-a\n+b\n".to_string()], false);
    assert_eq!(app.diff_rows.len(), 2);
    app.finish_diff(
        vec![
            "diff --git a/x b/x\n@@ -1 +1 @@\n-a\n+b".to_string(),
            "diff --git a/y b/y\n@@ -1 +1 @@\n-c\n+d\n".to_string(),
        ],
        true,
    );
    assert_eq!(app.diff_rows.len(), 6);
    assert_eq!(app.diff_rows[0].left.text, "x");
    assert_eq!(app.diff_rows[3].left.text, "y");
    app.finish_diff(Vec::new(), false);
    assert!(app.diff_rows.is_empty());
    assert_eq!(app.diff_scroll, 0);
}

#[test]
fn folding_and_unfolding_gives_the_rows_back() {
    let mut app = loaded_app();
    let before: Vec<(usize, String)> = app.rows.iter().map(|r| (r.id, r.path.clone())).collect();
    app.perform(Action::EnterRow);
    assert_eq!(app.rows.len(), 2);
    app.perform(Action::EnterRow);
    let after: Vec<(usize, String)> = app.rows.iter().map(|r| (r.id, r.path.clone())).collect();
    assert_eq!(before, after);
    assert!(app.collapsed.is_empty());
}

#[test]
fn escape_closes_a_prompt_and_runs_nothing() {
    let mut app = loaded_app();
    app.perform(Action::OpenBranch);
    app.perform(Action::Edit(EditOp::Insert('x')));
    let esc = input::map(&app, Key::Esc);
    app.perform(esc);
    assert!(matches!(app.mode, Mode::Normal));
    assert!(app.take_work().is_none());
    app.perform(Action::OpenHelp);
    let any = input::map(&app, Key::Char('j'));
    app.perform(any);
    assert!(matches!(app.mode, Mode::Normal));
    assert_eq!(app.selected, 0);
}
