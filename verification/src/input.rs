//! Keys to actions: what each key means in the sidebar, in the diff, in a
//! prompt and in the confirmation dialog.
use vstd::prelude::*;

use crate::app::{Action, App, AppView, Focus, GitOpView, Mode, ModeView, WorkView};
use crate::update::performed;
use crate::field::EditOp;

verus! {

/// A key as the application reads it.
#[derive(Clone, Copy, PartialEq, Eq, Debug, Structural)]
pub enum Key {
    Char(char),
    Up,
    Down,
    Left,
    Right,
    Enter,
    Tab,
    Backspace,
    Esc,
    /// Any other key.
    Other,
}

/// What a key does when no prompt is open.
pub open spec fn normal_action(focus: Focus, key: Key) -> Action {
    match focus {
        Focus::Sidebar => match key {
            Key::Char('q') => Action::Quit,
            Key::Char('j') | Key::Down => Action::NavNext,
            Key::Char('k') | Key::Up => Action::NavPrev,
            Key::Char('h') | Key::Left => Action::Collapse,
            Key::Char('l') | Key::Right => Action::Expand,
            Key::Enter => Action::EnterRow,
            Key::Tab => Action::ToggleFocus,
            Key::Char(' ') => Action::StageToggle,
            Key::Char('c') => Action::OpenCommit,
            Key::Char('b') => Action::OpenBranch,
            Key::Char('p') => Action::Pull,
            Key::Char('P') => Action::Push,
            Key::Char('X') => Action::OpenConfirm,
            Key::Char('?') => Action::OpenHelp,
            _ => Action::Noop,
        },
        Focus::Diff => match key {
            Key::Char('q') => Action::Quit,
            Key::Char('j') | Key::Down => Action::ScrollDiff(1i32),
            Key::Char('k') | Key::Up => Action::ScrollDiff(-1i32),
            Key::Char('?') => Action::OpenHelp,
            Key::Enter | Key::Tab => Action::ToggleFocus,
            _ => Action::Noop,
        },
    }
}

/// What a key does in the commit or branch prompt.
pub open spec fn editing_action(key: Key) -> Action {
    match key {
        Key::Char(c) => Action::Edit(EditOp::Insert(c)),
        Key::Backspace => Action::Edit(EditOp::Backspace),
        Key::Left => Action::Edit(EditOp::Left),
        Key::Right => Action::Edit(EditOp::Right),
        Key::Enter => Action::Submit,
        Key::Esc => Action::Cancel,
        _ => Action::Noop,
    }
}

/// What a key does in the confirmation dialog.
pub open spec fn confirm_action(key: Key) -> Action {
    match key {
        Key::Char('y') | Key::Enter => Action::Submit,
        Key::Char('n') | Key::Esc => Action::Cancel,
        _ => Action::Noop,
    }
}

/// What a key does in the mode `mode` with the focus on `focus`; any key
/// closes the help.
pub open spec fn key_action(mode: ModeView, focus: Focus, key: Key) -> Action {
    match mode {
        ModeView::Normal => normal_action(focus, key),
        ModeView::Commit(..) | ModeView::Branch(..) => editing_action(key),
        ModeView::Confirm => confirm_action(key),
        ModeView::Help => Action::Cancel,
    }
}

/// The action that `key` asks of the application in its present state.
pub fn map(app: &App, key: Key) -> (a: Action)
    ensures
        a == key_action(app@.mode, app@.focus, key),
{
    match &app.mode {
        Mode::Normal => normal(app.focus, key),
        Mode::Commit(_) | Mode::Branch(_) => editing(key),
        Mode::Confirm => confirm(key),
        Mode::Help => Action::Cancel,
    }
}

fn normal(focus: Focus, key: Key) -> (a: Action)
    ensures
        a == normal_action(focus, key),
{
    match focus {
        Focus::Sidebar => match key {
            Key::Char('q') => Action::Quit,
            Key::Char('j') | Key::Down => Action::NavNext,
            Key::Char('k') | Key::Up => Action::NavPrev,
            Key::Char('h') | Key::Left => Action::Collapse,
            Key::Char('l') | Key::Right => Action::Expand,
            Key::Enter => Action::EnterRow,
            Key::Tab => Action::ToggleFocus,
            Key::Char(' ') => Action::StageToggle,
            Key::Char('c') => Action::OpenCommit,
            Key::Char('b') => Action::OpenBranch,
            Key::Char('p') => Action::Pull,
            Key::Char('P') => Action::Push,
            Key::Char('X') => Action::OpenConfirm,
            Key::Char('?') => Action::OpenHelp,
            _ => Action::Noop,
        },
        Focus::Diff => match key {
            Key::Char('q') => Action::Quit,
            Key::Char('j') | Key::Down => Action::ScrollDiff(1),
            Key::Char('k') | Key::Up => Action::ScrollDiff(-1),
            Key::Char('?') => Action::OpenHelp,
            Key::Enter | Key::Tab => Action::ToggleFocus,
            _ => Action::Noop,
        },
    }
}

fn editing(key: Key) -> (a: Action)
    ensures
        a == editing_action(key),
{
    match key {
        Key::Char(c) => Action::Edit(EditOp::Insert(c)),
        Key::Backspace => Action::Edit(EditOp::Backspace),
        Key::Left => Action::Edit(EditOp::Left),
        Key::Right => Action::Edit(EditOp::Right),
        Key::Enter => Action::Submit,
        Key::Esc => Action::Cancel,
        _ => Action::Noop,
    }
}

fn confirm(key: Key) -> (a: Action)
    ensures
        a == confirm_action(key),
{
    match key {
        Key::Char('y') | Key::Enter => Action::Submit,
        Key::Char('n') | Key::Esc => Action::Cancel,
        _ => Action::Noop,
    }
}

/// In the help, any key closes it, and nothing else changes.
pub proof fn law_any_key_closes_help(v: AppView, key: Key)
    requires
        v.mode is Help,
    ensures
        performed(v, key_action(v.mode, v.focus, key)) == (AppView { mode: ModeView::Normal, ..v }),
{
}

/// In a prompt, Esc closes it and runs nothing.
pub proof fn law_escape_closes_prompt(v: AppView)
    requires
        v.mode is Commit || v.mode is Branch,
    ensures
        performed(v, key_action(v.mode, v.focus, Key::Esc)) == (AppView {
            mode: ModeView::Normal,
            ..v
        }),
{
}

/// In the commit prompt, Enter closes it and asks git to commit its text.
pub proof fn law_enter_commits(v: AppView, text: Seq<char>, cursor: usize)
    requires
        v.mode == ModeView::Commit(text, cursor),
    ensures
        performed(v, key_action(v.mode, v.focus, Key::Enter)) == (AppView {
            mode: ModeView::Normal,
            work: Some(WorkView::Git(GitOpView::Commit(text))),
            ..v
        }),
{
}

} // verus!
