//! Mouse events to actions: a click selects a row or focuses a pane, the
//! wheel scrolls the pane under the pointer.
use vstd::prelude::*;

use crate::app::{app_ok, Action, App, AppView, Focus};
use crate::update::performed;
use crate::layout::{contains, inside, regions, screen_regions, Regions};
use crate::nav::SCROLL_STEP;

verus! {

/// What the mouse did.
#[derive(Clone, Copy, PartialEq, Eq, Debug, Structural)]
pub enum MouseKind {
    /// The left button went down.
    LeftDown,
    ScrollDown,
    ScrollUp,
    /// Anything else: other buttons, releases, drags, moves.
    Other,
}

/// A mouse event at the cell `column`, `row`.
#[derive(Clone, Copy, PartialEq, Eq, Debug, Structural)]
pub struct MouseEvent {
    pub kind: MouseKind,
    pub column: u16,
    pub row: u16,
}

/// The sidebar row shown at screen row `row`, the list starting at `top`.
pub open spec fn row_under(v: AppView, top: u16, row: u16) -> Option<usize> {
    if row < top {
        None
    } else {
        let index = v.sidebar_offset + (row - top);
        if index < v.rows.len() {
            Some(index as usize)
        } else {
            None
        }
    }
}

/// A wheel notch (`direction` 1 down, -1 up) over the diff scrolls it; over
/// the sidebar it moves the selection.
pub open spec fn wheel_action(g: Regions, column: u16, row: u16, direction: i32) -> Action {
    if inside(g.diff, column, row) {
        Action::ScrollDiff((direction * SCROLL_STEP) as i32)
    } else if inside(g.sidebar, column, row) {
        if direction > 0 {
            Action::NavNext
        } else {
            Action::NavPrev
        }
    } else {
        Action::Noop
    }
}

/// The action that the mouse event `e` asks of the application, the screen
/// being laid out as `g`.
pub open spec fn mouse_action(v: AppView, g: Regions, e: MouseEvent) -> Action {
    match e.kind {
        MouseKind::LeftDown => if inside(g.sidebar_inner, e.column, e.row) {
            match row_under(v, g.sidebar_inner.y, e.row) {
                Some(i) => Action::SelectRow(i),
                None => Action::FocusSidebar,
            }
        } else if inside(g.diff, e.column, e.row) {
            Action::FocusDiff
        } else {
            Action::Noop
        },
        MouseKind::ScrollDown => wheel_action(g, e.column, e.row, 1i32),
        MouseKind::ScrollUp => wheel_action(g, e.column, e.row, -1i32),
        MouseKind::Other => Action::Noop,
    }
}

/// The action that the mouse event `event` asks of the application, the
/// screen being laid out as `g`.
pub fn map_in(app: &App, g: &Regions, event: MouseEvent) -> (a: Action)
    requires
        app.wf(),
    ensures
        a == mouse_action(app@, *g, event),
{
    let column = event.column;
    let row = event.row;
    match event.kind {
        MouseKind::LeftDown => {
            if contains(g.sidebar_inner, column, row) {
                match row_at(app, g.sidebar_inner.y, row) {
                    Some(index) => Action::SelectRow(index),
                    None => Action::FocusSidebar,
                }
            } else if contains(g.diff, column, row) {
                Action::FocusDiff
            } else {
                Action::Noop
            }
        },
        MouseKind::ScrollDown => wheel(app, g, column, row, 1),
        MouseKind::ScrollUp => wheel(app, g, column, row, -1),
        MouseKind::Other => Action::Noop,
    }
}

/// The action that the mouse event `event` asks of the application, on the
/// screen as the layout gives it for the application's area.
pub fn map(app: &App, event: MouseEvent) -> (a: Action)
    requires
        app.wf(),
    ensures
        exists|g: Regions| screen_regions(app@.area, g) && a == mouse_action(app@, g, event),
{
    let g = regions(app.area);
    map_in(app, &g, event)
}

fn wheel(app: &App, g: &Regions, column: u16, row: u16, direction: i32) -> (a: Action)
    requires
        direction == 1 || direction == -1,
    ensures
        a == wheel_action(*g, column, row, direction),
{
    if contains(g.diff, column, row) {
        Action::ScrollDiff(direction * app.wheel_step())
    } else if contains(g.sidebar, column, row) {
        if direction > 0 {
            Action::NavNext
        } else {
            Action::NavPrev
        }
    } else {
        Action::Noop
    }
}

fn row_at(app: &App, top: u16, row: u16) -> (i: Option<usize>)
    requires
        app.wf(),
    ensures
        i == row_under(app@, top, row),
{
    if row < top {
        return None;
    }
    let index = app.sidebar_offset + (row - top) as usize;
    if index < app.rows.len() {
        Some(index)
    } else {
        None
    }
}

/// A click on a row of the sidebar selects that row and focuses the sidebar.
pub proof fn law_click_selects_row(v: AppView, g: Regions, e: MouseEvent)
    requires
        app_ok(v),
        e.kind == MouseKind::LeftDown,
        inside(g.sidebar_inner, e.column, e.row),
        row_under(v, g.sidebar_inner.y, e.row) is Some,
    ensures
        performed(v, mouse_action(v, g, e)).selected == row_under(v, g.sidebar_inner.y, e.row)->0,
        performed(v, mouse_action(v, g, e)).focus == Focus::Sidebar,
{
}

/// A left click inside the sidebar's list selects the row drawn at that
/// screen row: the one `sidebar_offset` rows down the list plus the click's
/// distance from the list's top; below the last row it only focuses the
/// sidebar.
pub proof fn law_click_picks_drawn_row(v: AppView, g: Regions, e: MouseEvent)
    requires
        e.kind == MouseKind::LeftDown,
        inside(g.sidebar_inner, e.column, e.row),
    ensures
        mouse_action(v, g, e) == if v.sidebar_offset + (e.row - g.sidebar_inner.y) < v.rows.len() {
            Action::SelectRow((v.sidebar_offset + (e.row - g.sidebar_inner.y)) as usize)
        } else {
            Action::FocusSidebar
        },
{
}

} // verus!
