//! The screen regions: a header line, the sidebar and the diff side by side,
//! and a footer line.
use ratatui::layout::{Constraint, Layout};
use vstd::prelude::*;

verus! {

/// A rectangle of terminal cells.
#[derive(Clone, Copy, PartialEq, Eq, Debug, Structural)]
pub struct Rect {
    pub x: u16,
    pub y: u16,
    pub width: u16,
    pub height: u16,
}

impl Rect {
    /// The empty rectangle at the origin.
    pub fn zero() -> (r: Rect)
        ensures
            r == (Rect { x: 0, y: 0, width: 0, height: 0 }),
    {
        Rect { x: 0, y: 0, width: 0, height: 0 }
    }
}

pub struct Regions {
    pub header: Rect,
    pub sidebar: Rect,
    pub sidebar_inner: Rect,
    pub diff: Rect,
    pub diff_inner: Rect,
    pub footer: Rect,
}

/// Height of the header line and of the footer line.
pub const BAR_HEIGHT: u16 = 1;

/// Share of the body's width, in percent, that the sidebar takes.
pub const SIDEBAR_PERCENT: u16 = 20;

/// Share of the body's width, in percent, that the diff takes.
pub const DIFF_PERCENT: u16 = 80;

/// The last row boundary of `area`, kept within the coordinate range (as
/// ratatui's `Rect::bottom` does).
pub open spec fn bottom_of(area: Rect) -> int {
    if area.y + area.height > u16::MAX {
        u16::MAX as int
    } else {
        area.y + area.height
    }
}

/// What holds of the three rows that ratatui's vertical layout makes of `area`
/// for a top of `top` rows, the rest, and a bottom of `bottom` rows: each spans
/// the area's columns; they lie in order within the area's rows; and when the
/// area has room for the top and the bottom, they are exactly the top rows,
/// the rows between and the bottom rows.
pub open spec fn stacked(area: Rect, top: u16, bottom: u16, parts: (Rect, Rect, Rect)) -> bool {
    let (a, b, c) = parts;
    let room = bottom_of(area) - area.y;
    &&& a.x == area.x && b.x == area.x && c.x == area.x
    &&& a.width == area.width && b.width == area.width && c.width == area.width
    &&& area.y <= a.y
    &&& a.y + a.height <= b.y
    &&& b.y + b.height <= c.y
    &&& c.y + c.height <= bottom_of(area)
    &&& top + bottom <= room ==> {
        &&& a.y == area.y && a.height == top
        &&& b.y == area.y + top && b.height == room - top - bottom
        &&& c.y == area.y + room - bottom && c.height == bottom
    }
}

/// The columns that ratatui's layout gives `body`: `left` and `right` percent
/// of its width.
pub uninterp spec fn body_columns(body: Rect, left: u16, right: u16) -> (Rect, Rect);

/// `Layout::vertical([Length(top), Min(0), Length(bottom)]).areas(area)` of
/// ratatui. Claimed: what `stacked` says, which holds of every outcome. Which
/// rows the parts get when the area is too short for the top and the bottom
/// is left unsaid: ratatui's solver then breaks a tie in an order that can
/// differ from one run to the next.
#[verifier::external_body]
fn split_screen(area: Rect, top: u16, bottom: u16) -> (parts: (Rect, Rect, Rect))
    ensures
        stacked(area, top, bottom, parts),
{
    let r = ratatui::layout::Rect { x: area.x, y: area.y, width: area.width, height: area.height };
    let [a, b, c] = Layout::vertical(
        [Constraint::Length(top), Constraint::Min(0), Constraint::Length(bottom)],
    ).areas(r);
    (
        Rect { x: a.x, y: a.y, width: a.width, height: a.height },
        Rect { x: b.x, y: b.y, width: b.width, height: b.height },
        Rect { x: c.x, y: c.y, width: c.width, height: c.height },
    )
}

/// `Layout::horizontal([Percentage(left), Percentage(right)]).areas(body)` of
/// ratatui. Claimed: the parts are `body_columns(body, left, right)`, a
/// function of the arguments alone, and each spans the rows of `body`.
#[verifier::external_body]
fn split_body(body: Rect, left: u16, right: u16) -> (parts: (Rect, Rect))
    ensures
        parts == body_columns(body, left, right),
        parts.0.y == body.y && parts.0.height == body.height,
        parts.1.y == body.y && parts.1.height == body.height,
{
    let r = ratatui::layout::Rect { x: body.x, y: body.y, width: body.width, height: body.height };
    let [a, b] = Layout::horizontal([Constraint::Percentage(left), Constraint::Percentage(right)])
        .areas(r);
    (
        Rect { x: a.x, y: a.y, width: a.width, height: a.height },
        Rect { x: b.x, y: b.y, width: b.width, height: b.height },
    )
}

pub open spec fn sat_add(a: u16, b: u16) -> u16 {
    if a + b > u16::MAX {
        u16::MAX
    } else {
        (a + b) as u16
    }
}

pub open spec fn sat_sub(a: u16, b: u16) -> u16 {
    if a < b {
        0
    } else {
        (a - b) as u16
    }
}

/// The inside of a bordered box.
pub open spec fn inner_of(area: Rect) -> Rect {
    Rect {
        x: sat_add(area.x, 1),
        y: sat_add(area.y, 1),
        width: sat_sub(area.width, 2),
        height: sat_sub(area.height, 2),
    }
}

/// The regions made of the screen's header, body and footer rows and the
/// body's sidebar and diff columns.
pub open spec fn regions_from(rows: (Rect, Rect, Rect), columns: (Rect, Rect)) -> Regions {
    Regions {
        header: rows.0,
        sidebar: columns.0,
        sidebar_inner: inner_of(columns.0),
        diff: columns.1,
        diff_inner: inner_of(columns.1),
        footer: rows.2,
    }
}

/// `r` is what `regions` can give for a screen of size `area`: a header and
/// a footer row, the body between split into the sidebar and diff columns, and
/// their insides.
pub open spec fn screen_regions(area: Rect, r: Regions) -> bool {
    exists|body: Rect|
        {
            &&& stacked(area, BAR_HEIGHT, BAR_HEIGHT, (r.header, body, r.footer))
            &&& (r.sidebar, r.diff) == #[trigger] body_columns(body, SIDEBAR_PERCENT, DIFF_PERCENT)
            &&& r.sidebar.y == body.y && r.sidebar.height == body.height
            &&& r.diff.y == body.y && r.diff.height == body.height
            &&& r == regions_from((r.header, body, r.footer), (r.sidebar, r.diff))
        }
}

/// Rows inside the sidebar's and the diff's borders on a screen of size
/// `area`: all but the header, the footer and the two border rows.
pub open spec fn pane_height(area: Rect) -> u16 {
    let room = bottom_of(area) - area.y;
    (if room >= 4 {
        room - 4
    } else {
        0
    }) as u16
}

/// Whatever the layout gives, the insides of both panes are `pane_height`
/// rows tall, and a screen of two rows or more gets a one-row header and
/// footer.
pub proof fn law_pane_heights(area: Rect, r: Regions)
    requires
        screen_regions(area, r),
    ensures
        r.sidebar_inner.height == pane_height(area),
        r.diff_inner.height == pane_height(area),
        bottom_of(area) - area.y >= 2 ==> r.header == (Rect {
            x: area.x,
            y: area.y,
            width: area.width,
            height: 1,
        }) && r.footer == (Rect {
            x: area.x,
            y: (bottom_of(area) - 1) as u16,
            width: area.width,
            height: 1,
        }),
{
    let body = choose|body: Rect|
        {
            &&& stacked(area, BAR_HEIGHT, BAR_HEIGHT, (r.header, body, r.footer))
            &&& (r.sidebar, r.diff) == #[trigger] body_columns(body, SIDEBAR_PERCENT, DIFF_PERCENT)
            &&& r.sidebar.y == body.y && r.sidebar.height == body.height
            &&& r.diff.y == body.y && r.diff.height == body.height
            &&& r == regions_from((r.header, body, r.footer), (r.sidebar, r.diff))
        };
    assert(r.sidebar.height == body.height);
}

/// The inside of a bordered box.
pub fn inner(area: Rect) -> (r: Rect)
    ensures
        r == inner_of(area),
{
    Rect {
        x: area.x.saturating_add(1),
        y: area.y.saturating_add(1),
        width: area.width.saturating_sub(2),
        height: area.height.saturating_sub(2),
    }
}

/// The regions made of the screen's header, body and footer rows and the
/// body's sidebar and diff columns: the panes' insides within their borders.
pub fn assemble(rows: (Rect, Rect, Rect), columns: (Rect, Rect)) -> (r: Regions)
    ensures
        r == regions_from(rows, columns),
{
    Regions {
        header: rows.0,
        sidebar: columns.0,
        sidebar_inner: inner(columns.0),
        diff: columns.1,
        diff_inner: inner(columns.1),
        footer: rows.2,
    }
}

/// The regions of a screen of size `area`.
pub fn regions(area: Rect) -> (r: Regions)
    ensures
        screen_regions(area, r),
{
    let rows = split_screen(area, BAR_HEIGHT, BAR_HEIGHT);
    let columns = split_body(rows.1, SIDEBAR_PERCENT, DIFF_PERCENT);
    let r = assemble(rows, columns);
    assert(r.sidebar == columns.0 && r.diff == columns.1);
    r
}

/// The cell at `column`, `row` lies in `area`.
pub open spec fn inside(area: Rect, column: u16, row: u16) -> bool {
    area.x <= column < area.x + area.width && area.y <= row < area.y + area.height
}

/// Whether the cell at `column`, `row` lies in `area`.
pub fn contains(area: Rect, column: u16, row: u16) -> (b: bool)
    ensures
        b == inside(area, column, row),
{
    let right = area.x as u32 + area.width as u32;
    let bottom = area.y as u32 + area.height as u32;
    column >= area.x && (column as u32) < right && row >= area.y && (row as u32) < bottom
}

} // verus!
