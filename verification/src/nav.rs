//! Moving around: the selection in the sidebar, the scroll of both panes,
//! and vim-style count prefixes (`12G`, `gg`).
use vstd::prelude::*;

use crate::app::{reloaded, App, AppView, Focus};
use crate::layout::{law_pane_heights, pane_height, regions, Rect};
use crate::text::{decimal, decimal_string};

verus! {

/// Lines the mouse wheel scrolls the diff by.
pub const SCROLL_STEP: i32 = 3;

/// The largest count prefix.
pub const MAX_COUNT: u32 = 99_999;

/// How far the diff can scroll: its rows beyond one pane's height.
pub open spec fn max_scroll(v: AppView) -> u16 {
    let h = pane_height(v.area) as int;
    let n = v.diff_rows.len() as int;
    (if n > h {
        n - h
    } else {
        0
    }) as u16
}

/// The sidebar scrolled so that the selected row shows.
pub open spec fn made_visible(v: AppView) -> AppView {
    let h = pane_height(v.area) as int;
    let n = v.rows.len() as int;
    if h == 0 || n == 0 {
        v
    } else {
        let o1: int = if v.selected < v.sidebar_offset {
            v.selected as int
        } else if v.selected >= v.sidebar_offset + h {
            v.selected + 1 - h
        } else {
            v.sidebar_offset as int
        };
        let max_o: int = if n > h {
            n - h
        } else {
            0
        };
        AppView {
            sidebar_offset: (if o1 < max_o {
                o1
            } else {
                max_o
            }) as usize,
            ..v
        }
    }
}

/// The selection moved to row `index` (the last row at most), the diff
/// reloaded when it moved, and the sidebar scrolled to show it.
pub open spec fn selected_at(v: AppView, index: usize) -> AppView {
    if v.rows.len() == 0 {
        v
    } else {
        let c: usize = if index < v.rows.len() - 1 {
            index
        } else {
            (v.rows.len() - 1) as usize
        };
        let v1 = if c != v.selected {
            reloaded(AppView { selected: c, ..v })
        } else {
            v
        };
        made_visible(v1)
    }
}

/// The selection moved by `delta` rows, kept within the rows.
pub open spec fn moved_by(v: AppView, delta: i32) -> AppView {
    if v.rows.len() == 0 {
        v
    } else {
        let t = v.selected + delta;
        let last = v.rows.len() - 1;
        let c: int = if t < 0 {
            0
        } else if t > last {
            last
        } else {
            t
        };
        selected_at(v, c as usize)
    }
}

/// The diff scrolled by `lines`, kept within its rows.
pub open spec fn scrolled_by(v: AppView, lines: i32) -> AppView {
    let m = max_scroll(v) as int;
    let t = v.diff_scroll + lines;
    AppView {
        diff_scroll: (if t < 0 {
            0
        } else if t > m {
            m
        } else {
            t
        }) as u16,
        ..v
    }
}

/// The count after typing `digit`.
pub open spec fn count_after(count: Option<u32>, digit: u32) -> Option<u32> {
    if digit == 0 && count is None {
        count
    } else {
        let c: int = match count {
            Some(c) => c as int,
            None => 0,
        };
        let m: int = if c * 10 > u32::MAX {
            u32::MAX as int
        } else {
            c * 10
        };
        let a: int = if m + digit > u32::MAX {
            u32::MAX as int
        } else {
            m + digit
        };
        Some(
            (if a < MAX_COUNT {
                a
            } else {
                MAX_COUNT as int
            }) as u32,
        )
    }
}

/// The effect of a `G`-like jump to line `row` (the first line is 1): the
/// selection in the sidebar, or the scroll of the diff. Without a line it goes
/// to the bottom or the top.
pub open spec fn gone_to(v: AppView, row: Option<u32>, default_bottom: bool) -> AppView {
    match v.focus {
        Focus::Sidebar => {
            let last: int = if v.rows.len() > 0 {
                v.rows.len() - 1
            } else {
                0
            };
            let target: int = match row {
                Some(r) => {
                    let t: int = if r > 0 {
                        r - 1
                    } else {
                        0
                    };
                    if t < last {
                        t
                    } else {
                        last
                    }
                },
                None => if default_bottom {
                    last
                } else {
                    0
                },
            };
            selected_at(v, target as usize)
        },
        Focus::Diff => {
            let m = max_scroll(v);
            AppView {
                diff_scroll: match row {
                    Some(r) => {
                        let t = (if r > 0 {
                            r - 1
                        } else {
                            0
                        }) as u16;
                        if t < m {
                            t
                        } else {
                            m
                        }
                    },
                    None => if default_bottom {
                        m
                    } else {
                        0
                    },
                },
                ..v
            }
        },
    }
}

impl App {
    /// How far the diff can scroll.
    pub fn max_diff_scroll(&self) -> (m: u16)
        ensures
            m == max_scroll(self@),
    {
        let g = regions(self.area);
        proof {
            law_pane_heights(self.area, g);
        }
        let height = g.diff_inner.height as usize;
        let n = self.diff_rows.len();
        (if n > height {
            n - height
        } else {
            0
        }) as u16
    }

    /// Scrolls the sidebar so that the selected row shows.
    pub fn ensure_visible(&mut self)
        requires
            old(self).wf(),
        ensures
            final(self).wf(),
            final(self)@ == made_visible(old(self)@),
    {
        let g = regions(self.area);
        proof {
            law_pane_heights(self.area, g);
        }
        let height = g.sidebar_inner.height as usize;
        if height == 0 || self.rows.len() == 0 {
            return;
        }
        if self.selected < self.sidebar_offset {
            self.sidebar_offset = self.selected;
        } else if self.selected >= self.sidebar_offset + height {
            self.sidebar_offset = self.selected + 1 - height;
        }
        let max_offset = if self.rows.len() > height {
            self.rows.len() - height
        } else {
            0
        };
        if self.sidebar_offset > max_offset {
            self.sidebar_offset = max_offset;
        }
    }

    /// Selects row `index` (the last row at most), reloads the diff when the
    /// selection moves, and scrolls the sidebar to show it.
    pub fn set_selected(&mut self, index: usize)
        requires
            old(self).wf(),
        ensures
            final(self).wf(),
            final(self)@ == selected_at(old(self)@, index),
    {
        if self.rows.len() == 0 {
            return;
        }
        let clamped = if index < self.rows.len() - 1 {
            index
        } else {
            self.rows.len() - 1
        };
        if clamped != self.selected {
            self.selected = clamped;
            self.reload_diff();
        }
        self.ensure_visible();
    }

    /// Moves the selection by `delta` rows, within the rows.
    pub fn move_selection(&mut self, delta: i32)
        requires
            old(self).wf(),
        ensures
            final(self).wf(),
            final(self)@ == moved_by(old(self)@, delta),
    {
        if self.rows.len() == 0 {
            return;
        }
        let last = self.rows.len() as i64 - 1;
        let t = self.selected as i64 + delta as i64;
        let target = if t < 0 {
            0
        } else if t > last {
            last
        } else {
            t
        };
        self.set_selected(target as usize);
    }

    /// Scrolls the diff by `lines`, within its rows.
    pub fn scroll_diff(&mut self, lines: i32)
        ensures
            final(self)@ == scrolled_by(old(self)@, lines),
    {
        let max = self.max_diff_scroll() as i64;
        let t = self.diff_scroll as i64 + lines as i64;
        self.diff_scroll = (if t < 0 {
            0
        } else if t > max {
            max
        } else {
            t
        }) as u16;
    }

    /// Lines that one notch of the mouse wheel scrolls the diff by.
    pub fn wheel_step(&self) -> (n: i32)
        ensures
            n == SCROLL_STEP,
    {
        SCROLL_STEP
    }

    /// Takes the new screen size: the diff scroll is kept within its rows
    /// and the selected row kept in view.
    pub fn set_area(&mut self, area: Rect)
        requires
            old(self).wf(),
        ensures
            final(self).wf(),
            final(self)@ == made_visible(
                {
                    let v1 = AppView { area, ..old(self)@ };
                    if v1.diff_scroll > max_scroll(v1) {
                        AppView { diff_scroll: max_scroll(v1), ..v1 }
                    } else {
                        v1
                    }
                },
            ),
    {
        self.area = area;
        let max = self.max_diff_scroll();
        if self.diff_scroll > max {
            self.diff_scroll = max;
        }
        self.ensure_visible();
    }

    /// Adds a digit to the count prefix (a leading zero starts none).
    pub fn push_digit(&mut self, digit: u32)
        ensures
            final(self)@ == (AppView { count: count_after(old(self)@.count, digit), ..old(self)@ }),
    {
        if digit == 0 && self.count.is_none() {
            return;
        }
        let c = match self.count {
            Some(c) => c,
            None => 0,
        };
        let m: u32 = if c > u32::MAX / 10 {
            u32::MAX
        } else {
            c * 10
        };
        let next = m.saturating_add(digit);
        self.count = Some(
            if next < MAX_COUNT {
                next
            } else {
                MAX_COUNT
            },
        );
    }

    /// Takes the count prefix: 1 when none was typed.
    pub fn take_count(&mut self) -> (n: i32)
        ensures
            n == (match old(self)@.count {
                Some(c) => if c > 1 {
                    c
                } else {
                    1
                },
                None => 1,
            }) as i32,
            final(self)@ == (AppView { count: None, ..old(self)@ }),
    {
        let c = match self.count.take() {
            Some(c) => c,
            None => 1,
        };
        (if c > 1 {
            c
        } else {
            1
        }) as i32
    }

    /// Forgets the count prefix and a pending `g`.
    pub fn clear_pending(&mut self)
        ensures
            final(self)@ == (AppView { count: None, awaiting_g: false, ..old(self)@ }),
    {
        self.count = None;
        self.awaiting_g = false;
    }

    /// What the footer shows of a command being typed: the count, or `g`.
    pub fn pending_label(&self) -> (l: Option<String>)
        ensures
            match self@.count {
                Some(c) => l matches Some(s) && s@ == decimal(c as nat),
                None => if self@.awaiting_g {
                    l matches Some(s) && s@ == seq!['g']
                } else {
                    l is None
                },
            },
    {
        if let Some(count) = self.count {
            Some(decimal_string(count as u64))
        } else if self.awaiting_g {
            let mut s = String::new();
            crate::text::push_char(&mut s, 'g');
            Some(s)
        } else {
            None
        }
    }

    /// `g`: the first press waits for a second; the second jumps to the line
    /// of the count, or to the top.
    pub fn press_g(&mut self)
        requires
            old(self).wf(),
        ensures
            final(self).wf(),
            final(self)@ == if old(self)@.awaiting_g {
                gone_to(
                    AppView { awaiting_g: false, count: None, ..old(self)@ },
                    old(self)@.count,
                    false,
                )
            } else {
                AppView { awaiting_g: true, ..old(self)@ }
            },
    {
        if self.awaiting_g {
            self.awaiting_g = false;
            let row = self.count.take();
            self.go_to_line(row, false);
        } else {
            self.awaiting_g = true;
        }
    }

    /// `G`: jumps to the line of the count, or to the bottom.
    pub fn go_bottom(&mut self)
        requires
            old(self).wf(),
        ensures
            final(self).wf(),
            final(self)@ == gone_to(AppView { count: None, ..old(self)@ }, old(self)@.count, true),
    {
        let row = self.count.take();
        self.go_to_line(row, true);
    }

    fn go_to_line(&mut self, row: Option<u32>, default_bottom: bool)
        requires
            old(self).wf(),
        ensures
            final(self).wf(),
            final(self)@ == gone_to(old(self)@, row, default_bottom),
    {
        match self.focus {
            Focus::Sidebar => {
                let last = if self.rows.len() > 0 {
                    self.rows.len() - 1
                } else {
                    0
                };
                let target = match row {
                    Some(r) => {
                        let t = (r as usize).saturating_sub(1);
                        if t < last {
                            t
                        } else {
                            last
                        }
                    },
                    None => if default_bottom {
                        last
                    } else {
                        0
                    },
                };
                self.set_selected(target);
            },
            Focus::Diff => {
                let max = self.max_diff_scroll();
                self.diff_scroll = match row {
                    Some(r) => {
                        let t = r.saturating_sub(1) as u16;
                        if t < max {
                            t
                        } else {
                            max
                        }
                    },
                    None => if default_bottom {
                        max
                    } else {
                        0
                    },
                };
            },
        }
    }
}

/// Scrolling keeps the diff within its rows: never above the top, never past
/// the last screenful.
pub proof fn law_scroll_within(v: AppView, lines: i32)
    ensures
        scrolled_by(v, lines).diff_scroll <= max_scroll(v),
{
}

/// The count prefix never passes `MAX_COUNT`.
pub proof fn law_count_bounded(count: Option<u32>, digit: u32)
    requires
        count matches Some(c) ==> c <= MAX_COUNT,
    ensures
        count_after(count, digit) matches Some(c) ==> c <= MAX_COUNT,
{
}

} // verus!
