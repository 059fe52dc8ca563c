//! The spinner that shows while a slow command runs.
use vstd::prelude::*;

verus! {

/// The frame shown after `i` ticks: `|`, `/`, `-`, `\` in turn.
pub open spec fn frame_char(i: nat) -> char {
    let k = i % 4;
    if k == 0 {
        '|'
    } else if k == 1 {
        '/'
    } else if k == 2 {
        '-'
    } else {
        '\\'
    }
}

/// How far the spinner has turned.
pub struct Spinner {
    pub frame: usize,
}

impl Spinner {
    /// A spinner at its first frame.
    pub fn new() -> (s: Spinner)
        ensures
            s.frame == 0,
    {
        Spinner { frame: 0 }
    }

    /// Turns the spinner one frame (the count wraps around).
    pub fn tick(&mut self)
        ensures
            final(self).frame == if old(self).frame == usize::MAX {
                0
            } else {
                old(self).frame + 1
            },
    {
        self.frame = if self.frame == usize::MAX {
            0
        } else {
            self.frame + 1
        };
    }

    /// The character of the present frame.
    pub fn spinner(&self) -> (c: char)
        ensures
            c == frame_char(self.frame as nat),
    {
        let k = self.frame % 4;
        if k == 0 {
            '|'
        } else if k == 1 {
            '/'
        } else if k == 2 {
            '-'
        } else {
            '\\'
        }
    }
}

/// Each tick shows another frame.
pub proof fn law_spinner_advances(frame: usize)
    ensures
        frame_char(
            (if frame == usize::MAX {
                0
            } else {
                frame + 1
            }) as nat,
        ) != frame_char(frame as nat),
{
    assert(usize::MAX % 4 == 3) by {
        assert(usize::MAX == 0xffff_ffff || usize::MAX == 0xffff_ffff_ffff_ffff);
    }
}

} // verus!
