//! A one-line text field with a cursor, as the commit and branch prompts use.
use vstd::prelude::*;

use crate::text::{chars_of, string_of};

verus! {

#[derive(Clone, Copy, PartialEq, Eq, Debug, Structural)]
pub enum EditOp {
    Insert(char),
    Backspace,
    Left,
    Right,
}

/// The text being edited, and the cursor as a byte offset into its UTF-8.
pub struct Input {
    pub value: String,
    pub cursor: usize,
}

/// Bytes that `c` takes in UTF-8 (`char::len_utf8`).
pub open spec fn utf8_width(c: char) -> nat {
    if (c as u32) < 0x80 {
        1
    } else if (c as u32) < 0x800 {
        2
    } else if (c as u32) < 0x10000 {
        3
    } else {
        4
    }
}

/// Bytes that the characters `s` take in UTF-8.
pub open spec fn byte_len(s: Seq<char>) -> nat
    decreases s.len(),
{
    if s.len() == 0 {
        0
    } else {
        byte_len(s.drop_last()) + utf8_width(s.last())
    }
}

/// The byte offset `cursor` is the boundary after the first `k` characters of `s`.
pub open spec fn at_char(s: Seq<char>, k: int, cursor: int) -> bool {
    0 <= k <= s.len() && byte_len(s.take(k)) == cursor
}

/// The text and cursor after `op`, the cursor being the boundary after the
/// first `k` characters of `v`.
pub open spec fn edit_at(v: Seq<char>, c: int, k: int, op: EditOp) -> (Seq<char>, int) {
    match op {
        EditOp::Insert(ch) => (v.take(k) + seq![ch] + v.skip(k), c + utf8_width(ch)),
        EditOp::Backspace => if k > 0 {
            (v.take(k - 1) + v.skip(k), c - utf8_width(v[k - 1]))
        } else {
            (v, c)
        },
        EditOp::Left => if k > 0 {
            (v, c - utf8_width(v[k - 1]))
        } else {
            (v, c)
        },
        EditOp::Right => if k < v.len() {
            (v, c + utf8_width(v[k]))
        } else {
            (v, c)
        },
    }
}

/// The text and cursor after `op` on the text `v` with the cursor at byte `c`.
pub open spec fn edited(v: Seq<char>, c: int, op: EditOp) -> (Seq<char>, int) {
    edit_at(v, c, choose|k: int| at_char(v, k, c), op)
}

impl Input {
    /// The cursor sits on a character boundary of the text.
    pub open spec fn wf(&self) -> bool {
        exists|k: int| at_char(self.value@, k, self.cursor as int)
    }
}

impl Default for Input {
    fn default() -> (i: Input)
        ensures
            i.value@ == Seq::<char>::empty(),
            i.cursor == 0,
            i.wf(),
    {
        let i = Input { value: String::new(), cursor: 0 };
        assert(at_char(i.value@, 0, 0)) by {
            assert(i.value@.take(0) =~= Seq::<char>::empty());
        }
        i
    }
}

proof fn lemma_byte_len_step(s: Seq<char>, i: int)
    requires
        0 <= i < s.len(),
    ensures
        byte_len(s.take(i + 1)) == byte_len(s.take(i)) + utf8_width(s[i]),
{
    assert(s.take(i + 1).drop_last() =~= s.take(i));
}

proof fn lemma_byte_len_monotone(s: Seq<char>, i: int, j: int)
    requires
        0 <= i < j <= s.len(),
    ensures
        byte_len(s.take(i)) < byte_len(s.take(j)),
    decreases j - i,
{
    lemma_byte_len_step(s, j - 1);
    if i < j - 1 {
        lemma_byte_len_monotone(s, i, j - 1);
    }
}

proof fn lemma_at_char_unique(s: Seq<char>, k1: int, k2: int, cursor: int)
    requires
        at_char(s, k1, cursor),
        at_char(s, k2, cursor),
    ensures
        k1 == k2,
{
    if k1 < k2 {
        lemma_byte_len_monotone(s, k1, k2);
    } else if k2 < k1 {
        lemma_byte_len_monotone(s, k2, k1);
    }
}

fn width(c: char) -> (w: usize)
    ensures
        w == utf8_width(c),
{
    let v = c as u32;
    if v < 0x80 {
        1
    } else if v < 0x800 {
        2
    } else if v < 0x10000 {
        3
    } else {
        4
    }
}

/// The number of characters before the byte offset `cursor`.
fn char_index(chars: &Vec<char>, cursor: usize) -> (k: usize)
    requires
        exists|k: int| at_char(chars@, k, cursor as int),
    ensures
        at_char(chars@, k as int, cursor as int),
{
    let ghost target = choose|k: int| at_char(chars@, k, cursor as int);
    let mut i: usize = 0;
    let mut sum: usize = 0;
    assert(chars@.take(0) =~= Seq::<char>::empty());
    while sum < cursor
        invariant
            at_char(chars@, target, cursor as int),
            target <= chars.len(),
            i <= target,
            sum as int == byte_len(chars@.take(i as int)),
            sum <= cursor,
        decreases cursor - sum,
    {
        proof {
            if i as int == target {
                assert(false);
            }
            assert(i < target);
            lemma_byte_len_step(chars@, i as int);
            if i + 1 < target {
                lemma_byte_len_monotone(chars@, i + 1, target);
            }
        }
        sum = sum + width(chars[i]);
        i += 1;
    }
    proof {
        if (i as int) < target {
            lemma_byte_len_monotone(chars@, i as int, target);
        }
    }
    i
}

impl Input {
    /// Applies an edit at the cursor: insert a character before it, delete the
    /// character before it, or move it one character left or right.
    pub fn apply(&mut self, op: EditOp)
        requires
            old(self).wf(),
            byte_len(old(self).value@) + 4 <= usize::MAX,
        ensures
            final(self).wf(),
            (final(self).value@, final(self).cursor as int) == edited(
                old(self).value@,
                old(self).cursor as int,
                op,
            ),
            forall|k: int|
                at_char(old(self).value@, k, old(self).cursor as int) ==> {
                    let v = old(self).value@;
                    let c = old(self).cursor as int;
                    match op {
                        EditOp::Insert(ch) => {
                            &&& final(self).value@ == v.take(k) + seq![ch] + v.skip(k)
                            &&& final(self).cursor == c + utf8_width(ch)
                        },
                        EditOp::Backspace => if k > 0 {
                            &&& final(self).value@ == v.take(k - 1) + v.skip(k)
                            &&& final(self).cursor == c - utf8_width(v[k - 1])
                        } else {
                            &&& final(self).value@ == v
                            &&& final(self).cursor == c
                        },
                        EditOp::Left => {
                            &&& final(self).value@ == v
                            &&& final(self).cursor == if k > 0 {
                                c - utf8_width(v[k - 1])
                            } else {
                                c
                            }
                        },
                        EditOp::Right => {
                            &&& final(self).value@ == v
                            &&& final(self).cursor == if k < v.len() {
                                c + utf8_width(v[k])
                            } else {
                                c
                            }
                        },
                    }
                },
    {
        let chars = chars_of(self.value.as_str());
        let k = char_index(&chars, self.cursor);
        let ghost v = chars@;
        let ghost c = self.cursor as int;
        proof {
            assert forall|k2: int| at_char(v, k2, c) implies k2 == k by {
                lemma_at_char_unique(v, k2, k as int, c);
            }
            if k < v.len() {
                lemma_byte_len_step(v, k as int);
                lemma_byte_len_prefix(v, k + 1);
            }
            if k > 0 {
                lemma_byte_len_step(v, k - 1);
            }
            lemma_byte_len_prefix(v, k as int);
        }
        let (out, cur) = match op {
            EditOp::Insert(ch) => {
                let out = insert_char(&chars, k, ch);
                let cur = self.cursor + width(ch);
                proof {
                    assert(out@.take(k + 1) =~= v.take(k as int).push(ch));
                    assert(out@.take(k + 1).drop_last() =~= v.take(k as int));
                    assert(at_char(out@, k + 1, cur as int));
                }
                (out, cur)
            },
            EditOp::Backspace => {
                if k > 0 {
                    let out = remove_char(&chars, k - 1);
                    let cur = self.cursor - width(chars[k - 1]);
                    proof {
                        assert(out@.take(k - 1) =~= v.take(k - 1));
                        assert(at_char(out@, k - 1, cur as int));
                    }
                    (out, cur)
                } else {
                    (chars, self.cursor)
                }
            },
            EditOp::Left => {
                if k > 0 {
                    let cur = self.cursor - width(chars[k - 1]);
                    assert(at_char(v, k - 1, cur as int));
                    (chars, cur)
                } else {
                    (chars, self.cursor)
                }
            },
            EditOp::Right => {
                if k < chars.len() {
                    let cur = self.cursor + width(chars[k]);
                    assert(at_char(v, k + 1, cur as int));
                    (chars, cur)
                } else {
                    (chars, self.cursor)
                }
            },
        };
        let ghost kn: int = match op {
            EditOp::Insert(_) => k + 1,
            EditOp::Backspace => if k > 0 {
                k - 1
            } else {
                k as int
            },
            EditOp::Left => if k > 0 {
                k - 1
            } else {
                k as int
            },
            EditOp::Right => if k < v.len() {
                k + 1
            } else {
                k as int
            },
        };
        assert(at_char(out@, kn, cur as int));
        proof {
            let kc = choose|k2: int| at_char(v, k2, c);
            lemma_at_char_unique(v, kc, k as int, c);
        }
        self.value = string_of(out.as_slice());
        self.cursor = cur;
        assert(at_char(self.value@, kn, self.cursor as int));
    }

    /// The column of the cursor: the number of characters before it.
    pub fn cursor_col(&self) -> (col: u16)
        requires
            self.wf(),
        ensures
            forall|k: int| at_char(self.value@, k, self.cursor as int) ==> col == k as u16,
    {
        let chars = chars_of(self.value.as_str());
        let k = char_index(&chars, self.cursor);
        proof {
            assert forall|k2: int| at_char(self.value@, k2, self.cursor as int) implies k2 == k by {
                lemma_at_char_unique(self.value@, k2, k as int, self.cursor as int);
            }
        }
        k as u16
    }
}

fn insert_char(chars: &Vec<char>, k: usize, ch: char) -> (out: Vec<char>)
    requires
        k <= chars.len(),
    ensures
        out@ == chars@.take(k as int) + seq![ch] + chars@.skip(k as int),
{
    let mut out: Vec<char> = Vec::new();
    let mut i: usize = 0;
    while i < k
        invariant
            i <= k <= chars.len(),
            out@ == chars@.take(i as int),
        decreases k - i,
    {
        out.push(chars[i]);
        assert(out@ =~= chars@.take(i + 1));
        i += 1;
    }
    out.push(ch);
    let mut j: usize = k;
    while j < chars.len()
        invariant
            k <= j <= chars.len(),
            out@ == chars@.take(k as int) + seq![ch] + chars@.subrange(k as int, j as int),
        decreases chars.len() - j,
    {
        out.push(chars[j]);
        assert(out@ =~= chars@.take(k as int) + seq![ch] + chars@.subrange(k as int, j + 1));
        j += 1;
    }
    assert(chars@.subrange(k as int, chars.len() as int) =~= chars@.skip(k as int));
    out
}

fn remove_char(chars: &Vec<char>, k: usize) -> (out: Vec<char>)
    requires
        k < chars.len(),
    ensures
        out@ == chars@.take(k as int) + chars@.skip(k + 1),
{
    let mut out: Vec<char> = Vec::new();
    let mut i: usize = 0;
    while i < k
        invariant
            i <= k < chars.len(),
            out@ == chars@.take(i as int),
        decreases k - i,
    {
        out.push(chars[i]);
        assert(out@ =~= chars@.take(i + 1));
        i += 1;
    }
    let mut j: usize = k + 1;
    while j < chars.len()
        invariant
            k < j <= chars.len(),
            out@ == chars@.take(k as int) + chars@.subrange(k + 1, j as int),
        decreases chars.len() - j,
    {
        out.push(chars[j]);
        assert(out@ =~= chars@.take(k as int) + chars@.subrange(k + 1, j + 1));
        j += 1;
    }
    assert(chars@.subrange(k + 1, chars.len() as int) =~= chars@.skip(k + 1));
    out
}

impl Input {
    /// Whether one more character of any width fits the byte range of the
    /// cursor.
    pub fn has_room(&self) -> (b: bool)
        ensures
            b == (byte_len(self.value@) + 4 <= usize::MAX),
    {
        let chars = chars_of(self.value.as_str());
        let mut total: usize = 0;
        let mut i: usize = 0;
        assert(chars@.take(0) =~= Seq::<char>::empty());
        while i < chars.len()
            invariant
                i <= chars.len(),
                total == byte_len(chars@.take(i as int)),
                total <= usize::MAX - 4,
                chars@ == self.value@,
            decreases chars.len() - i,
        {
            let w = width(chars[i]);
            proof {
                lemma_byte_len_step(chars@, i as int);
            }
            if total > usize::MAX - 4 - w {
                proof {
                    lemma_byte_len_prefix(chars@, i + 1);
                    assert(byte_len(chars@.take(i + 1)) == total + w);
                    assert(chars@ == self.value@);
                }
                return false;
            }
            total = total + w;
            i += 1;
        }
        assert(chars@.take(i as int) =~= chars@);
        assert(chars@ == self.value@);
        true
    }
}

proof fn lemma_byte_len_prefix(s: Seq<char>, k: int)
    requires
        0 <= k <= s.len(),
    ensures
        byte_len(s.take(k)) <= byte_len(s),
{
    if k < s.len() {
        lemma_byte_len_monotone(s, k, s.len() as int);
    }
    assert(s.take(s.len() as int) =~= s);
}

/// Typing a character and deleting it again leaves the text and the cursor as
/// they were.
pub proof fn law_insert_then_backspace(v: Seq<char>, c: int, ch: char)
    requires
        exists|k: int| at_char(v, k, c),
    ensures
        ({
            let (v1, c1) = edited(v, c, EditOp::Insert(ch));
            edited(v1, c1, EditOp::Backspace) == (v, c)
        }),
{
    let k = choose|k: int| at_char(v, k, c);
    let v1 = v.take(k) + seq![ch] + v.skip(k);
    let c1 = c + utf8_width(ch);
    assert(edited(v, c, EditOp::Insert(ch)) == (v1, c1));
    assert(v1.take(k + 1) =~= v.take(k).push(ch));
    assert(v1.take(k + 1).drop_last() =~= v.take(k));
    assert(at_char(v1, k + 1, c1));
    let k1 = choose|j: int| at_char(v1, j, c1);
    lemma_at_char_unique(v1, k1, k + 1, c1);
    assert(v1.take(k) + v1.skip(k + 1) =~= v);
}

/// Moving the cursor left and then right, away from the start of the text,
/// brings it back.
pub proof fn law_left_then_right(v: Seq<char>, c: int, k: int)
    requires
        at_char(v, k, c),
        k > 0,
    ensures
        ({
            let (v1, c1) = edited(v, c, EditOp::Left);
            edited(v1, c1, EditOp::Right) == (v, c)
        }),
{
    let k0 = choose|j: int| at_char(v, j, c);
    lemma_at_char_unique(v, k0, k, c);
    lemma_byte_len_step(v, k - 1);
    let c1 = c - utf8_width(v[k - 1]);
    assert(at_char(v, k - 1, c1));
    let k1 = choose|j: int| at_char(v, j, c1);
    lemma_at_char_unique(v, k1, k - 1, c1);
}

} // verus!
