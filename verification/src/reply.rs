//! What is shown of a git command's output: its last line that holds
//! anything, trimmed.
use vstd::prelude::*;

use crate::text::{chars_of, lines, lines_of, slice_chars, string_of, views};

verus! {

/// White space as Unicode defines it (`char::is_whitespace`).
pub open spec fn is_space(c: char) -> bool {
    ||| ('\u{9}' <= c && c <= '\u{d}')
    ||| c == ' '
    ||| c == '\u{85}'
    ||| c == '\u{a0}'
    ||| c == '\u{1680}'
    ||| ('\u{2000}' <= c && c <= '\u{200a}')
    ||| c == '\u{2028}'
    ||| c == '\u{2029}'
    ||| c == '\u{202f}'
    ||| c == '\u{205f}'
    ||| c == '\u{3000}'
}

/// `s` without its leading white space.
pub open spec fn trim_start(s: Seq<char>) -> Seq<char>
    decreases s.len(),
{
    if s.len() > 0 && is_space(s[0]) {
        trim_start(s.drop_first())
    } else {
        s
    }
}

/// `s` without its trailing white space.
pub open spec fn trim_end(s: Seq<char>) -> Seq<char>
    decreases s.len(),
{
    if s.len() > 0 && is_space(s.last()) {
        trim_end(s.drop_last())
    } else {
        s
    }
}

/// `s` without white space at either end (`str::trim`).
pub open spec fn trimmed(s: Seq<char>) -> Seq<char> {
    trim_end(trim_start(s))
}

/// The last of `lines` that holds more than white space, trimmed.
pub open spec fn last_filled(lines: Seq<Seq<char>>) -> Option<Seq<char>>
    decreases lines.len(),
{
    if lines.len() == 0 {
        None
    } else if trimmed(lines.last()).len() > 0 {
        Some(trimmed(lines.last()))
    } else {
        last_filled(lines.drop_last())
    }
}

/// What is shown of a remote command's output `text`: its last line that
/// holds anything, trimmed, or `done` when there is none.
pub open spec fn reply_of(text: Seq<char>) -> Seq<char> {
    match last_filled(lines_of(text)) {
        Some(l) => l,
        None => "done"@,
    }
}

fn space(c: char) -> (b: bool)
    ensures
        b == is_space(c),
{
    ('\u{9}' <= c && c <= '\u{d}') || c == ' ' || c == '\u{85}' || c == '\u{a0}' || c == '\u{1680}'
        || ('\u{2000}' <= c && c <= '\u{200a}') || c == '\u{2028}' || c == '\u{2029}' || c
        == '\u{202f}' || c == '\u{205f}' || c == '\u{3000}'
}

/// The characters `s` without white space at either end.
fn trim_chars(s: &[char]) -> (out: Vec<char>)
    ensures
        out@ == trimmed(s@),
{
    let mut i: usize = 0;
    assert(s@.skip(0) =~= s@);
    while i < s.len() && space(s[i])
        invariant
            i <= s.len(),
            trim_start(s@) == trim_start(s@.skip(i as int)),
        decreases s.len() - i,
    {
        assert(s@.skip(i as int).drop_first() =~= s@.skip(i + 1));
        i += 1;
    }
    assert(trim_start(s@.skip(i as int)) == s@.skip(i as int));
    let mut j: usize = s.len();
    while j > i && space(s[j - 1])
        invariant
            i <= j <= s.len(),
            trim_start(s@) == s@.skip(i as int),
            trim_end(s@.skip(i as int)) == trim_end(s@.subrange(i as int, j as int)),
        decreases j,
    {
        assert(s@.subrange(i as int, j as int).drop_last() =~= s@.subrange(i as int, j - 1));
        j -= 1;
    }
    assert(s@.skip(i as int) =~= s@.subrange(i as int, s.len() as int));
    slice_chars(s, i, j)
}

/// `text` without white space at either end.
pub fn trim(text: &str) -> (out: String)
    ensures
        out@ == trimmed(text@),
{
    let chars = chars_of(text);
    let t = trim_chars(chars.as_slice());
    string_of(t.as_slice())
}

/// What is shown of a remote command's output: its last line that holds
/// anything, trimmed, or `done` when there is none.
pub fn reply_line(text: &str) -> (out: String)
    ensures
        out@ == reply_of(text@),
{
    let chars = chars_of(text);
    let ls = lines(chars.as_slice());
    let ghost lv = views(ls@);
    let mut k: usize = ls.len();
    assert(lv.take(ls.len() as int) =~= lv);
    while k > 0
        invariant
            lv == views(ls@),
            lv == lines_of(text@),
            k <= ls.len(),
            last_filled(lv) == last_filled(lv.take(k as int)),
        decreases k,
    {
        let ghost pre = lv.take(k as int);
        assert(pre.drop_last() =~= lv.take(k - 1));
        assert(pre.last() == ls@[k - 1]@);
        let t = trim_chars(ls[k - 1].as_slice());
        if t.len() > 0 {
            return string_of(t.as_slice());
        }
        k -= 1;
    }
    assert(lv.take(0) =~= Seq::<Seq<char>>::empty());
    "done".to_owned()
}

/// The reply always says something.
pub proof fn law_reply_not_empty(text: Seq<char>)
    ensures
        reply_of(text).len() > 0,
{
    reveal_strlit("done");
    lemma_last_filled(lines_of(text));
}

proof fn lemma_last_filled(lines: Seq<Seq<char>>)
    ensures
        last_filled(lines) matches Some(l) ==> l.len() > 0,
    decreases lines.len(),
{
    if lines.len() > 0 && trimmed(lines.last()).len() == 0 {
        lemma_last_filled(lines.drop_last());
    }
}

} // verus!
