//! Side-by-side rendering model of a unified diff: every line of `git diff`
//! output becomes a row with an old (left) and a new (right) cell.
use vstd::prelude::*;

use crate::text::{
    chars_of, decimal, find, find_char, find_char_from, find_from, has_prefix, occurs_at, lines, lines_of,
    parse_u32, parse_u32_spec, slice_chars, starts_with, string_of, strip_cr, strip_prefix, views,
};

verus! {

/// Columns a tab advances to (multiples of this width).
pub const TAB: usize = 4;

#[derive(Clone, Copy, PartialEq, Eq, Debug, Structural)]
pub enum Kind {
    Context,
    Del,
    Add,
    Empty,
    Hunk,
    File,
}

#[derive(Clone)]
pub struct Cell {
    pub kind: Kind,
    pub num: Option<u32>,
    pub text: String,
}

/// What a cell shows: its kind, its line number and its text.
pub struct CellView {
    pub kind: Kind,
    pub num: Option<u32>,
    pub text: Seq<char>,
}

impl View for Cell {
    type V = CellView;

    open spec fn view(&self) -> CellView {
        CellView { kind: self.kind, num: self.num, text: self.text@ }
    }
}

#[derive(Clone)]
pub struct DiffRow {
    pub left: Cell,
    pub right: Cell,
}

pub struct RowView {
    pub left: CellView,
    pub right: CellView,
}

impl View for DiffRow {
    type V = RowView;

    open spec fn view(&self) -> RowView {
        RowView { left: self.left@, right: self.right@ }
    }
}

pub open spec fn rows_view(rows: Seq<DiffRow>) -> Seq<RowView> {
    rows.map_values(|r: DiffRow| r@)
}

/// A cell of `kind` numbered `n`.
pub open spec fn numbered(kind: Kind, n: int, text: Seq<char>) -> CellView {
    CellView { kind, num: Some(n as u32), text }
}

/// The filler cell opposite a line that has no counterpart.
pub open spec fn blank() -> CellView {
    CellView { kind: Kind::Empty, num: None, text: Seq::empty() }
}

/// A full-width row: the same unnumbered cell on both sides.
pub open spec fn banner(kind: Kind, text: Seq<char>) -> RowView {
    RowView {
        left: CellView { kind, num: None, text },
        right: CellView { kind, num: None, text },
    }
}

/// `s` with each tab replaced by the spaces up to the next tab stop, `col`
/// being the column at which `s` starts.
pub open spec fn expand_tabs(s: Seq<char>, col: nat) -> Seq<char>
    decreases s.len(),
{
    if s.len() == 0 {
        seq![]
    } else if s[0] == '\t' {
        let n = (TAB - col % (TAB as nat)) as nat;
        Seq::new(n, |_i: int| ' ') + expand_tabs(s.drop_first(), col + n)
    } else {
        seq![s[0]] + expand_tabs(s.drop_first(), col + 1)
    }
}

/// The displayed text of a diff line body: a trailing `\r` dropped, tabs
/// expanded.
pub open spec fn prep_spec(s: Seq<char>) -> Seq<char> {
    expand_tabs(strip_cr(s), 0)
}

/// The path after ` b/` in a `diff --git a/... b/...` line.
pub open spec fn header_path(line: Seq<char>) -> Option<Seq<char>> {
    if has_prefix(line, "diff --git "@) {
        let rest = line.skip("diff --git "@.len() as int);
        match find_from(rest, " b/"@, 0) {
            Some(k) => Some(rest.skip(k + " b/"@.len())),
            None => None,
        }
    } else {
        None
    }
}

/// The part of `s` before the first `c` (all of `s` when there is none).
pub open spec fn before_char(s: Seq<char>, c: char) -> Seq<char> {
    match find_char_from(s, c, 0) {
        Some(k) => s.take(k),
        None => s,
    }
}

/// The old and new start lines of a hunk header `@@ -a,b +c,d @@ ...`.
pub open spec fn hunk_starts(line: Seq<char>) -> Option<(u32, u32)> {
    if !has_prefix(line, "@@ -"@) {
        None
    } else {
        let rest = line.skip("@@ -"@.len() as int);
        match find_from(rest, " @@"@, 0) {
            None => None,
            Some(k) => {
                let ranges = rest.take(k);
                match find_from(ranges, " +"@, 0) {
                    None => None,
                    Some(j) => {
                        let old = ranges.take(j);
                        let new = ranges.skip(j + " +"@.len());
                        match (
                            parse_u32_spec(before_char(old, ',')),
                            parse_u32_spec(before_char(new, ',')),
                        ) {
                            (Some(a), Some(b)) => Some((a, b)),
                            _ => None,
                        }
                    },
                }
            },
        }
    }
}

/// The parser's state between lines: rows so far, the next old and new line
/// numbers, the pending removed and added lines, whether a hunk has begun, and
/// whether every line number so far fits a `u32`.
pub struct ParseState {
    pub rows: Seq<RowView>,
    pub old_no: int,
    pub new_no: int,
    pub del: Seq<Seq<char>>,
    pub add: Seq<Seq<char>>,
    pub seen_hunk: bool,
    pub fits: bool,
}

pub open spec fn initial_state() -> ParseState {
    ParseState {
        rows: seq![],
        old_no: 0,
        new_no: 0,
        del: seq![],
        add: seq![],
        seen_hunk: false,
        fits: true,
    }
}

/// Emits the pending removed and added lines: side by side when there are as
/// many of each, else the removed ones over empty fillers, then the added ones.
pub open spec fn flushed(s: ParseState) -> ParseState {
    let d = s.del.len();
    let a = s.add.len();
    let rows = if d == a {
        s.rows + Seq::new(
            d,
            |i: int|
                RowView {
                    left: numbered(Kind::Del, s.old_no + i, s.del[i]),
                    right: numbered(Kind::Add, s.new_no + i, s.add[i]),
                },
        )
    } else {
        s.rows + Seq::new(
            d,
            |i: int| RowView { left: numbered(Kind::Del, s.old_no + i, s.del[i]), right: blank() },
        ) + Seq::new(
            a,
            |i: int| RowView { left: blank(), right: numbered(Kind::Add, s.new_no + i, s.add[i]) },
        )
    };
    ParseState {
        rows,
        old_no: s.old_no + d,
        new_no: s.new_no + a,
        del: seq![],
        add: seq![],
        seen_hunk: s.seen_hunk,
        fits: s.fits && s.old_no + d <= u32::MAX && s.new_no + a <= u32::MAX,
    }
}

/// Emits the pending lines, then one unchanged line on both sides.
pub open spec fn with_context(s: ParseState, text: Seq<char>) -> ParseState {
    let f = flushed(s);
    ParseState {
        rows: f.rows.push(
            RowView {
                left: numbered(Kind::Context, f.old_no, text),
                right: numbered(Kind::Context, f.new_no, text),
            },
        ),
        old_no: f.old_no + 1,
        new_no: f.new_no + 1,
        fits: f.fits && f.old_no + 1 <= u32::MAX && f.new_no + 1 <= u32::MAX,
        ..f
    }
}

/// The effect of one line of diff output.
pub open spec fn step(s: ParseState, line: Seq<char>, file_headers: bool) -> ParseState {
    if let Some(path) = header_path(line) {
        let f = flushed(s);
        ParseState {
            rows: if file_headers {
                f.rows.push(banner(Kind::File, path))
            } else {
                f.rows
            },
            seen_hunk: false,
            ..f
        }
    } else if let Some((o, n)) = hunk_starts(line) {
        let f = flushed(s);
        ParseState {
            rows: f.rows.push(banner(Kind::Hunk, line)),
            old_no: o as int,
            new_no: n as int,
            seen_hunk: true,
            ..f
        }
    } else if !s.seen_hunk {
        if has_prefix(line, "Binary "@) || has_prefix(line, "GIT binary"@) {
            ParseState { rows: s.rows.push(banner(Kind::Hunk, "Binary file differs"@)), ..s }
        } else {
            s
        }
    } else if line.len() == 0 {
        with_context(s, seq![])
    } else if line[0] == '-' {
        ParseState { del: s.del.push(prep_spec(line.drop_first())), ..s }
    } else if line[0] == '+' {
        ParseState { add: s.add.push(prep_spec(line.drop_first())), ..s }
    } else if line[0] == '\\' {
        s
    } else if line[0] == ' ' {
        with_context(s, prep_spec(line.drop_first()))
    } else {
        with_context(s, seq![])
    }
}

/// The state after the lines `lines`, in order.
pub open spec fn run(s: ParseState, lines: Seq<Seq<char>>, file_headers: bool) -> ParseState
    decreases lines.len(),
{
    if lines.len() == 0 {
        s
    } else {
        run(step(s, lines[0], file_headers), lines.drop_first(), file_headers)
    }
}

/// The state after all of `diff`, with the last pending lines emitted.
pub open spec fn parse_model(diff: Seq<char>, file_headers: bool) -> ParseState {
    flushed(run(initial_state(), lines_of(diff), file_headers))
}

/// The largest line number among the rows (0 when there is none).
pub open spec fn max_num(rows: Seq<RowView>) -> nat
    decreases rows.len(),
{
    if rows.len() == 0 {
        0
    } else {
        let m = max_num(rows.drop_last());
        let l: nat = match rows.last().left.num {
            Some(n) => n as nat,
            None => 0,
        };
        let r: nat = match rows.last().right.num {
            Some(n) => n as nat,
            None => 0,
        };
        let ml: nat = if m >= l {
            m
        } else {
            l
        };
        if ml >= r {
            ml
        } else {
            r
        }
    }
}

/// Width of the line-number gutter: the digits of the largest number, kept
/// between 2 and 5.
pub open spec fn gutter_spec(rows: Seq<RowView>) -> nat {
    let d = decimal(max_num(rows)).len();
    if d < 2 {
        2
    } else if d > 5 {
        5
    } else {
        d
    }
}

proof fn lemma_flushed_fits(s: ParseState)
    ensures
        flushed(s).fits ==> s.fits,
{
}

proof fn lemma_step_fits(s: ParseState, line: Seq<char>, fh: bool)
    ensures
        step(s, line, fh).fits ==> s.fits,
{
}

proof fn lemma_run_fits(s: ParseState, lines: Seq<Seq<char>>, fh: bool)
    ensures
        run(s, lines, fh).fits ==> s.fits,
    decreases lines.len(),
{
    if lines.len() > 0 {
        lemma_run_fits(step(s, lines[0], fh), lines.drop_first(), fh);
        lemma_step_fits(s, lines[0], fh);
    }
}

impl Cell {
    /// A numbered cell.
    fn line(kind: Kind, num: u32, text: &Vec<char>) -> (c: Cell)
        ensures
            c@ == numbered(kind, num as int, text@),
    {
        Cell { kind, num: Some(num), text: string_of(text.as_slice()) }
    }

    /// The filler cell across from a line that has no counterpart.
    fn empty() -> (c: Cell)
        ensures
            c@ == blank(),
    {
        Cell { kind: Kind::Empty, num: None, text: String::new() }
    }
}

impl DiffRow {
    /// A full-width row: the same unnumbered text on both sides.
    fn banner(kind: Kind, text: &[char]) -> (r: DiffRow)
        ensures
            r@ == banner(kind, text@),
    {
        DiffRow {
            left: Cell { kind, num: None, text: string_of(text) },
            right: Cell { kind, num: None, text: string_of(text) },
        }
    }
}

struct Parser {
    rows: Vec<DiffRow>,
    old_no: u32,
    new_no: u32,
    del: Vec<Vec<char>>,
    add: Vec<Vec<char>>,
    seen_hunk: bool,
}

impl Parser {
    spec fn model(&self) -> ParseState {
        ParseState {
            rows: rows_view(self.rows@),
            old_no: self.old_no as int,
            new_no: self.new_no as int,
            del: views(self.del@),
            add: views(self.add@),
            seen_hunk: self.seen_hunk,
            fits: true,
        }
    }
}

fn push_row(rows: &mut Vec<DiffRow>, row: DiffRow)
    ensures
        rows_view(final(rows)@) == rows_view(old(rows)@).push(row@),
{
    rows.push(row);
    assert(rows_view(rows@) =~= rows_view(old(rows)@).push(row@));
}

fn flush(p: &mut Parser)
    requires
        flushed(old(p).model()).fits,
    ensures
        final(p).model() == flushed(old(p).model()),
{
    let ghost base = p.model();
    let d = p.del.len();
    let a = p.add.len();
    if d == a {
        let mut i: usize = 0;
        while i < d
            invariant
                d == a,
                d == p.del.len(),
                a == p.add.len(),
                views(p.del@) == base.del,
                views(p.add@) == base.add,
                base.del.len() == d,
                base.add.len() == a,
                base.old_no + d <= u32::MAX,
                base.new_no + a <= u32::MAX,
                i <= d,
                p.old_no == base.old_no + i,
                p.new_no == base.new_no + i,
                p.seen_hunk == base.seen_hunk,
                rows_view(p.rows@) == base.rows + Seq::new(
                    i as nat,
                    |k: int|
                        RowView {
                            left: numbered(Kind::Del, base.old_no + k, base.del[k]),
                            right: numbered(Kind::Add, base.new_no + k, base.add[k]),
                        },
                ),
            decreases d - i,
        {
            assert(p.del@[i as int]@ == base.del[i as int]);
            assert(p.add@[i as int]@ == base.add[i as int]);
            let left = Cell::line(Kind::Del, p.old_no, &p.del[i]);
            let right = Cell::line(Kind::Add, p.new_no, &p.add[i]);
            let ghost before = rows_view(p.rows@);
            push_row(&mut p.rows, DiffRow { left, right });
            p.old_no = p.old_no + 1;
            p.new_no = p.new_no + 1;
            i += 1;
            assert(rows_view(p.rows@) =~= base.rows + Seq::new(
                i as nat,
                |k: int|
                    RowView {
                        left: numbered(Kind::Del, base.old_no + k, base.del[k]),
                        right: numbered(Kind::Add, base.new_no + k, base.add[k]),
                    },
            ));
        }
    } else {
        let mut i: usize = 0;
        while i < d
            invariant
                d != a,
                d == p.del.len(),
                a == p.add.len(),
                views(p.del@) == base.del,
                views(p.add@) == base.add,
                base.del.len() == d,
                base.add.len() == a,
                base.old_no + d <= u32::MAX,
                i <= d,
                p.old_no == base.old_no + i,
                p.new_no == base.new_no,
                p.seen_hunk == base.seen_hunk,
                rows_view(p.rows@) == base.rows + Seq::new(
                    i as nat,
                    |k: int|
                        RowView {
                            left: numbered(Kind::Del, base.old_no + k, base.del[k]),
                            right: blank(),
                        },
                ),
            decreases d - i,
        {
            assert(p.del@[i as int]@ == base.del[i as int]);
            let left = Cell::line(Kind::Del, p.old_no, &p.del[i]);
            let right = Cell::empty();
            push_row(&mut p.rows, DiffRow { left, right });
            p.old_no = p.old_no + 1;
            i += 1;
            assert(rows_view(p.rows@) =~= base.rows + Seq::new(
                i as nat,
                |k: int|
                    RowView {
                        left: numbered(Kind::Del, base.old_no + k, base.del[k]),
                        right: blank(),
                    },
            ));
        }
        let ghost mid = rows_view(p.rows@);
        let mut j: usize = 0;
        while j < a
            invariant
                a == p.add.len(),
                views(p.add@) == base.add,
                base.add.len() == a,
                base.new_no + a <= u32::MAX,
                j <= a,
                p.old_no == base.old_no + d,
                p.new_no == base.new_no + j,
                p.seen_hunk == base.seen_hunk,
                views(p.del@) == base.del,
                rows_view(p.rows@) == mid + Seq::new(
                    j as nat,
                    |k: int|
                        RowView {
                            left: blank(),
                            right: numbered(Kind::Add, base.new_no + k, base.add[k]),
                        },
                ),
            decreases a - j,
        {
            assert(p.add@[j as int]@ == base.add[j as int]);
            let left = Cell::empty();
            let right = Cell::line(Kind::Add, p.new_no, &p.add[j]);
            push_row(&mut p.rows, DiffRow { left, right });
            p.new_no = p.new_no + 1;
            j += 1;
            assert(rows_view(p.rows@) =~= mid + Seq::new(
                j as nat,
                |k: int|
                    RowView {
                        left: blank(),
                        right: numbered(Kind::Add, base.new_no + k, base.add[k]),
                    },
            ));
        }
    }
    p.del.clear();
    p.add.clear();
    assert(views(p.del@) =~= Seq::<Seq<char>>::empty());
    assert(views(p.add@) =~= Seq::<Seq<char>>::empty());
    assert(p.model() =~= flushed(base));
}

fn context(p: &mut Parser, text: &Vec<char>)
    requires
        with_context(old(p).model(), text@).fits,
    ensures
        final(p).model() == with_context(old(p).model(), text@),
{
    let ghost base = p.model();
    flush(p);
    let left = Cell::line(Kind::Context, p.old_no, text);
    let right = Cell::line(Kind::Context, p.new_no, text);
    push_row(&mut p.rows, DiffRow { left, right });
    p.old_no = p.old_no + 1;
    p.new_no = p.new_no + 1;
    assert(p.model() =~= with_context(base, text@));
}

/// Tab expansion of a line body.
fn prep(s: &[char]) -> (out: Vec<char>)
    ensures
        out@ == prep_spec(s@),
{
    let end = if s.len() > 0 && s[s.len() - 1] == '\r' {
        s.len() - 1
    } else {
        s.len()
    };
    let body = slice_chars(s, 0, end);
    assert(body@ =~= strip_cr(s@));
    let mut out: Vec<char> = Vec::new();
    let mut col4: usize = 0;
    let ghost mut col: nat = 0;
    let mut i: usize = 0;
    assert(body@.skip(0) =~= body@);
    assert(out@ + expand_tabs(body@.skip(0), col) =~= expand_tabs(body@, 0));
    while i < body.len()
        invariant
            i <= body.len(),
            col4 < TAB,
            col4 as nat == col % (TAB as nat),
            out@ + expand_tabs(body@.skip(i as int), col) == expand_tabs(body@, 0),
        decreases body.len() - i,
    {
        let c = body[i];
        let ghost rest = body@.skip(i as int);
        assert(rest[0] == c);
        assert(rest.drop_first() =~= body@.skip(i + 1));
        if c == '\t' {
            let n = TAB - col4;
            let ghost before = out@;
            let mut k: usize = 0;
            while k < n
                invariant
                    k <= n,
                    out@ == before + Seq::new(k as nat, |_j: int| ' '),
                decreases n - k,
            {
                out.push(' ');
                k += 1;
                assert(out@ =~= before + Seq::new(k as nat, |_j: int| ' '));
            }
            proof {
                assert(out@ + expand_tabs(body@.skip(i + 1), col + n as nat) =~= before
                    + expand_tabs(rest, col));
                col = col + n as nat;
            }
            col4 = 0;
        } else {
            let ghost before = out@;
            out.push(c);
            proof {
                assert(out@ + expand_tabs(body@.skip(i + 1), col + 1) =~= before + expand_tabs(
                    rest,
                    col,
                ));
                col = col + 1;
            }
            col4 = if col4 + 1 == TAB {
                0
            } else {
                col4 + 1
            };
        }
        i += 1;
    }
    assert(body@.skip(i as int) =~= Seq::<char>::empty());
    assert(out@ =~= out@ + expand_tabs(body@.skip(i as int), col));
    out
}

/// The file path that a `diff --git` line names.
fn file_header(line: &[char]) -> (out: Option<Vec<char>>)
    ensures
        out matches Some(p) ==> header_path(line@) == Some(p@),
        out is None ==> header_path(line@) is None,
{
    match strip_prefix(line, "diff --git ") {
        None => None,
        Some(rest) => {
            let pat = chars_of(" b/");
            match find(rest.as_slice(), pat.as_slice(), 0) {
                None => None,
                Some(k) => {
                    proof {
                        lemma_find_bounds(rest@, pat@, 0);
                    }
                    assert(k + pat@.len() <= rest@.len());
                    assert(pat.len() == pat@.len() && rest.len() == rest@.len());
                    let from: usize = k + pat.len();
                    let r = slice_chars(rest.as_slice(), from, rest.len());
                    assert(r@ =~= rest@.skip(k + " b/"@.len()));
                    Some(r)
                },
            }
        },
    }
}

proof fn lemma_find_bounds(s: Seq<char>, p: Seq<char>, i: int)
    ensures
        find_from(s, p, i) matches Some(k) ==> i <= k && k + p.len() <= s.len(),
    decreases s.len() + 1 - i,
{
    if i < 0 || i + p.len() > s.len() {
    } else if occurs_at(s, p, i) {
    } else {
        lemma_find_bounds(s, p, i + 1);
    }
}

fn first_field(s: &[char], c: char) -> (out: Vec<char>)
    ensures
        out@ == before_char(s@, c),
{
    proof {
        crate::text::lemma_find_char_bounds(s@, c, 0);
    }
    match find_char(s, c, 0) {
        Some(k) => slice_chars(s, 0, k),
        None => slice_chars(s, 0, s.len()),
    }
}

/// The start lines that a hunk header announces.
fn parse_hunk_header(line: &[char]) -> (out: Option<(u32, u32)>)
    ensures
        out == hunk_starts(line@),
{
    let rest = match strip_prefix(line, "@@ -") {
        None => {
            return None;
        },
        Some(r) => r,
    };
    let close = chars_of(" @@");
    let k = match find(rest.as_slice(), close.as_slice(), 0) {
        None => {
            return None;
        },
        Some(k) => k,
    };
    proof {
        lemma_find_bounds(rest@, close@, 0);
    }
    let ranges = slice_chars(rest.as_slice(), 0, k);
    assert(ranges@ =~= rest@.take(k as int));
    let plus = chars_of(" +");
    let j = match find(ranges.as_slice(), plus.as_slice(), 0) {
        None => {
            return None;
        },
        Some(j) => j,
    };
    proof {
        lemma_find_bounds(ranges@, plus@, 0);
    }
    let old = slice_chars(ranges.as_slice(), 0, j);
    let new = slice_chars(ranges.as_slice(), j + plus.len(), ranges.len());
    assert(old@ =~= ranges@.take(j as int));
    assert(new@ =~= ranges@.skip(j + " +"@.len()));
    let a = parse_u32(first_field(old.as_slice(), ',').as_slice());
    let b = parse_u32(first_field(new.as_slice(), ',').as_slice());
    match (a, b) {
        (Some(a), Some(b)) => Some((a, b)),
        _ => None,
    }
}

/// Applies one line of diff output.
fn feed(p: &mut Parser, line: &Vec<char>, file_headers: bool)
    requires
        step(old(p).model(), line@, file_headers).fits,
    ensures
        final(p).model() == step(old(p).model(), line@, file_headers),
{
    let ghost base = p.model();
    if let Some(path) = file_header(line.as_slice()) {
        flush(p);
        p.seen_hunk = false;
        if file_headers {
            push_row(&mut p.rows, DiffRow::banner(Kind::File, path.as_slice()));
        }
        assert(p.model() =~= step(base, line@, file_headers));
        return;
    }
    if let Some((o, n)) = parse_hunk_header(line.as_slice()) {
        flush(p);
        p.seen_hunk = true;
        p.old_no = o;
        p.new_no = n;
        push_row(&mut p.rows, DiffRow::banner(Kind::Hunk, line.as_slice()));
        assert(p.model() =~= step(base, line@, file_headers));
        return;
    }
    if !p.seen_hunk {
        if starts_with(line.as_slice(), "Binary ") || starts_with(line.as_slice(), "GIT binary") {
            let text = chars_of("Binary file differs");
            push_row(&mut p.rows, DiffRow::banner(Kind::Hunk, text.as_slice()));
        }
        assert(p.model() =~= step(base, line@, file_headers));
        return;
    }
    if line.len() == 0 {
        let empty: Vec<char> = Vec::new();
        assert(empty@ =~= Seq::<char>::empty());
        context(p, &empty);
        return;
    }
    let first = line[0];
    let body = slice_chars(line.as_slice(), 1, line.len());
    assert(body@ =~= line@.drop_first());
    if first == '-' {
        let t = prep(body.as_slice());
        let ghost before = views(p.del@);
        p.del.push(t);
        assert(views(p.del@) =~= before.push(t@));
        assert(p.model() =~= step(base, line@, file_headers));
    } else if first == '+' {
        let t = prep(body.as_slice());
        let ghost before = views(p.add@);
        p.add.push(t);
        assert(views(p.add@) =~= before.push(t@));
        assert(p.model() =~= step(base, line@, file_headers));
    } else if first == '\\' {
    } else if first == ' ' {
        let t = prep(body.as_slice());
        context(p, &t);
    } else {
        let empty: Vec<char> = Vec::new();
        assert(empty@ =~= Seq::<char>::empty());
        context(p, &empty);
    }
}

fn flush_fits(p: &Parser) -> (b: bool)
    ensures
        b == flushed(p.model()).fits,
{
    (p.del.len() as u64) <= 0xffff_ffff - (p.old_no as u64) && (p.add.len() as u64) <= 0xffff_ffff
        - (p.new_no as u64)
}

fn context_fits(p: &Parser) -> (b: bool)
    ensures
        b == with_context(p.model(), seq![]).fits,
{
    (p.del.len() as u64) < 0xffff_ffff - (p.old_no as u64) && (p.add.len() as u64) < 0xffff_ffff
        - (p.new_no as u64)
}

/// Whether one more line keeps every line number within `u32`.
fn step_fits(p: &Parser, line: &Vec<char>, file_headers: bool) -> (b: bool)
    ensures
        b == step(p.model(), line@, file_headers).fits,
{
    if file_header(line.as_slice()).is_some() || parse_hunk_header(line.as_slice()).is_some() {
        flush_fits(p)
    } else if !p.seen_hunk {
        true
    } else if line.len() == 0 || (line[0] != '-' && line[0] != '+' && line[0] != '\\') {
        context_fits(p)
    } else {
        true
    }
}

/// The side-by-side rows of `diff`, or `None` when a line number would pass
/// `u32::MAX`.
pub fn parse_checked(diff: &str, file_headers: bool) -> (rows: Option<Vec<DiffRow>>)
    ensures
        rows is Some <==> parse_model(diff@, file_headers).fits,
        rows matches Some(r) ==> rows_view(r@) == parse_model(diff@, file_headers).rows,
{
    let chars = chars_of(diff);
    let lines = lines(chars.as_slice());
    let ghost all = views(lines@);
    let ghost total = run(initial_state(), all, file_headers);
    let mut p = Parser {
        rows: Vec::new(),
        old_no: 0,
        new_no: 0,
        del: Vec::new(),
        add: Vec::new(),
        seen_hunk: false,
    };
    assert(rows_view(p.rows@) =~= Seq::<RowView>::empty());
    assert(views(p.del@) =~= Seq::<Seq<char>>::empty());
    assert(views(p.add@) =~= Seq::<Seq<char>>::empty());
    assert(p.model() =~= initial_state());
    assert(all.skip(0) =~= all);
    let mut i: usize = 0;
    while i < lines.len()
        invariant
            all == views(lines@),
            all.len() == lines.len(),
            i <= lines.len(),
            total == run(initial_state(), all, file_headers),
            flushed(total) == parse_model(diff@, file_headers),
            run(p.model(), all.skip(i as int), file_headers) == total,
        decreases lines.len() - i,
    {
        let ghost rest = all.skip(i as int);
        assert(rest[0] == lines@[i as int]@);
        assert(rest.drop_first() =~= all.skip(i + 1));
        proof {
            lemma_run_fits(step(p.model(), rest[0], file_headers), rest.drop_first(), file_headers);
            lemma_flushed_fits(total);
        }
        if !step_fits(&p, &lines[i], file_headers) {
            return None;
        }
        feed(&mut p, &lines[i], file_headers);
        i += 1;
    }
    assert(all.skip(i as int) =~= Seq::<Seq<char>>::empty());
    if !flush_fits(&p) {
        return None;
    }
    flush(&mut p);
    Some(p.rows)
}

/// The side-by-side rows of the unified diff `diff`. With `file_headers`, each
/// `diff --git` line also gives a full-width row naming its file.
pub fn parse(diff: &str, file_headers: bool) -> (rows: Vec<DiffRow>)
    requires
        parse_model(diff@, file_headers).fits,
    ensures
        rows_view(rows@) == parse_model(diff@, file_headers).rows,
{
    match parse_checked(diff, file_headers) {
        Some(rows) => rows,
        None => Vec::new(),
    }
}

/// `chunks` joined, each non-empty chunk ended by a line break.
pub open spec fn joined(chunks: Seq<Seq<char>>) -> Seq<char>
    decreases chunks.len(),
{
    if chunks.len() == 0 {
        seq![]
    } else {
        let c = chunks.last();
        joined(chunks.drop_last()) + c + (if c.len() > 0 && c.last() != '\n' {
            seq!['\n']
        } else {
            seq![]
        })
    }
}

pub open spec fn strings_view(v: Seq<String>) -> Seq<Seq<char>> {
    v.map_values(|s: String| s@)
}

/// The diffs of several files as one text.
pub fn join_chunks(chunks: &Vec<String>) -> (out: String)
    ensures
        out@ == joined(strings_view(chunks@)),
{
    let ghost cv = strings_view(chunks@);
    let mut out = String::new();
    let mut i: usize = 0;
    assert(cv.take(0) =~= Seq::<Seq<char>>::empty());
    while i < chunks.len()
        invariant
            cv == strings_view(chunks@),
            i <= chunks.len(),
            out@ == joined(cv.take(i as int)),
        decreases chunks.len() - i,
    {
        assert(cv.take(i + 1).drop_last() =~= cv.take(i as int));
        assert(cv.take(i + 1).last() == chunks@[i as int]@);
        let c = chars_of(chunks[i].as_str());
        let ghost before = out@;
        let mut j: usize = 0;
        while j < c.len()
            invariant
                j <= c.len(),
                out@ == before + c@.take(j as int),
            decreases c.len() - j,
        {
            crate::text::push_char(&mut out, c[j]);
            assert(out@ =~= before + c@.take(j + 1));
            j += 1;
        }
        assert(c@.take(j as int) =~= c@);
        if c.len() > 0 && c[c.len() - 1] != '\n' {
            crate::text::push_char(&mut out, '\n');
        }
        assert(out@ =~= joined(cv.take(i + 1)));
        i += 1;
    }
    assert(cv.take(i as int) =~= cv);
    out
}

fn digit_count(n: u32) -> (d: usize)
    ensures
        d == decimal(n as nat).len(),
        d <= n as nat + 1,
    decreases n,
{
    if n < 10 {
        1
    } else {
        1 + digit_count(n / 10)
    }
}

/// Width of the line-number gutter for `rows`.
pub fn gutter_width(rows: &[DiffRow]) -> (w: usize)
    ensures
        w == gutter_spec(rows_view(rows@)),
{
    let mut m: u32 = 0;
    let mut i: usize = 0;
    while i < rows.len()
        invariant
            i <= rows.len(),
            m as nat == max_num(rows_view(rows@).take(i as int)),
        decreases rows.len() - i,
    {
        let ghost pre = rows_view(rows@).take(i as int);
        assert(rows_view(rows@).take(i + 1).drop_last() =~= pre);
        assert(rows_view(rows@).take(i + 1).last() == rows@[i as int]@);
        if let Some(n) = rows[i].left.num {
            if n > m {
                m = n;
            }
        }
        if let Some(n) = rows[i].right.num {
            if n > m {
                m = n;
            }
        }
        i += 1;
    }
    assert(rows_view(rows@).take(i as int) =~= rows_view(rows@));
    let d = digit_count(m);
    if d < 2 {
        2
    } else if d > 5 {
        5
    } else {
        d
    }
}

/// No row is a file banner, on either side.
pub open spec fn no_file_rows(rows: Seq<RowView>) -> bool {
    forall|i: int|
        0 <= i < rows.len() ==> (#[trigger] rows[i]).left.kind != Kind::File && rows[i].right.kind
            != Kind::File
}

proof fn lemma_flushed_no_file(s: ParseState)
    requires
        no_file_rows(s.rows),
    ensures
        no_file_rows(flushed(s).rows),
{
    let r = flushed(s).rows;
    assert forall|i: int| 0 <= i < r.len() implies (#[trigger] r[i]).left.kind != Kind::File
        && r[i].right.kind != Kind::File by {
        if i < s.rows.len() {
            assert(r[i] == s.rows[i]);
        }
    }
}

proof fn lemma_run_no_file(s: ParseState, lines: Seq<Seq<char>>)
    requires
        no_file_rows(s.rows),
    ensures
        no_file_rows(run(s, lines, false).rows),
    decreases lines.len(),
{
    if lines.len() > 0 {
        let line = lines[0];
        lemma_flushed_no_file(s);
        let t = step(s, line, false);
        assert(no_file_rows(t.rows)) by {
            let f = flushed(s);
            assert forall|i: int| 0 <= i < t.rows.len() implies (#[trigger] t.rows[i]).left.kind
                != Kind::File && t.rows[i].right.kind != Kind::File by {
                if i < s.rows.len() {
                    assert(s.rows.push(t.rows.last()).len() > 0);
                }
                if i < f.rows.len() {
                    assert(f.rows.push(t.rows.last()).len() > 0);
                }
            }
        }
        lemma_run_no_file(t, lines.drop_first());
    }
}

/// Without `file_headers`, no row of the parse is a file banner.
pub proof fn law_no_banners_without_headers(diff: Seq<char>)
    ensures
        no_file_rows(parse_model(diff, false).rows),
{
    lemma_run_no_file(initial_state(), lines_of(diff));
    lemma_flushed_no_file(run(initial_state(), lines_of(diff), false));
}

/// The gutter is 2 to 5 columns wide.
pub proof fn law_gutter_bounds(rows: Seq<RowView>)
    ensures
        2 <= gutter_spec(rows) <= 5,
{
}

/// The rows that are not file banners, in order.
pub open spec fn without_files(rows: Seq<RowView>) -> Seq<RowView>
    decreases rows.len(),
{
    if rows.len() == 0 {
        seq![]
    } else if rows.last().left.kind == Kind::File {
        without_files(rows.drop_last())
    } else {
        without_files(rows.drop_last()).push(rows.last())
    }
}

/// The file banners among the rows, in order.
pub open spec fn file_banners(rows: Seq<RowView>) -> Seq<RowView>
    decreases rows.len(),
{
    if rows.len() == 0 {
        seq![]
    } else if rows.last().left.kind == Kind::File {
        file_banners(rows.drop_last()).push(rows.last())
    } else {
        file_banners(rows.drop_last())
    }
}

/// One file banner for each `diff --git` line among `lines`, in order,
/// naming the path after ` b/`.
pub open spec fn header_banners(lines: Seq<Seq<char>>) -> Seq<RowView>
    decreases lines.len(),
{
    if lines.len() == 0 {
        seq![]
    } else {
        let rest = header_banners(lines.drop_first());
        match header_path(lines[0]) {
            Some(p) => seq![banner(Kind::File, p)] + rest,
            None => rest,
        }
    }
}

/// The rows that emitting the pending lines adds.
pub open spec fn pending_rows(s: ParseState) -> Seq<RowView> {
    let d = s.del.len();
    let a = s.add.len();
    if d == a {
        Seq::new(
            d,
            |i: int|
                RowView {
                    left: numbered(Kind::Del, s.old_no + i, s.del[i]),
                    right: numbered(Kind::Add, s.new_no + i, s.add[i]),
                },
        )
    } else {
        Seq::new(
            d,
            |i: int| RowView { left: numbered(Kind::Del, s.old_no + i, s.del[i]), right: blank() },
        ) + Seq::new(
            a,
            |i: int| RowView { left: blank(), right: numbered(Kind::Add, s.new_no + i, s.add[i]) },
        )
    }
}

/// `f` is the state `t` would be in had no file banner been emitted.
pub open spec fn twin(t: ParseState, f: ParseState) -> bool {
    &&& f.rows == without_files(t.rows)
    &&& f.old_no == t.old_no
    &&& f.new_no == t.new_no
    &&& f.del == t.del
    &&& f.add == t.add
    &&& f.seen_hunk == t.seen_hunk
    &&& f.fits == t.fits
}

proof fn lemma_split_concat(a: Seq<RowView>, b: Seq<RowView>)
    ensures
        without_files(a + b) == without_files(a) + without_files(b),
        file_banners(a + b) == file_banners(a) + file_banners(b),
    decreases b.len(),
{
    if b.len() == 0 {
        assert(a + b =~= a);
        assert(without_files(a) + without_files(b) =~= without_files(a));
        assert(file_banners(a) + file_banners(b) =~= file_banners(a));
    } else {
        lemma_split_concat(a, b.drop_last());
        assert((a + b).drop_last() =~= a + b.drop_last());
        assert((a + b).last() == b.last());
        assert(without_files(a) + without_files(b.drop_last()).push(b.last()) =~= (without_files(a)
            + without_files(b.drop_last())).push(b.last()));
        assert(file_banners(a) + file_banners(b.drop_last()).push(b.last()) =~= (file_banners(a)
            + file_banners(b.drop_last())).push(b.last()));
    }
}

proof fn lemma_plain_rows(x: Seq<RowView>)
    requires
        no_file_rows(x),
    ensures
        without_files(x) == x,
        file_banners(x) == Seq::<RowView>::empty(),
    decreases x.len(),
{
    if x.len() > 0 {
        let p = x.drop_last();
        assert(no_file_rows(p)) by {
            assert forall|i: int| 0 <= i < p.len() implies (#[trigger] p[i]).left.kind != Kind::File
                && p[i].right.kind != Kind::File by {
                assert(p[i] == x[i]);
            }
        }
        lemma_plain_rows(p);
        assert(x[x.len() - 1] == x.last());
        assert(p.push(x.last()) =~= x);
    }
}

/// Appending rows that hold no file banner.
proof fn lemma_add_plain(rows: Seq<RowView>, x: Seq<RowView>)
    requires
        no_file_rows(x),
    ensures
        without_files(rows + x) == without_files(rows) + x,
        file_banners(rows + x) == file_banners(rows),
{
    lemma_split_concat(rows, x);
    lemma_plain_rows(x);
    assert(file_banners(rows) + Seq::<RowView>::empty() =~= file_banners(rows));
}

proof fn lemma_pending_plain(s: ParseState)
    ensures
        flushed(s).rows == s.rows + pending_rows(s),
        no_file_rows(pending_rows(s)),
{
    let d = s.del.len();
    let a = s.add.len();
    if d == a {
        assert(flushed(s).rows =~= s.rows + pending_rows(s));
    } else {
        let x = Seq::new(
            d,
            |i: int| RowView { left: numbered(Kind::Del, s.old_no + i, s.del[i]), right: blank() },
        );
        let y = Seq::new(
            a,
            |i: int| RowView { left: blank(), right: numbered(Kind::Add, s.new_no + i, s.add[i]) },
        );
        assert(flushed(s).rows =~= s.rows + (x + y));
        let p = pending_rows(s);
        assert forall|i: int| 0 <= i < p.len() implies (#[trigger] p[i]).left.kind != Kind::File
            && p[i].right.kind != Kind::File by {
            if i < d {
                assert(p[i] == x[i]);
            } else {
                assert(p[i] == y[i - d]);
            }
        }
    }
}

proof fn lemma_flushed_twin(t: ParseState, f: ParseState)
    requires
        twin(t, f),
    ensures
        twin(flushed(t), flushed(f)),
        file_banners(flushed(t).rows) == file_banners(t.rows),
        pending_rows(t) == pending_rows(f),
{
    lemma_pending_plain(t);
    lemma_pending_plain(f);
    assert(pending_rows(t) =~= pending_rows(f));
    lemma_add_plain(t.rows, pending_rows(t));
}

proof fn lemma_push_plain(rows: Seq<RowView>, r: RowView)
    requires
        r.left.kind != Kind::File,
        r.right.kind != Kind::File,
    ensures
        without_files(rows.push(r)) == without_files(rows).push(r),
        file_banners(rows.push(r)) == file_banners(rows),
{
    assert(rows.push(r).drop_last() =~= rows);
}

proof fn lemma_step_twin(t: ParseState, f: ParseState, line: Seq<char>)
    requires
        twin(t, f),
    ensures
        twin(step(t, line, true), step(f, line, false)),
        file_banners(step(t, line, true).rows) == file_banners(t.rows) + match header_path(line) {
            Some(p) => seq![banner(Kind::File, p)],
            None => Seq::<RowView>::empty(),
        },
{
    lemma_flushed_twin(t, f);
    let ft = flushed(t);
    let ff = flushed(f);
    if let Some(path) = header_path(line) {
        let b = banner(Kind::File, path);
        assert(ft.rows.push(b).drop_last() =~= ft.rows);
        assert(file_banners(ft.rows.push(b)) =~= file_banners(t.rows) + seq![b]);
    } else if let Some((o, n)) = hunk_starts(line) {
        lemma_push_plain(ft.rows, banner(Kind::Hunk, line));
        assert(file_banners(t.rows) + Seq::<RowView>::empty() =~= file_banners(t.rows));
    } else if !t.seen_hunk {
        if has_prefix(line, "Binary "@) || has_prefix(line, "GIT binary"@) {
            lemma_push_plain(t.rows, banner(Kind::Hunk, "Binary file differs"@));
        }
        assert(file_banners(t.rows) + Seq::<RowView>::empty() =~= file_banners(t.rows));
    } else {
        let ctx = |text: Seq<char>|
            RowView {
                left: numbered(Kind::Context, ft.old_no, text),
                right: numbered(Kind::Context, ft.new_no, text),
            };
        lemma_push_plain(ft.rows, ctx(seq![]));
        if line.len() > 0 {
            lemma_push_plain(ft.rows, ctx(prep_spec(line.drop_first())));
        }
        assert(file_banners(t.rows) + Seq::<RowView>::empty() =~= file_banners(t.rows));
    }
}

proof fn lemma_run_twin(t: ParseState, f: ParseState, lines: Seq<Seq<char>>)
    requires
        twin(t, f),
    ensures
        twin(run(t, lines, true), run(f, lines, false)),
        file_banners(run(t, lines, true).rows) == file_banners(t.rows) + header_banners(lines),
    decreases lines.len(),
{
    if lines.len() == 0 {
        assert(file_banners(t.rows) + Seq::<RowView>::empty() =~= file_banners(t.rows));
    } else {
        let t1 = step(t, lines[0], true);
        let f1 = step(f, lines[0], false);
        lemma_step_twin(t, f, lines[0]);
        lemma_run_twin(t1, f1, lines.drop_first());
        match header_path(lines[0]) {
            Some(p) => {
                assert(file_banners(t.rows) + seq![banner(Kind::File, p)] + header_banners(
                    lines.drop_first(),
                ) =~= file_banners(t.rows) + header_banners(lines));
            },
            None => {},
        }
    }
}

/// With file headers, the parse holds one banner for each `diff --git` line,
/// in order, naming the path after ` b/`; without its banners it is the
/// parse without file headers.
pub proof fn law_banners_only_add_rows(diff: Seq<char>)
    ensures
        without_files(parse_model(diff, true).rows) == parse_model(diff, false).rows,
        file_banners(parse_model(diff, true).rows) == header_banners(lines_of(diff)),
        parse_model(diff, true).fits == parse_model(diff, false).fits,
{
    let s0 = initial_state();
    assert(twin(s0, s0));
    lemma_run_twin(s0, s0, lines_of(diff));
    let t = run(s0, lines_of(diff), true);
    let f = run(s0, lines_of(diff), false);
    lemma_flushed_twin(t, f);
    assert(file_banners(s0.rows) + header_banners(lines_of(diff)) =~= header_banners(
        lines_of(diff),
    ));
}

/// The right cells of kind `k`, top to bottom.
pub open spec fn right_cells(rows: Seq<RowView>, k: Kind) -> Seq<CellView>
    decreases rows.len(),
{
    if rows.len() == 0 {
        seq![]
    } else if rows.last().right.kind == k {
        right_cells(rows.drop_last(), k).push(rows.last().right)
    } else {
        right_cells(rows.drop_last(), k)
    }
}

/// The left cells of kind `k`, top to bottom.
pub open spec fn left_cells(rows: Seq<RowView>, k: Kind) -> Seq<CellView>
    decreases rows.len(),
{
    if rows.len() == 0 {
        seq![]
    } else if rows.last().left.kind == k {
        left_cells(rows.drop_last(), k).push(rows.last().left)
    } else {
        left_cells(rows.drop_last(), k)
    }
}

/// The `+` lines of `lines` that lie inside hunks, in order, each with the
/// new-file line number it has: a hunk header starts the count at its new
/// start, and each line of the new file (added or unchanged) takes the next
/// number. `in_hunk` says whether a hunk has begun, `no` is the next number.
pub open spec fn added_in(lines: Seq<Seq<char>>, in_hunk: bool, no: int) -> Seq<CellView>
    decreases lines.len(),
{
    if lines.len() == 0 {
        seq![]
    } else {
        let l = lines[0];
        let rest = lines.drop_first();
        if header_path(l) is Some {
            added_in(rest, false, no)
        } else if let Some((o, n)) = hunk_starts(l) {
            added_in(rest, true, n as int)
        } else if !in_hunk {
            added_in(rest, false, no)
        } else if l.len() > 0 && l[0] == '+' {
            seq![CellView { kind: Kind::Add, num: Some(no as u32), text: prep_spec(l.drop_first()) }]
                + added_in(rest, true, no + 1)
        } else if l.len() > 0 && (l[0] == '-' || l[0] == '\\') {
            added_in(rest, true, no)
        } else {
            added_in(rest, true, no + 1)
        }
    }
}

/// The `-` lines of `lines` that lie inside hunks, in order, each with the
/// old-file line number it has: a hunk header starts the count at its old
/// start, and each line of the old file (removed or unchanged) takes the next
/// number.
pub open spec fn removed_in(lines: Seq<Seq<char>>, in_hunk: bool, no: int) -> Seq<CellView>
    decreases lines.len(),
{
    if lines.len() == 0 {
        seq![]
    } else {
        let l = lines[0];
        let rest = lines.drop_first();
        if header_path(l) is Some {
            removed_in(rest, false, no)
        } else if let Some((o, n)) = hunk_starts(l) {
            removed_in(rest, true, o as int)
        } else if !in_hunk {
            removed_in(rest, false, no)
        } else if l.len() > 0 && l[0] == '-' {
            seq![CellView { kind: Kind::Del, num: Some(no as u32), text: prep_spec(l.drop_first()) }]
                + removed_in(rest, true, no + 1)
        } else if l.len() > 0 && (l[0] == '+' || l[0] == '\\') {
            removed_in(rest, true, no)
        } else {
            removed_in(rest, true, no + 1)
        }
    }
}

proof fn lemma_cells_concat(a: Seq<RowView>, b: Seq<RowView>, k: Kind)
    ensures
        right_cells(a + b, k) == right_cells(a, k) + right_cells(b, k),
        left_cells(a + b, k) == left_cells(a, k) + left_cells(b, k),
    decreases b.len(),
{
    if b.len() == 0 {
        assert(a + b =~= a);
        assert(right_cells(a, k) + right_cells(b, k) =~= right_cells(a, k));
        assert(left_cells(a, k) + left_cells(b, k) =~= left_cells(a, k));
    } else {
        lemma_cells_concat(a, b.drop_last(), k);
        assert((a + b).drop_last() =~= a + b.drop_last());
        assert((a + b).last() == b.last());
        assert(right_cells(a, k) + right_cells(b.drop_last(), k).push(b.last().right) =~= (
        right_cells(a, k) + right_cells(b.drop_last(), k)).push(b.last().right));
        assert(left_cells(a, k) + left_cells(b.drop_last(), k).push(b.last().left) =~= (left_cells(
            a,
            k,
        ) + left_cells(b.drop_last(), k)).push(b.last().left));
    }
}

proof fn lemma_push_cells(rows: Seq<RowView>, r: RowView, k: Kind)
    ensures
        right_cells(rows.push(r), k) == right_cells(rows, k) + (if r.right.kind == k {
            seq![r.right]
        } else {
            seq![]
        }),
        left_cells(rows.push(r), k) == left_cells(rows, k) + (if r.left.kind == k {
            seq![r.left]
        } else {
            seq![]
        }),
{
    assert(rows.push(r).drop_last() =~= rows);
    assert(right_cells(rows, k) + seq![r.right] =~= right_cells(rows, k).push(r.right));
    assert(right_cells(rows, k) + Seq::<CellView>::empty() =~= right_cells(rows, k));
    assert(left_cells(rows, k) + seq![r.left] =~= left_cells(rows, k).push(r.left));
    assert(left_cells(rows, k) + Seq::<CellView>::empty() =~= left_cells(rows, k));
}

proof fn lemma_cells_of_new(n: nat, f: spec_fn(int) -> RowView, k: Kind)
    ensures
        right_cells(Seq::new(n, f), k) == Seq::new(n, |i: int| f(i).right).filter(
            |c: CellView| c.kind == k,
        ),
        left_cells(Seq::new(n, f), k) == Seq::new(n, |i: int| f(i).left).filter(
            |c: CellView| c.kind == k,
        ),
    decreases n,
{
    let rows = Seq::new(n, f);
    let rs = Seq::new(n, |i: int| f(i).right);
    let ls = Seq::new(n, |i: int| f(i).left);
    if n == 0 {
        assert(rs.filter(|c: CellView| c.kind == k) =~= Seq::<CellView>::empty());
        assert(ls.filter(|c: CellView| c.kind == k) =~= Seq::<CellView>::empty());
    } else {
        let m = (n - 1) as nat;
        lemma_cells_of_new(m, f, k);
        assert(rows.drop_last() =~= Seq::new(m, f));
        assert(rs.drop_last() =~= Seq::new(m, |i: int| f(i).right));
        assert(ls.drop_last() =~= Seq::new(m, |i: int| f(i).left));
        reveal(Seq::filter);
        assert(rs.filter(|c: CellView| c.kind == k) == {
            let p = rs.drop_last().filter(|c: CellView| c.kind == k);
            if rs.last().kind == k {
                p.push(rs.last())
            } else {
                p
            }
        });
        assert(ls.filter(|c: CellView| c.kind == k) == {
            let p = ls.drop_last().filter(|c: CellView| c.kind == k);
            if ls.last().kind == k {
                p.push(ls.last())
            } else {
                p
            }
        });
    }
}


/// The added lines waiting in `s`, as the cells they become.
pub open spec fn pending_adds(s: ParseState) -> Seq<CellView> {
    Seq::new(
        s.add.len(),
        |i: int| CellView { kind: Kind::Add, num: Some((s.new_no + i) as u32), text: s.add[i] },
    )
}

/// The removed lines waiting in `s`, as the cells they become.
pub open spec fn pending_dels(s: ParseState) -> Seq<CellView> {
    Seq::new(
        s.del.len(),
        |i: int| CellView { kind: Kind::Del, num: Some((s.old_no + i) as u32), text: s.del[i] },
    )
}

proof fn lemma_filter_all(cs: Seq<CellView>, k: Kind)
    requires
        forall|i: int| 0 <= i < cs.len() ==> (#[trigger] cs[i]).kind == k,
    ensures
        cs.filter(|c: CellView| c.kind == k) == cs,
    decreases cs.len(),
{
    reveal(Seq::filter);
    if cs.len() > 0 {
        let p = cs.drop_last();
        assert forall|i: int| 0 <= i < p.len() implies (#[trigger] p[i]).kind == k by {
            assert(p[i] == cs[i]);
        }
        lemma_filter_all(p, k);
        assert(cs[cs.len() - 1] == cs.last());
        assert(p.push(cs.last()) =~= cs);
    } else {
        assert(cs.filter(|c: CellView| c.kind == k) =~= cs);
    }
}

proof fn lemma_filter_none(cs: Seq<CellView>, k: Kind)
    requires
        forall|i: int| 0 <= i < cs.len() ==> (#[trigger] cs[i]).kind != k,
    ensures
        cs.filter(|c: CellView| c.kind == k) == Seq::<CellView>::empty(),
    decreases cs.len(),
{
    reveal(Seq::filter);
    if cs.len() > 0 {
        let p = cs.drop_last();
        assert forall|i: int| 0 <= i < p.len() implies (#[trigger] p[i]).kind != k by {
            assert(p[i] == cs[i]);
        }
        lemma_filter_none(p, k);
        assert(cs[cs.len() - 1] == cs.last());
    } else {
        assert(cs.filter(|c: CellView| c.kind == k) =~= Seq::<CellView>::empty());
    }
}

proof fn lemma_pending_cells(s: ParseState)
    ensures
        right_cells(pending_rows(s), Kind::Add) == pending_adds(s),
        left_cells(pending_rows(s), Kind::Del) == pending_dels(s),
{
    let d = s.del.len();
    let a = s.add.len();
    if d == a {
        let f = |i: int|
            RowView {
                left: numbered(Kind::Del, s.old_no + i, s.del[i]),
                right: numbered(Kind::Add, s.new_no + i, s.add[i]),
            };
        assert(pending_rows(s) =~= Seq::new(d, f));
        lemma_cells_of_new(d, f, Kind::Add);
        lemma_cells_of_new(d, f, Kind::Del);
        let rs = Seq::new(d, |i: int| f(i).right);
        let ls = Seq::new(d, |i: int| f(i).left);
        lemma_filter_all(rs, Kind::Add);
        lemma_filter_all(ls, Kind::Del);
        assert(rs =~= pending_adds(s));
        assert(ls =~= pending_dels(s));
    } else {
        let f = |i: int| RowView { left: numbered(Kind::Del, s.old_no + i, s.del[i]), right: blank() };
        let g = |i: int| RowView { left: blank(), right: numbered(Kind::Add, s.new_no + i, s.add[i]) };
        assert(pending_rows(s) =~= Seq::new(d, f) + Seq::new(a, g));
        lemma_cells_concat(Seq::new(d, f), Seq::new(a, g), Kind::Add);
        lemma_cells_concat(Seq::new(d, f), Seq::new(a, g), Kind::Del);
        lemma_cells_of_new(d, f, Kind::Add);
        lemma_cells_of_new(d, f, Kind::Del);
        lemma_cells_of_new(a, g, Kind::Add);
        lemma_cells_of_new(a, g, Kind::Del);
        lemma_filter_none(Seq::new(d, |i: int| f(i).right), Kind::Add);
        lemma_filter_all(Seq::new(d, |i: int| f(i).left), Kind::Del);
        lemma_filter_all(Seq::new(a, |i: int| g(i).right), Kind::Add);
        lemma_filter_none(Seq::new(a, |i: int| g(i).left), Kind::Del);
        assert(Seq::new(a, |i: int| g(i).right) =~= pending_adds(s));
        assert(Seq::new(d, |i: int| f(i).left) =~= pending_dels(s));
        assert(Seq::<CellView>::empty() + pending_adds(s) =~= pending_adds(s));
        assert(pending_dels(s) + Seq::<CellView>::empty() =~= pending_dels(s));
    }
}

proof fn lemma_flushed_cells(s: ParseState)
    ensures
        right_cells(flushed(s).rows, Kind::Add) == right_cells(s.rows, Kind::Add) + pending_adds(s),
        left_cells(flushed(s).rows, Kind::Del) == left_cells(s.rows, Kind::Del) + pending_dels(s),
        pending_adds(flushed(s)) == Seq::<CellView>::empty(),
        pending_dels(flushed(s)) == Seq::<CellView>::empty(),
{
    lemma_pending_plain(s);
    lemma_pending_cells(s);
    lemma_cells_concat(s.rows, pending_rows(s), Kind::Add);
    lemma_cells_concat(s.rows, pending_rows(s), Kind::Del);
    assert(pending_adds(flushed(s)) =~= Seq::<CellView>::empty());
    assert(pending_dels(flushed(s)) =~= Seq::<CellView>::empty());
}


proof fn lemma_run_cells(s: ParseState, lines: Seq<Seq<char>>, fh: bool)
    ensures
        right_cells(flushed(run(s, lines, fh)).rows, Kind::Add) == right_cells(s.rows, Kind::Add)
            + pending_adds(s) + added_in(lines, s.seen_hunk, s.new_no + s.add.len()),
        left_cells(flushed(run(s, lines, fh)).rows, Kind::Del) == left_cells(s.rows, Kind::Del)
            + pending_dels(s) + removed_in(lines, s.seen_hunk, s.old_no + s.del.len()),
    decreases lines.len(),
{
    let ra = right_cells(s.rows, Kind::Add);
    let ld = left_cells(s.rows, Kind::Del);
    let ca = s.new_no + s.add.len();
    let cd = s.old_no + s.del.len();
    if lines.len() == 0 {
        lemma_flushed_cells(s);
        assert(ra + pending_adds(s) + Seq::<CellView>::empty() =~= ra + pending_adds(s));
        assert(ld + pending_dels(s) + Seq::<CellView>::empty() =~= ld + pending_dels(s));
    } else {
        let l = lines[0];
        let rest = lines.drop_first();
        let t = step(s, l, fh);
        lemma_run_cells(t, rest, fh);
        assert(run(s, lines, fh) == run(t, rest, fh));
        lemma_flushed_cells(s);
        let f = flushed(s);
        let pa = pending_adds(s);
        let pd = pending_dels(s);
        if let Some(path) = header_path(l) {
            lemma_push_cells(f.rows, banner(Kind::File, path), Kind::Add);
            lemma_push_cells(f.rows, banner(Kind::File, path), Kind::Del);
            assert(ra + pa + Seq::<CellView>::empty() =~= ra + pa);
            assert(ld + pd + Seq::<CellView>::empty() =~= ld + pd);
        } else if let Some((o, n)) = hunk_starts(l) {
            lemma_push_cells(f.rows, banner(Kind::Hunk, l), Kind::Add);
            lemma_push_cells(f.rows, banner(Kind::Hunk, l), Kind::Del);
            assert(ra + pa + Seq::<CellView>::empty() =~= ra + pa);
            assert(ld + pd + Seq::<CellView>::empty() =~= ld + pd);
        } else if !s.seen_hunk {
            lemma_push_cells(s.rows, banner(Kind::Hunk, "Binary file differs"@), Kind::Add);
            lemma_push_cells(s.rows, banner(Kind::Hunk, "Binary file differs"@), Kind::Del);
        } else if l.len() > 0 && l[0] == '-' {
            let c = CellView { kind: Kind::Del, num: Some(cd as u32), text: prep_spec(l.drop_first()) };
            assert(pending_dels(t) =~= pd.push(c));
            assert(ld + pd.push(c) + removed_in(rest, true, cd + 1) =~= ld + pd + (seq![c]
                + removed_in(rest, true, cd + 1)));
        } else if l.len() > 0 && l[0] == '+' {
            let c = CellView { kind: Kind::Add, num: Some(ca as u32), text: prep_spec(l.drop_first()) };
            assert(pending_adds(t) =~= pa.push(c));
            assert(ra + pa.push(c) + added_in(rest, true, ca + 1) =~= ra + pa + (seq![c] + added_in(
                rest,
                true,
                ca + 1,
            )));
        } else if l.len() > 0 && l[0] == '\\' {
        } else {
            let text = if l.len() > 0 && l[0] == ' ' {
                prep_spec(l.drop_first())
            } else {
                seq![]
            };
            let row = RowView {
                left: numbered(Kind::Context, f.old_no, text),
                right: numbered(Kind::Context, f.new_no, text),
            };
            assert(t.rows == f.rows.push(row));
            lemma_push_cells(f.rows, row, Kind::Add);
            lemma_push_cells(f.rows, row, Kind::Del);
            assert(pending_adds(t) =~= Seq::<CellView>::empty());
            assert(pending_dels(t) =~= Seq::<CellView>::empty());
            assert(ra + pa + Seq::<CellView>::empty() =~= ra + pa);
            assert(ld + pd + Seq::<CellView>::empty() =~= ld + pd);
        }
    }
}

/// The added lines of a diff come out on the right, top to bottom, in the
/// order the diff gives them, each shown as its text after the `+` and
/// numbered by its line in the new file; the removed lines likewise on the
/// left, numbered by their line in the old file. Lines outside hunks show no
/// such cell.
pub proof fn law_lines_keep_their_order(diff: Seq<char>, file_headers: bool)
    ensures
        right_cells(parse_model(diff, file_headers).rows, Kind::Add) == added_in(
            lines_of(diff),
            false,
            0,
        ),
        left_cells(parse_model(diff, file_headers).rows, Kind::Del) == removed_in(
            lines_of(diff),
            false,
            0,
        ),
{
    let s0 = initial_state();
    lemma_run_cells(s0, lines_of(diff), file_headers);
    assert(pending_adds(s0) =~= Seq::<CellView>::empty());
    assert(pending_dels(s0) =~= Seq::<CellView>::empty());
    assert(Seq::<CellView>::empty() + Seq::<CellView>::empty() + added_in(lines_of(diff), false, 0)
        =~= added_in(lines_of(diff), false, 0));
    assert(Seq::<CellView>::empty() + Seq::<CellView>::empty() + removed_in(
        lines_of(diff),
        false,
        0,
    ) =~= removed_in(lines_of(diff), false, 0));
}

/// Every line of `lines` begins with `c`.
pub open spec fn all_begin_with(lines: Seq<Seq<char>>, c: char) -> bool {
    forall|i: int| 0 <= i < lines.len() ==> (#[trigger] lines[i]).len() > 0 && lines[i][0] == c
}

/// The texts of `lines` after their first character, as shown.
pub open spec fn bodies(lines: Seq<Seq<char>>) -> Seq<Seq<char>> {
    Seq::new(lines.len(), |i: int| prep_spec(lines[i].drop_first()))
}

proof fn lemma_marked_line_plain(l: Seq<char>)
    requires
        l.len() > 0,
        l[0] == '-' || l[0] == '+',
    ensures
        header_path(l) is None,
        hunk_starts(l) is None,
{
    reveal_strlit("diff --git ");
    reveal_strlit("@@ -");
    if has_prefix(l, "diff --git "@) {
        assert(l.take(11)[0] == l[0]);
    }
    if has_prefix(l, "@@ -"@) {
        assert(l.take(4)[0] == l[0]);
    }
}

proof fn lemma_run_concat(s: ParseState, a: Seq<Seq<char>>, b: Seq<Seq<char>>, fh: bool)
    ensures
        run(s, a + b, fh) == run(run(s, a, fh), b, fh),
    decreases a.len(),
{
    if a.len() == 0 {
        assert(a + b =~= b);
    } else {
        assert((a + b)[0] == a[0]);
        assert((a + b).drop_first() =~= a.drop_first() + b);
        lemma_run_concat(step(s, a[0], fh), a.drop_first(), b, fh);
    }
}

proof fn lemma_run_removed(s: ParseState, lines: Seq<Seq<char>>, fh: bool)
    requires
        s.seen_hunk,
        all_begin_with(lines, '-'),
    ensures
        run(s, lines, fh) == (ParseState { del: s.del + bodies(lines), ..s }),
    decreases lines.len(),
{
    if lines.len() == 0 {
        assert(s.del + bodies(lines) =~= s.del);
    } else {
        let l = lines[0];
        lemma_marked_line_plain(l);
        let t = step(s, l, fh);
        assert(t == (ParseState { del: s.del.push(prep_spec(l.drop_first())), ..s }));
        let rest = lines.drop_first();
        assert(all_begin_with(rest, '-')) by {
            assert forall|i: int| 0 <= i < rest.len() implies (#[trigger] rest[i]).len() > 0 && rest[i][0] == '-' by {
                assert(rest[i] == lines[i + 1]);
            }
        }
        lemma_run_removed(t, rest, fh);
        assert(t.del + bodies(rest) =~= s.del + bodies(lines));
    }
}

proof fn lemma_run_added(s: ParseState, lines: Seq<Seq<char>>, fh: bool)
    requires
        s.seen_hunk,
        all_begin_with(lines, '+'),
    ensures
        run(s, lines, fh) == (ParseState { add: s.add + bodies(lines), ..s }),
    decreases lines.len(),
{
    if lines.len() == 0 {
        assert(s.add + bodies(lines) =~= s.add);
    } else {
        let l = lines[0];
        lemma_marked_line_plain(l);
        let t = step(s, l, fh);
        assert(t == (ParseState { add: s.add.push(prep_spec(l.drop_first())), ..s }));
        let rest = lines.drop_first();
        assert(all_begin_with(rest, '+')) by {
            assert forall|i: int| 0 <= i < rest.len() implies (#[trigger] rest[i]).len() > 0 && rest[i][0] == '+' by {
                assert(rest[i] == lines[i + 1]);
            }
        }
        lemma_run_added(t, rest, fh);
        assert(t.add + bodies(rest) =~= s.add + bodies(lines));
    }
}

/// Inside a hunk, a run of removed lines followed by as many added lines
/// comes out side by side: row `k` holds the `k`-th removed line on the left
/// and the `k`-th added line on the right, numbered on from the old and the
/// new line counts.
pub proof fn law_equal_runs_pair(
    s: ParseState,
    removed: Seq<Seq<char>>,
    added: Seq<Seq<char>>,
    fh: bool,
)
    requires
        s.seen_hunk,
        s.del.len() == 0,
        s.add.len() == 0,
        removed.len() == added.len(),
        all_begin_with(removed, '-'),
        all_begin_with(added, '+'),
    ensures
        flushed(run(s, removed + added, fh)).rows == s.rows + Seq::new(
            removed.len(),
            |k: int|
                RowView {
                    left: CellView {
                        kind: Kind::Del,
                        num: Some((s.old_no + k) as u32),
                        text: prep_spec(removed[k].drop_first()),
                    },
                    right: CellView {
                        kind: Kind::Add,
                        num: Some((s.new_no + k) as u32),
                        text: prep_spec(added[k].drop_first()),
                    },
                },
        ),
{
    lemma_run_concat(s, removed, added, fh);
    lemma_run_removed(s, removed, fh);
    let s1 = ParseState { del: s.del + bodies(removed), ..s };
    lemma_run_added(s1, added, fh);
    let s2 = ParseState { add: s1.add + bodies(added), ..s1 };
    assert(s2.del =~= bodies(removed));
    assert(s2.add =~= bodies(added));
    assert(flushed(s2).rows =~= s.rows + Seq::new(
        removed.len(),
        |k: int|
            RowView {
                left: CellView {
                    kind: Kind::Del,
                    num: Some((s.old_no + k) as u32),
                    text: prep_spec(removed[k].drop_first()),
                },
                right: CellView {
                    kind: Kind::Add,
                    num: Some((s.new_no + k) as u32),
                    text: prep_spec(added[k].drop_first()),
                },
            },
    ));
}

/// Inside a hunk, a run of removed lines followed by a different number of
/// added lines comes out stacked: first each removed line on the left with
/// an empty cell beside it, then each added line on the right with an empty
/// cell beside it, in order.
pub proof fn law_unequal_runs_stack(
    s: ParseState,
    removed: Seq<Seq<char>>,
    added: Seq<Seq<char>>,
    fh: bool,
)
    requires
        s.seen_hunk,
        s.del.len() == 0,
        s.add.len() == 0,
        removed.len() != added.len(),
        all_begin_with(removed, '-'),
        all_begin_with(added, '+'),
    ensures
        flushed(run(s, removed + added, fh)).rows == s.rows + Seq::new(
            removed.len(),
            |k: int|
                RowView {
                    left: CellView {
                        kind: Kind::Del,
                        num: Some((s.old_no + k) as u32),
                        text: prep_spec(removed[k].drop_first()),
                    },
                    right: CellView { kind: Kind::Empty, num: None, text: seq![] },
                },
        ) + Seq::new(
            added.len(),
            |k: int|
                RowView {
                    left: CellView { kind: Kind::Empty, num: None, text: seq![] },
                    right: CellView {
                        kind: Kind::Add,
                        num: Some((s.new_no + k) as u32),
                        text: prep_spec(added[k].drop_first()),
                    },
                },
        ),
{
    lemma_run_concat(s, removed, added, fh);
    lemma_run_removed(s, removed, fh);
    let s1 = ParseState { del: s.del + bodies(removed), ..s };
    lemma_run_added(s1, added, fh);
    let s2 = ParseState { add: s1.add + bodies(added), ..s1 };
    assert(s2.del =~= bodies(removed));
    assert(s2.add =~= bodies(added));
    let x = Seq::new(
        removed.len(),
        |k: int|
            RowView {
                left: CellView {
                    kind: Kind::Del,
                    num: Some((s.old_no + k) as u32),
                    text: prep_spec(removed[k].drop_first()),
                },
                right: CellView { kind: Kind::Empty, num: None, text: seq![] },
            },
    );
    let y = Seq::new(
        added.len(),
        |k: int|
            RowView {
                left: CellView { kind: Kind::Empty, num: None, text: seq![] },
                right: CellView {
                    kind: Kind::Add,
                    num: Some((s.new_no + k) as u32),
                    text: prep_spec(added[k].drop_first()),
                },
            },
    );
    assert(blank().text =~= Seq::<char>::empty());
    assert(flushed(s2).rows =~= s.rows + x + y);
}

} // verus!
