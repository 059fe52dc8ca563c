//! The repository status as `git status --porcelain=v2 --branch -z` reports it.
use vstd::prelude::*;
use vstd::utf8::{decode_utf8, valid_utf8};

use crate::diff::before_char;
use crate::text::{
    chars_of, find_char, find_char_from, has_prefix, lemma_find_char_bounds, parse_u32,
    parse_u32_spec, slice_chars, split, split_from, split_on, string_of, strip_prefix, views,
};

verus! {

pub struct Branch {
    pub name: String,
    pub upstream: Option<String>,
    pub ahead: u32,
    pub behind: u32,
}

pub struct BranchView {
    pub name: Seq<char>,
    pub upstream: Option<Seq<char>>,
    pub ahead: u32,
    pub behind: u32,
}

pub open spec fn opt_view(s: Option<String>) -> Option<Seq<char>> {
    match s {
        Some(v) => Some(v@),
        None => None,
    }
}

impl View for Branch {
    type V = BranchView;

    open spec fn view(&self) -> BranchView {
        BranchView {
            name: self.name@,
            upstream: opt_view(self.upstream),
            ahead: self.ahead,
            behind: self.behind,
        }
    }
}

pub open spec fn no_branch() -> BranchView {
    BranchView { name: seq![], upstream: None, ahead: 0, behind: 0 }
}

impl Default for Branch {
    fn default() -> (b: Branch)
        ensures
            b@ == no_branch(),
    {
        Branch { name: String::new(), upstream: None, ahead: 0, behind: 0 }
    }
}

#[derive(Clone, Copy, PartialEq, Eq, Debug, Structural)]
pub enum Kind {
    Modified,
    Added,
    Deleted,
    Renamed,
    Untracked,
    Conflicted,
}

/// The kind a status letter stands for.
pub open spec fn kind_of(c: char) -> Kind {
    if c == 'A' {
        Kind::Added
    } else if c == 'D' {
        Kind::Deleted
    } else if c == 'R' || c == 'C' {
        Kind::Renamed
    } else if c == 'U' {
        Kind::Conflicted
    } else if c == '?' {
        Kind::Untracked
    } else {
        Kind::Modified
    }
}

/// The letter that shows a kind.
pub open spec fn letter_of(k: Kind) -> char {
    match k {
        Kind::Modified => 'M',
        Kind::Added => 'A',
        Kind::Deleted => 'D',
        Kind::Renamed => 'R',
        Kind::Untracked => '?',
        Kind::Conflicted => 'U',
    }
}

impl Kind {
    fn from_char(c: char) -> (k: Kind)
        ensures
            k == kind_of(c),
    {
        if c == 'A' {
            Kind::Added
        } else if c == 'D' {
            Kind::Deleted
        } else if c == 'R' || c == 'C' {
            Kind::Renamed
        } else if c == 'U' {
            Kind::Conflicted
        } else if c == '?' {
            Kind::Untracked
        } else {
            Kind::Modified
        }
    }

    pub fn letter(self) -> (c: char)
        ensures
            c == letter_of(self),
    {
        match self {
            Kind::Modified => 'M',
            Kind::Added => 'A',
            Kind::Deleted => 'D',
            Kind::Renamed => 'R',
            Kind::Untracked => '?',
            Kind::Conflicted => 'U',
        }
    }
}

pub struct FileEntry {
    pub path: String,
    pub staged: bool,
    pub unstaged: bool,
    pub untracked: bool,
    pub kind: Kind,
}

pub struct FileView {
    pub path: Seq<char>,
    pub staged: bool,
    pub unstaged: bool,
    pub untracked: bool,
    pub kind: Kind,
}

impl View for FileEntry {
    type V = FileView;

    open spec fn view(&self) -> FileView {
        FileView {
            path: self.path@,
            staged: self.staged,
            unstaged: self.unstaged,
            untracked: self.untracked,
            kind: self.kind,
        }
    }
}

pub open spec fn files_view(files: Seq<FileEntry>) -> Seq<FileView> {
    files.map_values(|f: FileEntry| f@)
}

pub struct RepoStatus {
    pub branch: Branch,
    pub files: Vec<FileEntry>,
}

pub struct StatusView {
    pub branch: BranchView,
    pub files: Seq<FileView>,
}

impl View for RepoStatus {
    type V = StatusView;

    open spec fn view(&self) -> StatusView {
        StatusView { branch: self.branch@, files: files_view(self.files@) }
    }
}

pub open spec fn empty_status() -> StatusView {
    StatusView { branch: no_branch(), files: seq![] }
}

impl Default for RepoStatus {
    fn default() -> (s: RepoStatus)
        ensures
            s@ == empty_status(),
    {
        let s = RepoStatus { branch: Branch::default(), files: Vec::new() };
        assert(files_view(s.files@) =~= Seq::<FileView>::empty());
        s
    }
}

/// What follows the `n`-th space of `s`, when `s` has that many.
pub open spec fn after_fields(s: Seq<char>, n: nat) -> Option<Seq<char>>
    decreases n,
{
    if n == 0 {
        Some(s)
    } else {
        match find_char_from(s, ' ', 0) {
            None => None,
            Some(k) => after_fields(s.skip(k + 1), (n - 1) as nat),
        }
    }
}

/// The entry that a two-letter `XY` status and a path describe.
pub open spec fn entry_from_xy(xy: Seq<char>, path: Seq<char>) -> FileView {
    let x = if xy.len() > 0 {
        xy[0]
    } else {
        '.'
    };
    let y = if xy.len() > 1 {
        xy[1]
    } else {
        '.'
    };
    FileView {
        path,
        staged: x != '.',
        unstaged: y != '.',
        untracked: false,
        kind: kind_of(
            if y != '.' {
                y
            } else {
                x
            },
        ),
    }
}

/// A changed-entry record: the status letters, `meta` fields, then the path
/// (which may hold spaces).
pub open spec fn changed_entry(rest: Seq<char>, meta: nat) -> FileView {
    let path = match after_fields(rest, meta + 1) {
        Some(p) => p,
        None => seq![],
    };
    entry_from_xy(before_char(rest, ' '), path)
}

pub open spec fn untracked_entry(path: Seq<char>) -> FileView {
    FileView { path, staged: false, unstaged: true, untracked: true, kind: Kind::Untracked }
}

/// An unmerged record: eight meta fields, then the path; always a conflict.
pub open spec fn unmerged_entry(rest: Seq<char>) -> FileView {
    FileView { staged: false, unstaged: true, kind: Kind::Conflicted, ..changed_entry(rest, 8) }
}

/// The counters of a `branch.ab` header after its space-separated tokens
/// `ts`: `+n` sets ahead, `-n` sets behind (0 when `n` is not a number).
pub open spec fn ab_counts(b: BranchView, ts: Seq<Seq<char>>) -> BranchView
    decreases ts.len(),
{
    if ts.len() == 0 {
        b
    } else {
        let t = ts.last();
        let prev = ab_counts(b, ts.drop_last());
        let n: u32 = match parse_u32_spec(t.drop_first()) {
            Some(v) => v,
            None => 0,
        };
        if t.len() > 0 && t[0] == '+' {
            BranchView { ahead: n, ..prev }
        } else if t.len() > 0 && t[0] == '-' {
            BranchView { behind: n, ..prev }
        } else {
            prev
        }
    }
}

/// The branch after a `# ` header line whose text is `rest`.
pub open spec fn branch_applied(b: BranchView, rest: Seq<char>) -> BranchView {
    if has_prefix(rest, "branch.head "@) {
        BranchView { name: rest.skip("branch.head "@.len() as int), ..b }
    } else if has_prefix(rest, "branch.upstream "@) {
        BranchView { upstream: Some(rest.skip("branch.upstream "@.len() as int)), ..b }
    } else if has_prefix(rest, "branch.ab "@) {
        ab_counts(b, split_on(rest.skip("branch.ab "@.len() as int), ' '))
    } else {
        b
    }
}

/// The non-empty tokens of `ts`, in order.
pub open spec fn nonempty(ts: Seq<Seq<char>>) -> Seq<Seq<char>>
    decreases ts.len(),
{
    if ts.len() == 0 {
        seq![]
    } else if ts.last().len() > 0 {
        nonempty(ts.drop_last()).push(ts.last())
    } else {
        nonempty(ts.drop_last())
    }
}

/// The NUL-separated fields of the report, empty ones left out.
pub open spec fn status_tokens(text: Seq<char>) -> Seq<Seq<char>> {
    nonempty(split_on(text, '\0'))
}

/// The status after the records `ts[i..]`: `# ` branch headers, `1 ` changed
/// entries, `2 ` renamed entries (whose original path is the next field),
/// `? ` untracked and `u ` unmerged entries; anything else is skipped.
pub open spec fn apply_records(s: StatusView, ts: Seq<Seq<char>>, i: int) -> StatusView
    decreases ts.len() + 1 - i,
{
    if i < 0 || i >= ts.len() {
        s
    } else {
        let t = ts[i];
        if has_prefix(t, "# "@) {
            apply_records(
                StatusView { branch: branch_applied(s.branch, t.skip("# "@.len() as int)), ..s },
                ts,
                i + 1,
            )
        } else if has_prefix(t, "1 "@) {
            apply_records(
                StatusView { files: s.files.push(changed_entry(t.skip("1 "@.len() as int), 6)), ..s },
                ts,
                i + 1,
            )
        } else if has_prefix(t, "2 "@) {
            apply_records(
                StatusView { files: s.files.push(changed_entry(t.skip("2 "@.len() as int), 7)), ..s },
                ts,
                i + 2,
            )
        } else if has_prefix(t, "? "@) {
            apply_records(
                StatusView { files: s.files.push(untracked_entry(t.skip("? "@.len() as int))), ..s },
                ts,
                i + 1,
            )
        } else if has_prefix(t, "u "@) {
            apply_records(
                StatusView { files: s.files.push(unmerged_entry(t.skip("u "@.len() as int))), ..s },
                ts,
                i + 1,
            )
        } else {
            apply_records(s, ts, i + 1)
        }
    }
}

/// The repository status that the report text `text` describes.
pub open spec fn status_of(text: Seq<char>) -> StatusView {
    apply_records(empty_status(), status_tokens(text), 0)
}

/// What follows the `n`-th space of `s`.
fn skip_fields(s: &[char], n: usize) -> (out: Option<Vec<char>>)
    ensures
        out matches Some(r) ==> after_fields(s@, n as nat) == Some(r@),
        out is None ==> after_fields(s@, n as nat) is None,
{
    let mut cur = slice_chars(s, 0, s.len());
    assert(cur@ =~= s@);
    let mut j: usize = 0;
    while j < n
        invariant
            j <= n,
            after_fields(s@, n as nat) == after_fields(cur@, (n - j) as nat),
        decreases n - j,
    {
        proof {
            lemma_find_char_bounds(cur@, ' ', 0);
        }
        match find_char(cur.as_slice(), ' ', 0) {
            None => {
                return None;
            },
            Some(k) => {
                assert(k < cur.len());
                let next = slice_chars(cur.as_slice(), k + 1, cur.len());
                assert(next@ =~= cur@.skip(k + 1));
                cur = next;
            },
        }
        j += 1;
    }
    Some(cur)
}

fn first_word(s: &[char]) -> (out: Vec<char>)
    ensures
        out@ == before_char(s@, ' '),
{
    proof {
        lemma_find_char_bounds(s@, ' ', 0);
    }
    match find_char(s, ' ', 0) {
        Some(k) => slice_chars(s, 0, k),
        None => slice_chars(s, 0, s.len()),
    }
}

fn from_xy(xy: &[char], path: &[char]) -> (e: FileEntry)
    ensures
        e@ == entry_from_xy(xy@, path@),
{
    let x = if xy.len() > 0 {
        xy[0]
    } else {
        '.'
    };
    let y = if xy.len() > 1 {
        xy[1]
    } else {
        '.'
    };
    let staged = x != '.';
    let unstaged = y != '.';
    FileEntry {
        path: string_of(path),
        staged,
        unstaged,
        untracked: false,
        kind: Kind::from_char(
            if unstaged {
                y
            } else {
                x
            },
        ),
    }
}

fn changed(rest: &[char], meta: usize) -> (e: FileEntry)
    requires
        meta < 100,
    ensures
        e@ == changed_entry(rest@, meta as nat),
{
    let xy = first_word(rest);
    let path = match skip_fields(rest, meta + 1) {
        Some(p) => p,
        None => Vec::new(),
    };
    assert(path@ == (match after_fields(rest@, meta as nat + 1) {
        Some(p) => p,
        None => Seq::<char>::empty(),
    }));
    from_xy(xy.as_slice(), path.as_slice())
}

fn untracked(path: &[char]) -> (e: FileEntry)
    ensures
        e@ == untracked_entry(path@),
{
    FileEntry {
        path: string_of(path),
        staged: false,
        unstaged: true,
        untracked: true,
        kind: Kind::Untracked,
    }
}

fn unmerged(rest: &[char]) -> (e: FileEntry)
    ensures
        e@ == unmerged_entry(rest@),
{
    let c = changed(rest, 8);
    FileEntry { staged: false, unstaged: true, kind: Kind::Conflicted, ..c }
}

fn number_or_zero(s: &[char]) -> (n: u32)
    ensures
        n == (match parse_u32_spec(s@) {
            Some(v) => v,
            None => 0,
        }),
{
    match parse_u32(s) {
        Some(v) => v,
        None => 0,
    }
}

fn apply_branch(branch: &mut Branch, rest: &[char])
    ensures
        final(branch)@ == branch_applied(old(branch)@, rest@),
{
    if let Some(v) = strip_prefix(rest, "branch.head ") {
        branch.name = string_of(v.as_slice());
    } else if let Some(v) = strip_prefix(rest, "branch.upstream ") {
        branch.upstream = Some(string_of(v.as_slice()));
    } else if let Some(v) = strip_prefix(rest, "branch.ab ") {
        let tokens = split(v.as_slice(), ' ');
        let ghost b0 = branch@;
        let ghost ts = views(tokens@);
        let mut i: usize = 0;
        assert(ts.take(0) =~= Seq::<Seq<char>>::empty());
        while i < tokens.len()
            invariant
                ts == views(tokens@),
                ts.len() == tokens.len(),
                i <= tokens.len(),
                branch@ == ab_counts(b0, ts.take(i as int)),
            decreases tokens.len() - i,
        {
            let t = &tokens[i];
            assert(ts.take(i + 1).drop_last() =~= ts.take(i as int));
            assert(ts.take(i + 1).last() == t@);
            if t.len() > 0 && t[0] == '+' {
                let body = slice_chars(t.as_slice(), 1, t.len());
                assert(body@ =~= t@.drop_first());
                branch.ahead = number_or_zero(body.as_slice());
            } else if t.len() > 0 && t[0] == '-' {
                let body = slice_chars(t.as_slice(), 1, t.len());
                assert(body@ =~= t@.drop_first());
                branch.behind = number_or_zero(body.as_slice());
            }
            i += 1;
        }
        assert(ts.take(i as int) =~= ts);
    }
}

fn nonempty_tokens(parts: Vec<Vec<char>>) -> (out: Vec<Vec<char>>)
    ensures
        views(out@) == nonempty(views(parts@)),
{
    let ghost ps = views(parts@);
    let mut out: Vec<Vec<char>> = Vec::new();
    let mut i: usize = 0;
    assert(ps.take(0) =~= Seq::<Seq<char>>::empty());
    assert(views(out@) =~= Seq::<Seq<char>>::empty());
    while i < parts.len()
        invariant
            ps == views(parts@),
            ps.len() == parts.len(),
            i <= parts.len(),
            views(out@) == nonempty(ps.take(i as int)),
        decreases parts.len() - i,
    {
        assert(ps.take(i + 1).drop_last() =~= ps.take(i as int));
        assert(ps.take(i + 1).last() == parts@[i as int]@);
        if parts[i].len() > 0 {
            let t = slice_chars(parts[i].as_slice(), 0, parts[i].len());
            assert(t@ =~= parts@[i as int]@);
            let ghost before = views(out@);
            out.push(t);
            assert(views(out@) =~= before.push(t@));
        }
        i += 1;
    }
    assert(ps.take(i as int) =~= ps);
    out
}

fn push_file(files: &mut Vec<FileEntry>, e: FileEntry)
    ensures
        files_view(final(files)@) == files_view(old(files)@).push(e@),
{
    files.push(e);
    assert(files_view(files@) =~= files_view(old(files)@).push(e@));
}

/// The repository status that the report text `text` describes.
pub fn parse_text(text: &str) -> (status: RepoStatus)
    ensures
        status@ == status_of(text@),
{
    let chars = chars_of(text);
    let tokens = nonempty_tokens(split(chars.as_slice(), '\0'));
    let ghost ts = views(tokens@);
    let mut status = RepoStatus::default();
    let mut i: usize = 0;
    while i < tokens.len()
        invariant
            ts == views(tokens@),
            ts == status_tokens(text@),
            ts.len() == tokens.len(),
            i <= tokens.len(),
            apply_records(status@, ts, i as int) == status_of(text@),
        decreases tokens.len() - i,
    {
        let token = &tokens[i];
        assert(ts[i as int] == token@);
        if let Some(rest) = strip_prefix(token.as_slice(), "# ") {
            apply_branch(&mut status.branch, rest.as_slice());
        } else if let Some(rest) = strip_prefix(token.as_slice(), "1 ") {
            push_file(&mut status.files, changed(rest.as_slice(), 6));
        } else if let Some(rest) = strip_prefix(token.as_slice(), "2 ") {
            push_file(&mut status.files, changed(rest.as_slice(), 7));
            if i + 1 < tokens.len() {
                i += 1;
            } else {
                assert(apply_records(status@, ts, i + 2) == status@);
                assert(apply_records(status@, ts, tokens.len() as int) == status@);
                i = tokens.len() - 1;
            }
        } else if let Some(path) = strip_prefix(token.as_slice(), "? ") {
            push_file(&mut status.files, untracked(path.as_slice()));
        } else if let Some(rest) = strip_prefix(token.as_slice(), "u ") {
            push_file(&mut status.files, unmerged(rest.as_slice()));
        }
        i += 1;
    }
    status
}

/// The text that `String::from_utf8_lossy` makes of `bytes`.
pub uninterp spec fn lossy_text(bytes: Seq<u8>) -> Seq<char>;

/// `String::from_utf8_lossy`: the text of `bytes`, each invalid UTF-8 sequence
/// replaced by U+FFFD. Claimed: the result is `lossy_text` of the bytes, and
/// bytes that are valid UTF-8 decode unchanged.
#[verifier::external_body]
fn decode_lossy(bytes: &[u8]) -> (text: String)
    ensures
        text@ == lossy_text(bytes@),
        valid_utf8(bytes@) ==> text@ == decode_utf8(bytes@),
{
    String::from_utf8_lossy(bytes).into_owned()
}

/// The repository status that the raw report `bytes` describes.
pub fn parse(bytes: &[u8]) -> (status: RepoStatus)
    ensures
        status@ == status_of(lossy_text(bytes@)),
        valid_utf8(bytes@) ==> status@ == status_of(decode_utf8(bytes@)),
{
    let text = decode_lossy(bytes);
    parse_text(text.as_str())
}

/// The letter shown for a kind reads back as that kind.
pub proof fn law_letter_reads_back(k: Kind)
    ensures
        kind_of(letter_of(k)) == k,
{
}

/// An untracked entry has no staged changes: it is unstaged, of kind
/// `Untracked`.
pub open spec fn untracked_ok(f: FileView) -> bool {
    f.untracked ==> !f.staged && f.unstaged && f.kind == Kind::Untracked
}

proof fn lemma_records_untracked(s: StatusView, ts: Seq<Seq<char>>, i: int)
    requires
        forall|k: int| 0 <= k < s.files.len() ==> untracked_ok(#[trigger] s.files[k]),
    ensures
        forall|k: int|
            0 <= k < apply_records(s, ts, i).files.len() ==> untracked_ok(
                #[trigger] apply_records(s, ts, i).files[k],
            ),
    decreases ts.len() + 1 - i,
{
    if 0 <= i < ts.len() {
        let t = ts[i];
        let next = |f: FileView| StatusView { files: s.files.push(f), ..s };
        assert forall|f: FileView| untracked_ok(f) implies forall|k: int|
            0 <= k < next(f).files.len() ==> untracked_ok(#[trigger] next(f).files[k]) by {
            assert forall|k: int| 0 <= k < next(f).files.len() implies untracked_ok(
                #[trigger] next(f).files[k],
            ) by {
                if k < s.files.len() {
                    assert(next(f).files[k] == s.files[k]);
                }
            }
        }
        if has_prefix(t, "# "@) {
            lemma_records_untracked(
                StatusView { branch: branch_applied(s.branch, t.skip("# "@.len() as int)), ..s },
                ts,
                i + 1,
            );
        } else if has_prefix(t, "1 "@) {
            lemma_records_untracked(next(changed_entry(t.skip("1 "@.len() as int), 6)), ts, i + 1);
        } else if has_prefix(t, "2 "@) {
            lemma_records_untracked(next(changed_entry(t.skip("2 "@.len() as int), 7)), ts, i + 2);
        } else if has_prefix(t, "? "@) {
            lemma_records_untracked(next(untracked_entry(t.skip("? "@.len() as int))), ts, i + 1);
        } else if has_prefix(t, "u "@) {
            lemma_records_untracked(next(unmerged_entry(t.skip("u "@.len() as int))), ts, i + 1);
        } else {
            lemma_records_untracked(s, ts, i + 1);
        }
    }
}

/// No entry of a status is both untracked and staged: untracked files are
/// unstaged and of kind `Untracked`.
pub proof fn law_untracked_never_staged(text: Seq<char>)
    ensures
        forall|k: int|
            0 <= k < status_of(text).files.len() ==> {
                let f = #[trigger] status_of(text).files[k];
                f.untracked ==> !f.staged && f.unstaged && f.kind == Kind::Untracked
            },
{
    lemma_records_untracked(empty_status(), status_tokens(text), 0);
    assert forall|k: int| 0 <= k < status_of(text).files.len() implies {
        let f = #[trigger] status_of(text).files[k];
        f.untracked ==> !f.staged && f.unstaged && f.kind == Kind::Untracked
    } by {
        assert(untracked_ok(status_of(text).files[k]));
    }
}

proof fn lemma_first_nul(s: Seq<char>, n: int, i: int)
    requires
        0 <= i <= n < s.len(),
        s[n] == '\0',
        forall|j: int| 0 <= j < n ==> s[j] != '\0',
    ensures
        find_char_from(s, '\0', i) == Some(n),
    decreases n - i,
{
    if i < n {
        lemma_first_nul(s, n, i + 1);
    }
}

/// A report of one `? <path>` record gives one entry: that path, untracked,
/// unstaged, not staged, of kind `Untracked`.
pub proof fn law_untracked_record(path: Seq<char>)
    requires
        !path.contains('\0'),
    ensures
        status_of(seq!['?', ' '] + path + seq!['\0']).files == seq![
            FileView {
                path,
                staged: false,
                unstaged: true,
                untracked: true,
                kind: Kind::Untracked,
            },
        ],
{
    let t = seq!['?', ' '] + path;
    let s = t + seq!['\0'];
    let n = t.len() as int;
    assert forall|j: int| 0 <= j < n implies s[j] != '\0' by {
        if j >= 2 {
            assert(s[j] == path[j - 2]);
        }
    }
    lemma_first_nul(s, n, 0);
    assert(s.subrange(0, n) =~= t);
    assert(find_char_from(s, '\0', n + 1) is None);
    assert(s.subrange(n + 1, n + 1) =~= Seq::<char>::empty());
    assert(split_from(s, '\0', n + 1) =~= seq![Seq::<char>::empty()]);
    assert(split_on(s, '\0') =~= seq![t, Seq::<char>::empty()]);
    let parts = seq![t, Seq::<char>::empty()];
    assert(parts.drop_last() =~= seq![t]);
    assert(seq![t].drop_last() =~= Seq::<Seq<char>>::empty());
    assert(t.len() > 0);
    assert(seq![t].last() == t);
    assert(nonempty(Seq::<Seq<char>>::empty()) =~= Seq::<Seq<char>>::empty());
    assert(nonempty(seq![t]) =~= Seq::<Seq<char>>::empty().push(t));
    assert(nonempty(seq![t]) =~= seq![t]);
    assert(status_tokens(s) =~= seq![t]);
    reveal_strlit("# ");
    reveal_strlit("1 ");
    reveal_strlit("2 ");
    reveal_strlit("? ");
    assert(t.take(2)[0] == '?');
    assert("# "@[0] == '#');
    assert("1 "@[0] == '1');
    assert("2 "@[0] == '2');
    assert(!has_prefix(t, "# "@));
    assert(!has_prefix(t, "1 "@));
    assert(!has_prefix(t, "2 "@));
    assert(t.take(2) =~= "? "@);
    assert(has_prefix(t, "? "@));
    assert(t.skip(2) =~= path);
    let ts = seq![t];
    let s1 = StatusView { files: empty_status().files.push(untracked_entry(path)), ..empty_status() };
    assert(apply_records(empty_status(), ts, 0) == apply_records(s1, ts, 1));
    assert(empty_status().files.push(untracked_entry(path)) =~= seq![untracked_entry(path)]);
}

proof fn lemma_first_char(s: Seq<char>, c: char, n: int, i: int)
    requires
        0 <= i <= n < s.len(),
        s[n] == c,
        forall|j: int| 0 <= j < n ==> s[j] != c,
    ensures
        find_char_from(s, c, i) == Some(n),
    decreases n - i,
{
    if i < n {
        lemma_first_char(s, c, n, i + 1);
    }
}

proof fn lemma_one_token(t: Seq<char>)
    requires
        t.len() > 0,
        !t.contains('\0'),
    ensures
        status_tokens(t + seq!['\0']) == seq![t],
{
    let s = t + seq!['\0'];
    let n = t.len() as int;
    assert forall|j: int| 0 <= j < n implies s[j] != '\0' by {
        assert(s[j] == t[j]);
    }
    lemma_first_char(s, '\0', n, 0);
    assert(s.subrange(0, n) =~= t);
    assert(find_char_from(s, '\0', n + 1) is None);
    assert(s.subrange(n + 1, n + 1) =~= Seq::<char>::empty());
    assert(split_from(s, '\0', n + 1) =~= seq![Seq::<char>::empty()]);
    assert(split_on(s, '\0') =~= seq![t, Seq::<char>::empty()]);
    let parts = seq![t, Seq::<char>::empty()];
    assert(parts.drop_last() =~= seq![t]);
    assert(seq![t].last() == t);
    assert(seq![t].drop_last() =~= Seq::<Seq<char>>::empty());
    assert(nonempty(Seq::<Seq<char>>::empty()) =~= Seq::<Seq<char>>::empty());
    assert(nonempty(seq![t]) =~= Seq::<Seq<char>>::empty().push(t));
    assert(nonempty(seq![t]) =~= seq![t]);
}

/// The fields joined, each followed by a space.
pub open spec fn spaced(fields: Seq<Seq<char>>) -> Seq<char>
    decreases fields.len(),
{
    if fields.len() == 0 {
        seq![]
    } else {
        fields[0] + seq![' '] + spaced(fields.drop_first())
    }
}

/// Every field is free of spaces and NULs.
pub open spec fn plain_fields(fields: Seq<Seq<char>>) -> bool {
    forall|i: int|
        0 <= i < fields.len() ==> !(#[trigger] fields[i]).contains(' ') && !fields[i].contains('\0')
}

proof fn lemma_after_spaced(fields: Seq<Seq<char>>, path: Seq<char>)
    requires
        plain_fields(fields),
    ensures
        after_fields(spaced(fields) + path, fields.len()) == Some(path),
        !spaced(fields).contains('\0'),
    decreases fields.len(),
{
    if fields.len() == 0 {
        assert(spaced(fields) + path =~= path);
    } else {
        let f0 = fields[0];
        let rest = fields.drop_first();
        assert(plain_fields(rest)) by {
            assert forall|i: int| 0 <= i < rest.len() implies !(#[trigger] rest[i]).contains(' ')
                && !rest[i].contains('\0') by {
                assert(rest[i] == fields[i + 1]);
            }
        }
        lemma_after_spaced(rest, path);
        let s = spaced(fields) + path;
        assert(s =~= f0 + seq![' '] + (spaced(rest) + path));
        assert forall|j: int| 0 <= j < f0.len() implies s[j] != ' ' by {
            assert(s[j] == f0[j]);
        }
        assert(s[f0.len() as int] == ' ');
        lemma_first_char(s, ' ', f0.len() as int, 0);
        assert(s.skip(f0.len() + 1 as int) =~= spaced(rest) + path);
        assert forall|j: int| 0 <= j < spaced(fields).len() implies spaced(fields)[j] != '\0' by {
            let sp = spaced(fields);
            assert(sp =~= f0 + seq![' '] + spaced(rest));
            if j < f0.len() {
                assert(sp[j] == f0[j]);
            } else if j > f0.len() {
                assert(sp[j] == spaced(rest)[j - f0.len() - 1]);
            }
        }
    }
}

/// A report of one changed-entry record `1 XY <six fields> <path>` gives one
/// entry: that path, staged exactly when `X` is not `.`, unstaged exactly when
/// `Y` is not `.`, not untracked, of the kind that `Y` names, or `X` when `Y`
/// is `.`.
pub proof fn law_changed_record(fields: Seq<Seq<char>>, path: Seq<char>)
    requires
        fields.len() == 7,
        fields[0].len() == 2,
        plain_fields(fields),
        !path.contains('\0'),
    ensures
        ({
            let x = fields[0][0];
            let y = fields[0][1];
            status_of(seq!['1', ' '] + spaced(fields) + path + seq!['\0']).files == seq![
                FileView {
                    path,
                    staged: x != '.',
                    unstaged: y != '.',
                    untracked: false,
                    kind: kind_of(
                        if y != '.' {
                            y
                        } else {
                            x
                        },
                    ),
                },
            ]
        }),
{
    let rest = spaced(fields) + path;
    let t = seq!['1', ' '] + rest;
    lemma_after_spaced(fields, path);
    assert(!t.contains('\0')) by {
        assert forall|j: int| 0 <= j < t.len() implies t[j] != '\0' by {
            if j >= 2 {
                let k = j - 2;
                if k < spaced(fields).len() {
                    assert(t[j] == spaced(fields)[k]);
                } else {
                    assert(t[j] == path[k - spaced(fields).len()]);
                }
            }
        }
    }
    assert(seq!['1', ' '] + spaced(fields) + path + seq!['\0'] =~= t + seq!['\0']);
    lemma_one_token(t);
    reveal_strlit("# ");
    reveal_strlit("1 ");
    assert(t.take(2)[0] == '1');
    assert("# "@[0] == '#');
    assert(!has_prefix(t, "# "@));
    assert(t.take(2) =~= "1 "@);
    assert(t.skip(2) =~= rest);
    let f0 = fields[0];
    let sp = spaced(fields);
    assert(sp =~= f0 + seq![' '] + spaced(fields.drop_first()));
    assert(rest[0] == f0[0] && rest[1] == f0[1] && rest[2] == ' ') by {
        assert(rest[0] == sp[0]);
        assert(rest[1] == sp[1]);
        assert(rest[2] == sp[2]);
    }
    assert(!f0.contains(' '));
    assert(rest[0] != ' ' && rest[1] != ' ') by {
        assert(f0[0] != ' ' ==> rest[0] != ' ');
        assert(f0.contains(f0[0]) && f0.contains(f0[1]));
    }
    lemma_first_char(rest, ' ', 2, 0);
    assert(rest.take(2) =~= f0);
    assert(changed_entry(rest, 6) == entry_from_xy(f0, path));
    let ts = seq![t];
    let s1 = StatusView {
        files: empty_status().files.push(changed_entry(t.skip("1 "@.len() as int), 6)),
        ..empty_status()
    };
    assert(apply_records(empty_status(), ts, 0) == apply_records(s1, ts, 1));
    assert(empty_status().files.push(entry_from_xy(f0, path)) =~= seq![entry_from_xy(f0, path)]);
}

} // verus!
