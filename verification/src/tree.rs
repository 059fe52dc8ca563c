//! The file tree of the sidebar: changed paths grouped into folders, and the
//! visible rows of that tree when some folders are collapsed.
use std::collections::HashSet;
use vstd::prelude::*;

use crate::status::FileEntry;
use crate::text::{slice_chars, split, split_on, string_of, views};

verus! {

broadcast use vstd::std_specs::hash::group_hash_axioms;

pub struct TreeNode {
    pub id: usize,
    pub name: String,
    pub path: String,
    pub file: Option<usize>,
    pub children: Vec<TreeNode>,
}

impl TreeNode {
    /// A node is a folder when it has children.
    pub fn is_dir(&self) -> (b: bool)
        ensures
            b == (self.children.len() > 0),
    {
        !self.children.is_empty()
    }
}

/// A path split into segments, with the index of the file it came from.
pub type Entry = (Seq<Seq<char>>, int);

/// The entries of the changed files: each path split at `/`.
pub open spec fn entries_of(files: Seq<FileEntry>) -> Seq<Entry> {
    Seq::new(files.len(), |i: int| (split_on(files[i].path@, '/'), i))
}

/// Some entry begins with segment `name`.
pub open spec fn firsts_contain(es: Seq<Entry>, name: Seq<char>) -> bool {
    exists|k: int| 0 <= k < es.len() && (#[trigger] es[k]).0[0] == name
}

/// Some entry continues below segment `name`.
pub open spec fn is_dir_name(es: Seq<Entry>, name: Seq<char>) -> bool {
    exists|k: int| 0 <= k < es.len() && (#[trigger] es[k]).0.len() > 1 && es[k].0[0] == name
}

/// The file index of the last entry that is exactly `name`.
pub open spec fn leaf_index(es: Seq<Entry>, name: Seq<char>) -> Option<int>
    decreases es.len(),
{
    if es.len() == 0 {
        None
    } else if es.last().0 =~= seq![name] {
        Some(es.last().1)
    } else {
        leaf_index(es.drop_last(), name)
    }
}

/// The entries below segment `name`, with that segment removed, in order.
pub open spec fn sub_entries(es: Seq<Entry>, name: Seq<char>) -> Seq<Entry>
    decreases es.len(),
{
    if es.len() == 0 {
        seq![]
    } else {
        let r = sub_entries(es.drop_last(), name);
        let e = es.last();
        if e.0.len() > 1 && e.0[0] == name {
            r.push((e.0.drop_first(), e.1))
        } else {
            r
        }
    }
}

/// The path of a child named `name` of a folder whose path is `parent`.
pub open spec fn join_path(parent: Seq<char>, name: Seq<char>) -> Seq<char> {
    if parent.len() == 0 {
        name
    } else {
        parent + seq!['/'] + name
    }
}

/// Lexicographic order of texts by character (the byte order of their UTF-8).
pub open spec fn lex_lt(a: Seq<char>, b: Seq<char>) -> bool
    decreases a.len(),
{
    if a.len() == 0 {
        b.len() > 0
    } else if b.len() == 0 {
        false
    } else if a[0] < b[0] {
        true
    } else if a[0] > b[0] {
        false
    } else {
        lex_lt(a.drop_first(), b.drop_first())
    }
}

/// Sidebar order: folders before files, then by name.
pub open spec fn key_before(dir_a: bool, name_a: Seq<char>, dir_b: bool, name_b: Seq<char>) -> bool {
    (dir_a && !dir_b) || (dir_a == dir_b && lex_lt(name_a, name_b))
}

pub open spec fn opt_index(f: Option<usize>) -> Option<int> {
    match f {
        Some(i) => Some(i as int),
        None => None,
    }
}

/// `nodes` is the level of the tree made of the entries `es` inside the folder
/// `parent`: one node for each distinct first segment, with its path, the last
/// file that ends there, its subtree, in sidebar order.
pub open spec fn level_ok(nodes: Seq<TreeNode>, es: Seq<Entry>, parent: Seq<char>) -> bool
    decreases nodes,
{
    &&& forall|k: int|
        0 <= k < nodes.len() ==> {
            &&& firsts_contain(es, (#[trigger] nodes[k]).name@)
            &&& nodes[k].path@ == join_path(parent, nodes[k].name@)
            &&& opt_index(nodes[k].file) == leaf_index(es, nodes[k].name@)
            &&& level_ok(
                nodes[k].children@,
                sub_entries(es, nodes[k].name@),
                nodes[k].path@,
            )
        }
    &&& forall|name: Seq<char>|
        firsts_contain(es, name) ==> exists|k: int|
            0 <= k < nodes.len() && (#[trigger] nodes[k]).name@ == name
    &&& forall|i: int, j: int|
        0 <= i < j < nodes.len() ==> key_before(
            (#[trigger] nodes[i]).children.len() > 0,
            nodes[i].name@,
            (#[trigger] nodes[j]).children.len() > 0,
            nodes[j].name@,
        )
}

/// Number of nodes of a forest.
pub open spec fn forest_size(nodes: Seq<TreeNode>) -> nat
    decreases nodes,
{
    if nodes.len() == 0 {
        0
    } else {
        forest_size(nodes.drop_last()) + 1 + forest_size(nodes.last().children@)
    }
}

/// Ids number the forest in preorder from `start`.
pub open spec fn ids_ok(nodes: Seq<TreeNode>, start: int) -> bool
    decreases nodes,
{
    forall|k: int|
        0 <= k < nodes.len() ==> {
            &&& (#[trigger] nodes[k]).id == start + forest_size(nodes.take(k))
            &&& ids_ok(nodes[k].children@, nodes[k].id + 1)
        }
}

/// Number of path segments in all entries.
pub open spec fn total_segments(es: Seq<Entry>) -> nat
    decreases es.len(),
{
    if es.len() == 0 {
        0
    } else {
        total_segments(es.drop_last()) + es.last().0.len()
    }
}

/// Number of segments in the entries that begin with `name`.
pub open spec fn total_first(es: Seq<Entry>, name: Seq<char>) -> nat
    decreases es.len(),
{
    if es.len() == 0 {
        0
    } else if es.last().0[0] == name {
        total_first(es.drop_last(), name) + es.last().0.len()
    } else {
        total_first(es.drop_last(), name)
    }
}

/// Number of entries that begin with `name`.
pub open spec fn count_first(es: Seq<Entry>, name: Seq<char>) -> nat
    decreases es.len(),
{
    if es.len() == 0 {
        0
    } else if es.last().0[0] == name {
        count_first(es.drop_last(), name) + 1
    } else {
        count_first(es.drop_last(), name)
    }
}

/// `total_first` summed over the names `ns`.
pub open spec fn sum_first(es: Seq<Entry>, ns: Seq<Seq<char>>) -> nat
    decreases ns.len(),
{
    if ns.len() == 0 {
        0
    } else {
        sum_first(es, ns.drop_last()) + total_first(es, ns.last())
    }
}

/// `l` for each name of `ns` equal to `f`.
pub open spec fn hits(ns: Seq<Seq<char>>, f: Seq<char>, l: nat) -> nat
    decreases ns.len(),
{
    if ns.len() == 0 {
        0
    } else if ns.last() == f {
        hits(ns.drop_last(), f, l) + l
    } else {
        hits(ns.drop_last(), f, l)
    }
}

/// Every entry has at least one segment.
pub open spec fn entries_wf(es: Seq<Entry>) -> bool {
    forall|k: int| 0 <= k < es.len() ==> (#[trigger] es[k]).0.len() >= 1
}

proof fn lemma_hits_absent(ns: Seq<Seq<char>>, f: Seq<char>, l: nat)
    requires
        !ns.contains(f),
    ensures
        hits(ns, f, l) == 0,
    decreases ns.len(),
{
    if ns.len() > 0 {
        assert(!ns.drop_last().contains(f)) by {
            if ns.drop_last().contains(f) {
                let i = choose|i: int| 0 <= i < ns.drop_last().len() && ns.drop_last()[i] == f;
                assert(ns[i] == f);
            }
        }
        assert(ns.last() != f) by {
            assert(ns[ns.len() - 1] == ns.last());
        }
        lemma_hits_absent(ns.drop_last(), f, l);
    }
}

proof fn lemma_hits_distinct(ns: Seq<Seq<char>>, f: Seq<char>, l: nat)
    requires
        ns.no_duplicates(),
    ensures
        hits(ns, f, l) <= l,
    decreases ns.len(),
{
    if ns.len() > 0 {
        let p = ns.drop_last();
        assert(p.no_duplicates());
        lemma_hits_distinct(p, f, l);
        if ns.last() == f {
            assert(!p.contains(f)) by {
                if p.contains(f) {
                    let i = choose|i: int| 0 <= i < p.len() && p[i] == f;
                    assert(ns[i] == ns[ns.len() - 1]);
                }
            }
            lemma_hits_absent(p, f, l);
        }
    }
}

proof fn lemma_sum_first_step(es: Seq<Entry>, ns: Seq<Seq<char>>)
    requires
        es.len() > 0,
    ensures
        sum_first(es, ns) == sum_first(es.drop_last(), ns) + hits(
            ns,
            es.last().0[0],
            es.last().0.len(),
        ),
    decreases ns.len(),
{
    if ns.len() > 0 {
        lemma_sum_first_step(es, ns.drop_last());
    }
}

proof fn lemma_sum_first_le(es: Seq<Entry>, ns: Seq<Seq<char>>)
    requires
        ns.no_duplicates(),
    ensures
        sum_first(es, ns) <= total_segments(es),
    decreases es.len(),
{
    if es.len() == 0 {
        lemma_sum_first_empty(es, ns);
    } else {
        lemma_sum_first_le(es.drop_last(), ns);
        lemma_sum_first_step(es, ns);
        lemma_hits_distinct(ns, es.last().0[0], es.last().0.len());
    }
}

proof fn lemma_sum_first_empty(es: Seq<Entry>, ns: Seq<Seq<char>>)
    requires
        es.len() == 0,
    ensures
        sum_first(es, ns) == 0,
    decreases ns.len(),
{
    if ns.len() > 0 {
        lemma_sum_first_empty(es, ns.drop_last());
    }
}

proof fn lemma_total_sub(es: Seq<Entry>, name: Seq<char>)
    requires
        entries_wf(es),
    ensures
        total_segments(sub_entries(es, name)) + count_first(es, name) == total_first(es, name),
        entries_wf(sub_entries(es, name)),
        sub_entries(es, name).len() > 0 <==> is_dir_name(es, name),
        firsts_contain(es, name) ==> count_first(es, name) >= 1,
        total_first(es, name) <= total_segments(es),
    decreases es.len(),
{
    if es.len() > 0 {
        let p = es.drop_last();
        assert(entries_wf(p)) by {
            assert forall|k: int| 0 <= k < p.len() implies (#[trigger] p[k]).0.len() >= 1 by {
                assert(p[k] == es[k]);
            }
        }
        lemma_total_sub(p, name);
        let e = es.last();
        assert(e == es[es.len() - 1]);
        assert(e.0.len() >= 1);
        let r = sub_entries(p, name);
        if e.0.len() > 1 && e.0[0] == name {
            let s = r.push((e.0.drop_first(), e.1));
            assert(s.drop_last() =~= r);
            assert(entries_wf(s)) by {
                assert forall|k: int| 0 <= k < s.len() implies (#[trigger] s[k]).0.len() >= 1 by {
                    if k < r.len() {
                        assert(s[k] == r[k]);
                    }
                }
            }
            assert(is_dir_name(es, name)) by {
                assert(es[es.len() - 1].0.len() > 1);
            }
        } else {
            assert(is_dir_name(es, name) <==> is_dir_name(p, name)) by {
                if is_dir_name(es, name) {
                    let k = choose|k: int|
                        0 <= k < es.len() && (#[trigger] es[k]).0.len() > 1 && es[k].0[0] == name;
                    assert(k < p.len());
                    assert(p[k] == es[k]);
                }
                if is_dir_name(p, name) {
                    let k = choose|k: int|
                        0 <= k < p.len() && (#[trigger] p[k]).0.len() > 1 && p[k].0[0] == name;
                    assert(es[k] == p[k]);
                }
            }
        }
        if firsts_contain(es, name) {
            if e.0[0] != name {
                let k = choose|k: int| 0 <= k < es.len() && (#[trigger] es[k]).0[0] == name;
                assert(k < p.len());
                assert(p[k] == es[k]);
                assert(firsts_contain(p, name));
            }
        }
    }
}

proof fn lemma_lex_irreflexive(a: Seq<char>)
    ensures
        !lex_lt(a, a),
    decreases a.len(),
{
    if a.len() > 0 {
        lemma_lex_irreflexive(a.drop_first());
    }
}

proof fn lemma_lex_total(a: Seq<char>, b: Seq<char>)
    ensures
        a != b ==> lex_lt(a, b) || lex_lt(b, a),
        !(lex_lt(a, b) && lex_lt(b, a)),
    decreases a.len(),
{
    if a.len() > 0 && b.len() > 0 {
        lemma_lex_total(a.drop_first(), b.drop_first());
        if a[0] == b[0] && a != b {
            assert(a.drop_first() != b.drop_first()) by {
                if a.drop_first() == b.drop_first() {
                    assert(a =~= seq![a[0]] + a.drop_first());
                    assert(b =~= seq![b[0]] + b.drop_first());
                }
            }
        }
    } else if a.len() == 0 && b.len() == 0 {
        assert(a =~= b);
    }
}

proof fn lemma_lex_transitive(a: Seq<char>, b: Seq<char>, c: Seq<char>)
    requires
        lex_lt(a, b),
        lex_lt(b, c),
    ensures
        lex_lt(a, c),
    decreases a.len(),
{
    if a.len() > 0 && b.len() > 0 && c.len() > 0 {
        if a[0] == b[0] && b[0] == c[0] {
            lemma_lex_transitive(a.drop_first(), b.drop_first(), c.drop_first());
        }
    }
}

proof fn lemma_key_total(da: bool, a: Seq<char>, db: bool, b: Seq<char>)
    requires
        a != b,
    ensures
        key_before(da, a, db, b) || key_before(db, b, da, a),
        !(key_before(da, a, db, b) && key_before(db, b, da, a)),
{
    lemma_lex_total(a, b);
}

proof fn lemma_key_transitive(
    da: bool,
    a: Seq<char>,
    db: bool,
    b: Seq<char>,
    dc: bool,
    c: Seq<char>,
)
    requires
        key_before(da, a, db, b),
        key_before(db, b, dc, c),
    ensures
        key_before(da, a, dc, c),
{
    if da == db && db == dc {
        lemma_lex_transitive(a, b, c);
    }
}

/// Whether `a` and `b` hold the same characters.
fn eq_chars(a: &[char], b: &[char]) -> (r: bool)
    ensures
        r == (a@ == b@),
{
    if a.len() != b.len() {
        return false;
    }
    let mut i: usize = 0;
    while i < a.len()
        invariant
            a.len() == b.len(),
            i <= a.len(),
            forall|j: int| 0 <= j < i ==> a@[j] == b@[j],
        decreases a.len() - i,
    {
        if a[i] != b[i] {
            return false;
        }
        i += 1;
    }
    assert(a@ =~= b@);
    true
}

/// Whether `a` sorts before `b`.
fn lex_less(a: &[char], b: &[char]) -> (r: bool)
    ensures
        r == lex_lt(a@, b@),
{
    let mut i: usize = 0;
    assert(a@.skip(0) =~= a@);
    assert(b@.skip(0) =~= b@);
    while i < a.len() && i < b.len()
        invariant
            i <= a.len(),
            i <= b.len(),
            lex_lt(a@, b@) == lex_lt(a@.skip(i as int), b@.skip(i as int)),
        decreases a.len() - i,
    {
        let x = a[i];
        let y = b[i];
        assert(a@.skip(i as int)[0] == a@[i as int]);
        assert(b@.skip(i as int)[0] == b@[i as int]);
        if x < y {
            return true;
        }
        if x > y {
            return false;
        }
        assert(a@.skip(i as int).drop_first() =~= a@.skip(i + 1));
        assert(b@.skip(i as int).drop_first() =~= b@.skip(i + 1));
        i += 1;
    }
    i == a.len() && i < b.len()
}

pub open spec fn entries_view(v: Seq<(Vec<Vec<char>>, usize)>) -> Seq<Entry> {
    v.map_values(|e: (Vec<Vec<char>>, usize)| (views(e.0@), e.1 as int))
}

pub open spec fn item_view(x: (Vec<char>, bool)) -> (Seq<char>, bool) {
    (x.0@, x.1)
}

pub open spec fn items_view(v: Seq<(Vec<char>, bool)>) -> Seq<(Seq<char>, bool)> {
    v.map_values(|x: (Vec<char>, bool)| item_view(x))
}

pub open spec fn item_names(v: Seq<(Seq<char>, bool)>) -> Seq<Seq<char>> {
    v.map_values(|x: (Seq<char>, bool)| x.0)
}

/// The items are in sidebar order, each strictly before the next.
pub open spec fn items_sorted(v: Seq<(Seq<char>, bool)>) -> bool {
    forall|i: int, j: int|
        0 <= i < j < v.len() ==> key_before(
            (#[trigger] v[i]).1,
            v[i].0,
            (#[trigger] v[j]).1,
            v[j].0,
        )
}

/// The items have distinct names.
pub open spec fn names_distinct(v: Seq<(Seq<char>, bool)>) -> bool {
    forall|i: int, j: int| 0 <= i < j < v.len() ==> (#[trigger] v[i]).0 != (#[trigger] v[j]).0
}

/// The items in sidebar order (insertion sort).
fn sort_items(items: Vec<(Vec<char>, bool)>) -> (out: Vec<(Vec<char>, bool)>)
    requires
        names_distinct(items_view(items@)),
    ensures
        out.len() == items.len(),
        items_sorted(items_view(out@)),
        forall|x: (Seq<char>, bool)|
            items_view(out@).contains(x) <==> items_view(items@).contains(x),
{
    let ghost orig = items_view(items@);
    let mut rest = items;
    let mut out: Vec<(Vec<char>, bool)> = Vec::new();
    while rest.len() > 0
        invariant
            orig.len() == rest.len() + out.len(),
            items_view(rest@) == orig.take(rest.len() as int),
            names_distinct(orig),
            items_sorted(items_view(out@)),
            forall|x: (Seq<char>, bool)|
                items_view(out@).contains(x) <==> orig.skip(rest.len() as int).contains(x),
        decreases rest.len(),
    {
        let ghost m = rest.len() as int;
        let ghost old_rest = rest@;
        let x = rest.pop().unwrap();
        let ghost xv = item_view(x);
        assert(items_view(old_rest)[m - 1] == item_view(old_rest[m - 1]));
        assert(orig.take(m)[m - 1] == orig[m - 1]);
        assert(xv == orig[m - 1]);
        assert(items_view(rest@) =~= orig.take(m - 1));
        let ghost ov = items_view(out@);
        assert(forall|i: int| 0 <= i < ov.len() ==> ov[i].0 != xv.0) by {
            assert forall|i: int| 0 <= i < ov.len() implies ov[i].0 != xv.0 by {
                assert(ov.contains(ov[i]));
                assert(orig.skip(m).contains(ov[i]));
                let t = choose|t: int| 0 <= t < orig.skip(m).len() && orig.skip(m)[t] == ov[i];
                assert(orig[m + t] == ov[i]);
                assert(orig[m - 1] != orig[m + t]);
            }
        }
        let mut pos: usize = 0;
        let mut found = false;
        while pos < out.len() && !found
            invariant
                pos <= out.len(),
                ov == items_view(out@),
                xv == item_view(x),
                forall|i: int| 0 <= i < pos ==> !key_before(xv.1, xv.0, ov[i].1, ov[i].0),
                found ==> pos < ov.len() && key_before(xv.1, xv.0, ov[pos as int].1, ov[pos as int].0),
            decreases out.len() - pos, if found { 0int } else { 1int },
        {
            let before = if x.1 && !out[pos].1 {
                true
            } else if x.1 == out[pos].1 {
                lex_less(x.0.as_slice(), out[pos].0.as_slice())
            } else {
                false
            };
            assert(ov[pos as int] == item_view(out@[pos as int]));
            assert(before == key_before(xv.1, xv.0, ov[pos as int].1, ov[pos as int].0));
            if before {
                found = true;
            } else {
                pos += 1;
            }
        }
        proof {
            assert forall|i: int| 0 <= i < pos implies key_before(ov[i].1, ov[i].0, xv.1, xv.0) by {
                lemma_key_total(ov[i].1, ov[i].0, xv.1, xv.0);
            }
            if pos < ov.len() {
                assert forall|i: int| pos <= i < ov.len() implies key_before(
                    xv.1,
                    xv.0,
                    ov[i].1,
                    ov[i].0,
                ) by {
                    if i > pos {
                        lemma_key_transitive(xv.1, xv.0, ov[pos as int].1, ov[pos as int].0, ov[i].1, ov[i].0);
                    }
                }
            }
        }
        out.insert(pos, x);
        proof {
            let nv = items_view(out@);
            let s1 = orig.skip(m - 1);
            let s0 = orig.skip(m);
            assert(nv =~= ov.insert(pos as int, xv));
            assert(s1 =~= seq![xv] + s0);
            assert forall|y: (Seq<char>, bool)| nv.contains(y) <==> s1.contains(y) by {
                if nv.contains(y) {
                    let t = choose|t: int| 0 <= t < nv.len() && nv[t] == y;
                    if t < pos {
                        assert(ov[t] == y);
                        assert(ov.contains(y));
                    } else if t > pos {
                        assert(ov[t - 1] == y);
                        assert(ov.contains(y));
                    }
                    if y != xv {
                        assert(s0.contains(y));
                        let u = choose|u: int| 0 <= u < s0.len() && s0[u] == y;
                        assert(s1[u + 1] == y);
                    } else {
                        assert(s1[0] == y);
                    }
                }
                if s1.contains(y) {
                    let t = choose|t: int| 0 <= t < s1.len() && s1[t] == y;
                    if t == 0 {
                        assert(nv[pos as int] == y);
                    } else {
                        assert(s0[t - 1] == y);
                        assert(s0.contains(y));
                        assert(ov.contains(y));
                        let u = choose|u: int| 0 <= u < ov.len() && ov[u] == y;
                        if u < pos {
                            assert(nv[u] == y);
                        } else {
                            assert(nv[u + 1] == y);
                        }
                    }
                }
            }
            assert forall|i: int, j: int| 0 <= i < j < nv.len() implies key_before(
                (#[trigger] nv[i]).1,
                nv[i].0,
                (#[trigger] nv[j]).1,
                nv[j].0,
            ) by {
                if j < pos {
                    assert(nv[i] == ov[i] && nv[j] == ov[j]);
                } else if j == pos {
                    assert(nv[i] == ov[i]);
                } else if i == pos {
                    assert(nv[j] == ov[j - 1]);
                } else if i < pos {
                    assert(nv[i] == ov[i] && nv[j] == ov[j - 1]);
                } else {
                    assert(nv[i] == ov[i - 1] && nv[j] == ov[j - 1]);
                }
            }
        }
    }
    assert(orig.skip(0) =~= orig);
    out
}

fn copy_chars(v: &Vec<char>) -> (out: Vec<char>)
    ensures
        out@ == v@,
{
    slice_chars(v.as_slice(), 0, v.len())
}

/// The distinct first segments of the entries, each with whether some entry
/// continues below it.
fn level_items(es: &Vec<(Vec<Vec<char>>, usize)>) -> (items: Vec<(Vec<char>, bool)>)
    requires
        entries_wf(entries_view(es@)),
    ensures
        names_distinct(items_view(items@)),
        forall|j: int|
            0 <= j < items.len() ==> firsts_contain(
                entries_view(es@),
                (#[trigger] items_view(items@)[j]).0,
            ) && items_view(items@)[j].1 == is_dir_name(entries_view(es@), items_view(items@)[j].0),
        forall|name: Seq<char>|
            firsts_contain(entries_view(es@), name) ==> exists|j: int|
                0 <= j < items.len() && (#[trigger] items_view(items@)[j]).0 == name,
{
    let ghost e = entries_view(es@);
    let mut items: Vec<(Vec<char>, bool)> = Vec::new();
    let mut k: usize = 0;
    while k < es.len()
        invariant
            e == entries_view(es@),
            entries_wf(e),
            k <= es.len(),
            names_distinct(items_view(items@)),
            forall|j: int|
                0 <= j < items.len() ==> firsts_contain(
                    e.take(k as int),
                    (#[trigger] items_view(items@)[j]).0,
                ) && items_view(items@)[j].1 == is_dir_name(e.take(k as int), items_view(items@)[j].0),
            forall|m: int|
                #![trigger e[m]]
                0 <= m < k ==> exists|j: int|
                    0 <= j < items.len() && (#[trigger] items_view(items@)[j]).0 == e[m].0[0],
        decreases es.len() - k,
    {
        let ghost iv = items_view(items@);
        let ghost ek = e[k as int];
        assert(ek == (views(es@[k as int].0@), es@[k as int].1 as int));
        assert(ek.0.len() >= 1);
        let segs = &es[k].0;
        assert(segs@[0]@ == ek.0[0]);
        let deep = segs.len() > 1;
        let mut j: usize = 0;
        let mut found = false;
        while j < items.len() && !found
            invariant
                j <= items.len(),
                iv == items_view(items@),
                segs.len() >= 1,
                forall|t: int| 0 <= t < j ==> iv[t].0 != segs@[0]@,
                found ==> j < items.len() && iv[j as int].0 == segs@[0]@,
            decreases items.len() - j, if found { 0int } else { 1int },
        {
            assert(iv[j as int] == item_view(items@[j as int]));
            if eq_chars(items[j].0.as_slice(), segs[0].as_slice()) {
                found = true;
            } else {
                j += 1;
            }
        }
        let ghost t1 = e.take(k + 1);
        assert(t1.drop_last() =~= e.take(k as int));
        assert(t1.last() == ek);
        assert(t1[k as int] == ek);
        assert forall|name: Seq<char>|
            firsts_contain(e.take(k as int), name) implies firsts_contain(t1, name) by {
            let w = choose|w: int| 0 <= w < k && (#[trigger] e.take(k as int)[w]).0[0] == name;
            assert(t1[w] == e.take(k as int)[w]);
        }
        assert forall|name: Seq<char>|
            is_dir_name(t1, name) <==> (is_dir_name(e.take(k as int), name) || (ek.0.len() > 1
                && ek.0[0] == name)) by {
            if is_dir_name(t1, name) {
                let w = choose|w: int|
                    0 <= w < t1.len() && (#[trigger] t1[w]).0.len() > 1 && t1[w].0[0] == name;
                if w < k {
                    assert(e.take(k as int)[w] == t1[w]);
                }
            }
            if is_dir_name(e.take(k as int), name) {
                let w = choose|w: int|
                    0 <= w < k && (#[trigger] e.take(k as int)[w]).0.len() > 1 && e.take(
                        k as int,
                    )[w].0[0] == name;
                assert(t1[w] == e.take(k as int)[w]);
            }
        }
        assert(firsts_contain(t1, ek.0[0]));
        if found {
            if deep {
                let name = copy_chars(&items[j].0);
                items.set(j, (name, true));
                proof {
                    let nv = items_view(items@);
                    assert(nv =~= iv.update(j as int, (iv[j as int].0, true)));
                    assert forall|a: int, b: int| 0 <= a < b < nv.len() implies (#[trigger] nv[a]).0
                        != (#[trigger] nv[b]).0 by {
                        assert(iv[a].0 != iv[b].0);
                    }
                }
            }
        } else {
            let name = copy_chars(&segs[0]);
            items.push((name, deep));
            proof {
                let nv = items_view(items@);
                assert(nv =~= iv.push((ek.0[0], deep)));
                assert forall|a: int, b: int| 0 <= a < b < nv.len() implies (#[trigger] nv[a]).0
                    != (#[trigger] nv[b]).0 by {
                    if b < iv.len() {
                        assert(iv[a].0 != iv[b].0);
                    } else {
                        assert(iv[a].0 != segs@[0]@);
                    }
                }
            }
        }
        proof {
            let nv = items_view(items@);
            assert forall|m: int| #![trigger e[m]] 0 <= m < k + 1 implies exists|jj: int|
                0 <= jj < items.len() && (#[trigger] nv[jj]).0 == e[m].0[0] by {
                if m < k {
                    let jj = choose|jj: int| 0 <= jj < iv.len() && (#[trigger] iv[jj]).0 == e[m].0[0];
                    assert(nv[jj].0 == iv[jj].0);
                } else {
                    if found {
                        assert(nv[j as int].0 == e[m].0[0]);
                    } else {
                        assert(nv[iv.len() as int].0 == e[m].0[0]);
                    }
                }
            }
            assert forall|jj: int| 0 <= jj < items.len() implies firsts_contain(
                t1,
                (#[trigger] nv[jj]).0,
            ) && nv[jj].1 == is_dir_name(t1, nv[jj].0) by {
                if jj < iv.len() && !(found && jj == j) {
                    assert(nv[jj] == iv[jj]);
                    if ek.0.len() > 1 && ek.0[0] == nv[jj].0 {
                        assert(false);
                    }
                }
            }
        }
        k += 1;
    }
    assert(e.take(k as int) =~= e);
    items
}

/// The file index of the last entry that is exactly `name`.
fn last_leaf(es: &Vec<(Vec<Vec<char>>, usize)>, name: &Vec<char>) -> (out: Option<usize>)
    ensures
        opt_index(out) == leaf_index(entries_view(es@), name@),
{
    let ghost e = entries_view(es@);
    let mut out: Option<usize> = None;
    let mut k: usize = 0;
    while k < es.len()
        invariant
            e == entries_view(es@),
            k <= es.len(),
            opt_index(out) == leaf_index(e.take(k as int), name@),
        decreases es.len() - k,
    {
        let ghost t1 = e.take(k + 1);
        assert(t1.drop_last() =~= e.take(k as int));
        assert(t1.last() == e[k as int]);
        let segs = &es[k].0;
        if segs.len() == 1 && eq_chars(segs[0].as_slice(), name.as_slice()) {
            assert(views(segs@) =~= seq![name@]);
            out = Some(es[k].1);
        } else {
            proof {
                if views(segs@) =~= seq![name@] {
                    assert(views(segs@).len() == 1);
                    assert(views(segs@)[0] == segs@[0]@);
                }
            }
        }
        k += 1;
    }
    assert(e.take(k as int) =~= e);
    out
}

/// The segments after the first.
fn tail_segments(segs: &Vec<Vec<char>>) -> (out: Vec<Vec<char>>)
    requires
        segs.len() >= 1,
    ensures
        views(out@) == views(segs@).drop_first(),
{
    let mut out: Vec<Vec<char>> = Vec::new();
    let mut i: usize = 1;
    while i < segs.len()
        invariant
            1 <= i <= segs.len(),
            views(out@) == views(segs@).subrange(1, i as int),
        decreases segs.len() - i,
    {
        let c = copy_chars(&segs[i]);
        let ghost before = views(out@);
        out.push(c);
        assert(views(out@) =~= before.push(c@));
        assert(views(segs@)[i as int] == segs@[i as int]@);
        assert(views(out@) =~= views(segs@).subrange(1, i + 1));
        i += 1;
    }
    assert(views(segs@).subrange(1, segs.len() as int) =~= views(segs@).drop_first());
    out
}

/// The entries below `name`, without their first segment.
fn entries_below(es: &Vec<(Vec<Vec<char>>, usize)>, name: &Vec<char>) -> (out: Vec<
    (Vec<Vec<char>>, usize),
>)
    ensures
        entries_view(out@) == sub_entries(entries_view(es@), name@),
{
    let ghost e = entries_view(es@);
    let mut out: Vec<(Vec<Vec<char>>, usize)> = Vec::new();
    let mut k: usize = 0;
    assert(entries_view(out@) =~= Seq::<Entry>::empty());
    while k < es.len()
        invariant
            e == entries_view(es@),
            k <= es.len(),
            entries_view(out@) == sub_entries(e.take(k as int), name@),
        decreases es.len() - k,
    {
        let ghost t1 = e.take(k + 1);
        assert(t1.drop_last() =~= e.take(k as int));
        assert(t1.last() == e[k as int]);
        let segs = &es[k].0;
        if segs.len() > 1 && eq_chars(segs[0].as_slice(), name.as_slice()) {
            let tail = tail_segments(segs);
            let ghost before = entries_view(out@);
            out.push((tail, es[k].1));
            assert(entries_view(out@) =~= before.push((views(segs@).drop_first(), es@[k as int].1 as int)));
        }
        k += 1;
    }
    assert(e.take(k as int) =~= e);
    out
}

/// The path of a child `name` of the folder `parent`.
fn join(parent: &Vec<char>, name: &Vec<char>) -> (out: Vec<char>)
    ensures
        out@ == join_path(parent@, name@),
{
    if parent.len() == 0 {
        return copy_chars(name);
    }
    let mut out = copy_chars(parent);
    out.push('/');
    let mut i: usize = 0;
    let ghost base = out@;
    while i < name.len()
        invariant
            i <= name.len(),
            out@ == base + name@.take(i as int),
        decreases name.len() - i,
    {
        out.push(name[i]);
        assert(out@ =~= base + name@.take(i + 1));
        i += 1;
    }
    assert(name@.take(name.len() as int) =~= name@);
    assert(out@ =~= parent@ + seq!['/'] + name@);
    out
}

proof fn lemma_level_empty(nodes: Seq<TreeNode>, es: Seq<Entry>, parent: Seq<char>)
    requires
        level_ok(nodes, es, parent),
        entries_wf(es),
    ensures
        nodes.len() > 0 <==> es.len() > 0,
{
    if es.len() > 0 {
        assert(firsts_contain(es, es[0].0[0]));
    }
    if nodes.len() > 0 {
        assert(firsts_contain(es, nodes[0].name@));
    }
}

proof fn lemma_sum_first_prefix(es: Seq<Entry>, ns: Seq<Seq<char>>, j: int)
    requires
        0 <= j <= ns.len(),
    ensures
        sum_first(es, ns.take(j)) <= sum_first(es, ns),
    decreases ns.len(),
{
    if j < ns.len() {
        lemma_sum_first_prefix(es, ns.drop_last(), j);
        assert(ns.drop_last().take(j) =~= ns.take(j));
    } else {
        assert(ns.take(j) =~= ns);
    }
}

proof fn lemma_size_push(nodes: Seq<TreeNode>, n: TreeNode)
    ensures
        forest_size(nodes.push(n)) == forest_size(nodes) + 1 + forest_size(n.children@),
        forall|m: int| 0 <= m <= nodes.len() ==> #[trigger] nodes.push(n).take(m) == nodes.take(m),
{
    assert(nodes.push(n).drop_last() =~= nodes);
    assert forall|m: int| 0 <= m <= nodes.len() implies #[trigger] nodes.push(n).take(m)
        == nodes.take(m) by {
        assert(nodes.push(n).take(m) =~= nodes.take(m));
    }
}

/// The level of the tree that the entries `es` make inside the folder
/// `parent`, numbered in preorder from `*next`.
fn build_level(es: &Vec<(Vec<Vec<char>>, usize)>, parent: &Vec<char>, next: &mut usize) -> (nodes:
    Vec<TreeNode>)
    requires
        entries_wf(entries_view(es@)),
        *old(next) + total_segments(entries_view(es@)) <= usize::MAX,
    ensures
        level_ok(nodes@, entries_view(es@), parent@),
        ids_ok(nodes@, *old(next) as int),
        *final(next) == *old(next) + forest_size(nodes@),
        forest_size(nodes@) <= total_segments(entries_view(es@)),
    decreases total_segments(entries_view(es@)),
{
    let ghost e = entries_view(es@);
    let ghost start = *next as int;
    let items = level_items(es);
    let ghost unsorted = items_view(items@);
    let order = sort_items(items);
    let ghost ov = items_view(order@);
    let ghost ns = item_names(ov);
    proof {
        assert forall|j: int| 0 <= j < ov.len() implies firsts_contain(e, (#[trigger] ov[j]).0)
            && ov[j].1 == is_dir_name(e, ov[j].0) by {
            assert(ov.contains(ov[j]));
            assert(unsorted.contains(ov[j]));
            let t = choose|t: int| 0 <= t < unsorted.len() && unsorted[t] == ov[j];
            assert(unsorted[t] == items_view(items@)[t]);
        }
        assert forall|name: Seq<char>| firsts_contain(e, name) implies exists|j: int|
            0 <= j < ov.len() && (#[trigger] ov[j]).0 == name by {
            let t = choose|t: int| 0 <= t < unsorted.len() && (#[trigger] unsorted[t]).0 == name;
            assert(unsorted.contains(unsorted[t]));
            assert(ov.contains(unsorted[t]));
            let j = choose|j: int| 0 <= j < ov.len() && ov[j] == unsorted[t];
            assert(ov[j].0 == name);
        }
        assert(ns.no_duplicates()) by {
            assert forall|a: int, b: int| 0 <= a < ns.len() && 0 <= b < ns.len() && a != b implies ns[a]
                != ns[b] by {
                if ns[a] == ns[b] {
                    assert(ov.contains(ov[a]));
                    assert(ov.contains(ov[b]));
                    let ta = choose|t: int| 0 <= t < unsorted.len() && unsorted[t] == ov[a];
                    let tb = choose|t: int| 0 <= t < unsorted.len() && unsorted[t] == ov[b];
                    if ta < tb {
                        assert(unsorted[ta].0 != unsorted[tb].0);
                    } else if tb < ta {
                        assert(unsorted[tb].0 != unsorted[ta].0);
                    }
                    lemma_lex_irreflexive(ov[a].0);
                    if a < b {
                        assert(key_before(ov[a].1, ov[a].0, ov[b].1, ov[b].0));
                    } else {
                        assert(key_before(ov[b].1, ov[b].0, ov[a].1, ov[a].0));
                    }
                }
            }
        }
        lemma_sum_first_le(e, ns);
    }
    let mut nodes: Vec<TreeNode> = Vec::new();
    let mut j: usize = 0;
    while j < order.len()
        invariant
            e == entries_view(es@),
            entries_wf(e),
            ov == items_view(order@),
            ns == item_names(ov),
            ns.len() == ov.len(),
            sum_first(e, ns) <= total_segments(e),
            start + total_segments(e) <= usize::MAX,
            j <= order.len(),
            nodes.len() == j,
            forall|t: int| 0 <= t < ov.len() ==> firsts_contain(e, (#[trigger] ov[t]).0)
                && ov[t].1 == is_dir_name(e, ov[t].0),
            forall|k: int|
                0 <= k < nodes.len() ==> {
                    &&& (#[trigger] nodes@[k]).name@ == ov[k].0
                    &&& (nodes@[k].children.len() > 0) == ov[k].1
                    &&& firsts_contain(e, nodes@[k].name@)
                    &&& nodes@[k].path@ == join_path(parent@, nodes@[k].name@)
                    &&& opt_index(nodes@[k].file) == leaf_index(e, nodes@[k].name@)
                    &&& level_ok(
                        nodes@[k].children@,
                        sub_entries(e, nodes@[k].name@),
                        nodes@[k].path@,
                    )
                    &&& nodes@[k].id == start + forest_size(nodes@.take(k))
                    &&& ids_ok(nodes@[k].children@, nodes@[k].id + 1)
                },
            *next == start + forest_size(nodes@),
            forest_size(nodes@) <= sum_first(e, ns.take(j as int)),
        decreases order.len() - j,
    {
        let name = &order[j].0;
        let ghost nm = name@;
        assert(ov[j as int] == item_view(order@[j as int]));
        assert(ns[j as int] == nm);
        proof {
            lemma_total_sub(e, nm);
            lemma_sum_first_prefix(e, ns, j + 1);
            assert(ns.take(j + 1).drop_last() =~= ns.take(j as int));
            assert(ns.take(j + 1).last() == nm);
        }
        let id = *next;
        *next = *next + 1;
        let path = join(parent, name);
        let file = last_leaf(es, name);
        let sub = entries_below(es, name);
        let children = build_level(&sub, &path, next);
        proof {
            lemma_level_empty(children@, sub_entries(e, nm), path@);
        }
        let node = TreeNode {
            id,
            name: string_of(name.as_slice()),
            path: string_of(path.as_slice()),
            file,
            children,
        };
        let ghost before = nodes@;
        proof {
            lemma_size_push(before, node);
        }
        nodes.push(node);
        proof {
            assert(nodes@ == before.push(node));
            assert(nodes@[j as int] == node);
            assert forall|k: int| 0 <= k < nodes.len() implies {
                &&& (#[trigger] nodes@[k]).name@ == ov[k].0
                &&& (nodes@[k].children.len() > 0) == ov[k].1
                &&& firsts_contain(e, nodes@[k].name@)
                &&& nodes@[k].path@ == join_path(parent@, nodes@[k].name@)
                &&& opt_index(nodes@[k].file) == leaf_index(e, nodes@[k].name@)
                &&& level_ok(
                    nodes@[k].children@,
                    sub_entries(e, nodes@[k].name@),
                    nodes@[k].path@,
                )
                &&& nodes@[k].id == start + forest_size(nodes@.take(k))
                &&& ids_ok(nodes@[k].children@, nodes@[k].id + 1)
            } by {
                if k < j {
                    assert(nodes@[k] == before[k]);
                    assert(nodes@.take(k) == before.take(k));
                } else {
                    assert(nodes@.take(k) == before.take(k));
                    assert(before.take(k) =~= before);
                }
            }
        }
        j += 1;
    }
    proof {
        assert(nodes@.len() == ov.len());
        assert forall|name: Seq<char>| firsts_contain(e, name) implies exists|k: int|
            0 <= k < nodes@.len() && (#[trigger] nodes@[k]).name@ == name by {
            let t = choose|t: int| 0 <= t < ov.len() && (#[trigger] ov[t]).0 == name;
            assert(nodes@[t].name@ == name);
        }
        assert forall|a: int, b: int| 0 <= a < b < nodes@.len() implies key_before(
            (#[trigger] nodes@[a]).children.len() > 0,
            nodes@[a].name@,
            (#[trigger] nodes@[b]).children.len() > 0,
            nodes@[b].name@,
        ) by {
            assert(key_before(ov[a].1, ov[a].0, ov[b].1, ov[b].0));
        }
        assert(ns.take(j as int) =~= ns);
    }
    nodes
}

proof fn lemma_split_nonempty(s: Seq<char>, c: char)
    ensures
        split_on(s, c).len() >= 1,
{
    reveal_with_fuel(crate::text::split_from, 2);
}

/// The entries of `files`, built at run time.
fn file_entries(files: &[FileEntry]) -> (es: Vec<(Vec<Vec<char>>, usize)>)
    ensures
        entries_view(es@) == entries_of(files@),
        entries_wf(entries_view(es@)),
{
    let mut es: Vec<(Vec<Vec<char>>, usize)> = Vec::new();
    let mut i: usize = 0;
    while i < files.len()
        invariant
            i <= files.len(),
            entries_view(es@) == entries_of(files@).take(i as int),
        decreases files.len() - i,
    {
        let chars = crate::text::chars_of(files[i].path.as_str());
        let segs = split(chars.as_slice(), '/');
        let ghost before = entries_view(es@);
        let ghost sv = views(segs@);
        es.push((segs, i));
        assert(entries_view(es@) =~= before.push((sv, i as int)));
        assert(entries_of(files@)[i as int] == (sv, i as int));
        assert(entries_view(es@) =~= entries_of(files@).take(i + 1));
        i += 1;
    }
    assert(entries_of(files@).take(i as int) =~= entries_of(files@));
    proof {
        let e = entries_of(files@);
        assert forall|k: int| 0 <= k < e.len() implies (#[trigger] e[k]).0.len() >= 1 by {
            lemma_split_nonempty(files@[k].path@, '/');
        }
    }
    es
}

/// Whether the paths of `files` have few enough segments in all to number
/// every node of their tree.
pub fn segments_fit(files: &[FileEntry]) -> (b: bool)
    ensures
        b == (total_segments(entries_of(files@)) <= usize::MAX),
{
    let es = file_entries(files);
    let ghost e = entries_view(es@);
    let mut total: usize = 0;
    let mut k: usize = 0;
    while k < es.len()
        invariant
            e == entries_view(es@),
            e == entries_of(files@),
            k <= es.len(),
            total == total_segments(e.take(k as int)),
        decreases es.len() - k,
    {
        let ghost t1 = e.take(k + 1);
        assert(t1.drop_last() =~= e.take(k as int));
        assert(t1.last() == e[k as int]);
        let n = es[k].0.len();
        assert(e[k as int].0.len() == n);
        if total > usize::MAX - n {
            proof {
                lemma_total_prefix(e, k + 1);
            }
            return false;
        }
        total = total + n;
        k += 1;
    }
    assert(e.take(k as int) =~= e);
    true
}

proof fn lemma_total_prefix(es: Seq<Entry>, k: int)
    requires
        0 <= k <= es.len(),
    ensures
        total_segments(es.take(k)) <= total_segments(es),
    decreases es.len(),
{
    if k < es.len() {
        lemma_total_prefix(es.drop_last(), k);
        assert(es.drop_last().take(k) =~= es.take(k));
    } else {
        assert(es.take(k) =~= es);
    }
}

/// The folder tree of the changed files: one node for each distinct path
/// prefix, folders before files and by name at every level, numbered in
/// preorder from 0.
pub fn build(files: &[FileEntry]) -> (forest: Vec<TreeNode>)
    requires
        total_segments(entries_of(files@)) <= usize::MAX,
    ensures
        level_ok(forest@, entries_of(files@), seq![]),
        ids_ok(forest@, 0),
        forest_size(forest@) <= total_segments(entries_of(files@)),
{
    let es = file_entries(files);
    let root: Vec<char> = Vec::new();
    assert(root@ =~= Seq::<char>::empty());
    let mut next: usize = 0;
    build_level(&es, &root, &mut next)
}

#[derive(Clone, Copy, PartialEq, Eq, Debug, Structural)]
pub enum RowKind {
    Dir,
    File { index: usize },
}

#[derive(Clone)]
pub struct Row {
    pub id: usize,
    pub depth: u16,
    pub is_last: bool,
    pub expanded: bool,
    pub kind: RowKind,
    pub path: String,
    pub name: String,
}

pub struct RowView {
    pub id: usize,
    pub depth: u16,
    pub is_last: bool,
    pub expanded: bool,
    pub kind: RowKind,
    pub path: Seq<char>,
    pub name: Seq<char>,
}

impl View for Row {
    type V = RowView;

    open spec fn view(&self) -> RowView {
        RowView {
            id: self.id,
            depth: self.depth,
            is_last: self.is_last,
            expanded: self.expanded,
            kind: self.kind,
            path: self.path@,
            name: self.name@,
        }
    }
}

pub open spec fn rows_view(rows: Seq<Row>) -> Seq<RowView> {
    rows.map_values(|r: Row| r@)
}

/// The row that shows `n` at `depth`.
pub open spec fn row_of(n: TreeNode, depth: int, is_last: bool, collapsed: Set<usize>) -> RowView {
    let dir = n.children.len() > 0;
    RowView {
        id: n.id,
        depth: depth as u16,
        is_last,
        expanded: dir && !collapsed.contains(n.id),
        kind: match n.file {
            Some(i) => if !dir {
                RowKind::File { index: i }
            } else {
                RowKind::Dir
            },
            None => RowKind::Dir,
        },
        path: n.path@,
        name: n.name@,
    }
}

/// The visible rows of `nodes[k..]` at `depth`: each node, then, when it is an
/// expanded folder, the rows of its children one level deeper.
pub open spec fn rows_from(nodes: Seq<TreeNode>, k: int, depth: int, collapsed: Set<usize>) -> Seq<
    RowView,
>
    decreases nodes, nodes.len() - k,
{
    if k < 0 || k >= nodes.len() {
        seq![]
    } else {
        let r = row_of(nodes[k], depth, k == nodes.len() - 1, collapsed);
        let below = if r.expanded {
            rows_from(nodes[k].children@, 0, depth + 1, collapsed)
        } else {
            seq![]
        };
        seq![r] + below + rows_from(nodes, k + 1, depth, collapsed)
    }
}

/// Every expanded folder among the visible rows sits above the deepest level
/// that a row can show.
pub open spec fn depth_fits(nodes: Seq<TreeNode>, k: int, depth: int, collapsed: Set<usize>) -> bool
    decreases nodes, nodes.len() - k,
{
    if k < 0 || k >= nodes.len() {
        true
    } else {
        let r = row_of(nodes[k], depth, k == nodes.len() - 1, collapsed);
        &&& (r.expanded ==> depth < u16::MAX && depth_fits(
            nodes[k].children@,
            0,
            depth + 1,
            collapsed,
        ))
        &&& depth_fits(nodes, k + 1, depth, collapsed)
    }
}

fn walk(nodes: &Vec<TreeNode>, depth: u16, collapsed: &HashSet<usize>, out: &mut Vec<Row>)
    requires
        depth_fits(nodes@, 0, depth as int, collapsed@),
    ensures
        rows_view(final(out)@) == rows_view(old(out)@) + rows_from(nodes@, 0, depth as int, collapsed@),
    decreases nodes@,
{
    let last = if nodes.len() > 0 {
        nodes.len() - 1
    } else {
        0
    };
    let mut i: usize = 0;
    let ghost base = rows_view(out@);
    while i < nodes.len()
        invariant
            i <= nodes.len(),
            last == (if nodes.len() > 0 {
                nodes.len() - 1
            } else {
                0
            }),
            depth_fits(nodes@, i as int, depth as int, collapsed@),
            rows_view(out@) + rows_from(nodes@, i as int, depth as int, collapsed@) == base
                + rows_from(nodes@, 0, depth as int, collapsed@),
        decreases nodes.len() - i,
    {
        let node = &nodes[i];
        let is_dir = node.is_dir();
        let expanded = is_dir && !collapsed.contains(&node.id);
        let kind = match node.file {
            Some(index) => if !is_dir {
                RowKind::File { index }
            } else {
                RowKind::Dir
            },
            None => RowKind::Dir,
        };
        let row = Row {
            id: node.id,
            depth,
            is_last: i == last,
            expanded,
            kind,
            path: node.path.clone(),
            name: node.name.clone(),
        };
        let ghost r = row_of(nodes@[i as int], depth as int, i == nodes.len() - 1, collapsed@);
        assert(row@ == r);
        let ghost before = rows_view(out@);
        out.push(row);
        assert(rows_view(out@) =~= before.push(r));
        if expanded {
            walk(&node.children, depth + 1, collapsed, out);
        }
        assert(rows_from(nodes@, i as int, depth as int, collapsed@) =~= seq![r] + (if r.expanded {
            rows_from(nodes@[i as int].children@, 0, depth + 1, collapsed@)
        } else {
            seq![]
        }) + rows_from(nodes@, i + 1, depth as int, collapsed@));
        assert(rows_view(out@) + rows_from(nodes@, i + 1, depth as int, collapsed@) =~= base
            + rows_from(nodes@, 0, depth as int, collapsed@));
        i += 1;
    }
    assert(rows_from(nodes@, i as int, depth as int, collapsed@) =~= Seq::<RowView>::empty());
    assert(rows_view(out@) =~= base + rows_from(nodes@, 0, depth as int, collapsed@));
}

/// The visible rows of the forest when the folders whose ids are in
/// `collapsed` are folded.
pub fn flatten(forest: &Vec<TreeNode>, collapsed: &HashSet<usize>) -> (rows: Vec<Row>)
    requires
        depth_fits(forest@, 0, 0, collapsed@),
    ensures
        rows_view(rows@) == rows_from(forest@, 0, 0, collapsed@),
{
    let mut rows: Vec<Row> = Vec::new();
    assert(rows_view(rows@) =~= Seq::<RowView>::empty());
    walk(forest, 0, collapsed, &mut rows);
    assert(rows_view(rows@) =~= rows_from(forest@, 0, 0, collapsed@));
    rows
}

/// Every file index in the forest names one of `n` files.
pub open spec fn tree_files_ok(nodes: Seq<TreeNode>, n: nat) -> bool
    decreases nodes,
{
    forall|k: int|
        0 <= k < nodes.len() ==> {
            &&& ((#[trigger] nodes[k]).file matches Some(i) ==> i < n)
            &&& tree_files_ok(nodes[k].children@, n)
        }
}

/// Every file row names one of `n` files.
pub open spec fn rows_files_ok(rows: Seq<RowView>, n: nat) -> bool {
    forall|k: int|
        0 <= k < rows.len() ==> ((#[trigger] rows[k]).kind matches RowKind::File { index } ==> index
            < n)
}

/// Every entry comes from one of `n` files.
pub open spec fn entries_below_n(es: Seq<Entry>, n: nat) -> bool {
    forall|k: int| 0 <= k < es.len() ==> 0 <= (#[trigger] es[k]).1 < n
}

proof fn lemma_leaf_bound(es: Seq<Entry>, name: Seq<char>, n: nat)
    requires
        entries_below_n(es, n),
    ensures
        leaf_index(es, name) matches Some(i) ==> 0 <= i < n,
    decreases es.len(),
{
    if es.len() > 0 {
        assert(es.last() == es[es.len() - 1]);
        let p = es.drop_last();
        assert(entries_below_n(p, n)) by {
            assert forall|k: int| 0 <= k < p.len() implies 0 <= (#[trigger] p[k]).1 < n by {
                assert(p[k] == es[k]);
            }
        }
        lemma_leaf_bound(p, name, n);
    }
}

proof fn lemma_sub_bound(es: Seq<Entry>, name: Seq<char>, n: nat)
    requires
        entries_below_n(es, n),
    ensures
        entries_below_n(sub_entries(es, name), n),
    decreases es.len(),
{
    if es.len() > 0 {
        assert(es.last() == es[es.len() - 1]);
        let p = es.drop_last();
        assert(entries_below_n(p, n)) by {
            assert forall|k: int| 0 <= k < p.len() implies 0 <= (#[trigger] p[k]).1 < n by {
                assert(p[k] == es[k]);
            }
        }
        lemma_sub_bound(p, name, n);
        let r = sub_entries(p, name);
        let e = es.last();
        if e.0.len() > 1 && e.0[0] == name {
            let s = r.push((e.0.drop_first(), e.1));
            assert forall|k: int| 0 <= k < s.len() implies 0 <= (#[trigger] s[k]).1 < n by {
                if k < r.len() {
                    assert(s[k] == r[k]);
                }
            }
        }
    }
}

/// A tree made of entries from `n` files names only those files.
pub proof fn lemma_tree_files(nodes: Seq<TreeNode>, es: Seq<Entry>, parent: Seq<char>, n: nat)
    requires
        level_ok(nodes, es, parent),
        entries_below_n(es, n),
    ensures
        tree_files_ok(nodes, n),
    decreases nodes,
{
    assert forall|k: int| 0 <= k < nodes.len() implies {
        &&& ((#[trigger] nodes[k]).file matches Some(i) ==> i < n)
        &&& tree_files_ok(nodes[k].children@, n)
    } by {
        let nk = nodes[k];
        lemma_leaf_bound(es, nk.name@, n);
        lemma_sub_bound(es, nk.name@, n);
        lemma_tree_files(nk.children@, sub_entries(es, nk.name@), nk.path@, n);
    }
}

/// The rows of a tree that names only `n` files name only those files.
pub proof fn lemma_rows_files(nodes: Seq<TreeNode>, k: int, depth: int, collapsed: Set<usize>, n: nat)
    requires
        tree_files_ok(nodes, n),
    ensures
        rows_files_ok(rows_from(nodes, k, depth, collapsed), n),
    decreases nodes, nodes.len() - k,
{
    if 0 <= k < nodes.len() {
        let nk = nodes[k];
        let r = row_of(nk, depth, k == nodes.len() - 1, collapsed);
        let below = if r.expanded {
            rows_from(nk.children@, 0, depth + 1, collapsed)
        } else {
            seq![]
        };
        if r.expanded {
            lemma_rows_files(nk.children@, 0, depth + 1, collapsed, n);
        }
        lemma_rows_files(nodes, k + 1, depth, collapsed, n);
        let rest = rows_from(nodes, k + 1, depth, collapsed);
        let all = seq![r] + below + rest;
        assert(rows_from(nodes, k, depth, collapsed) == all);
        assert forall|j: int| 0 <= j < all.len() implies ((#[trigger] all[j]).kind matches RowKind::File { index } ==> index < n) by {
            if j == 0 {
            } else if j < 1 + below.len() {
                assert(all[j] == below[j - 1]);
            } else {
                assert(all[j] == rest[j - 1 - below.len()]);
            }
        }
    }
}

/// Whether every expanded folder among the rows of `nodes[k..]` at `depth`
/// sits above the deepest level that a row can show.
fn fits_from(nodes: &Vec<TreeNode>, depth: u16, collapsed: &HashSet<usize>) -> (b: bool)
    ensures
        b == depth_fits(nodes@, 0, depth as int, collapsed@),
    decreases nodes@,
{
    let mut i: usize = 0;
    while i < nodes.len()
        invariant
            i <= nodes.len(),
            depth_fits(nodes@, 0, depth as int, collapsed@) == depth_fits(
                nodes@,
                i as int,
                depth as int,
                collapsed@,
            ),
        decreases nodes.len() - i,
    {
        let node = &nodes[i];
        let expanded = node.is_dir() && !collapsed.contains(&node.id);
        if expanded {
            if depth == u16::MAX {
                return false;
            }
            if !fits_from(&node.children, depth + 1, collapsed) {
                return false;
            }
        }
        i += 1;
    }
    true
}

/// Whether the rows of the forest can show every visible level.
pub fn rows_fit(forest: &Vec<TreeNode>, collapsed: &HashSet<usize>) -> (b: bool)
    ensures
        b == depth_fits(forest@, 0, 0, collapsed@),
{
    fits_from(forest, 0, collapsed)
}

proof fn lemma_size_step(nodes: Seq<TreeNode>, k: int)
    requires
        0 <= k < nodes.len(),
    ensures
        forest_size(nodes.take(k + 1)) == forest_size(nodes.take(k)) + 1 + forest_size(
            nodes[k].children@,
        ),
{
    assert(nodes.take(k + 1).drop_last() =~= nodes.take(k));
    assert(nodes.take(k + 1).last() == nodes[k]);
}

proof fn lemma_rows_ids(nodes: Seq<TreeNode>, k: int, depth: int, start: int)
    requires
        ids_ok(nodes, start),
        0 <= k <= nodes.len(),
    ensures
        rows_from(nodes, k, depth, Set::empty()).len() == forest_size(nodes) - forest_size(
            nodes.take(k),
        ),
        forall|j: int|
            0 <= j < rows_from(nodes, k, depth, Set::empty()).len() ==> (#[trigger] rows_from(
                nodes,
                k,
                depth,
                Set::empty(),
            )[j]).id == start + forest_size(nodes.take(k)) + j,
    decreases nodes, nodes.len() - k,
{
    let none = Set::<usize>::empty();
    if k == nodes.len() {
        assert(nodes.take(k) =~= nodes);
    } else {
        let nk = nodes[k];
        let r = row_of(nk, depth, k == nodes.len() - 1, none);
        lemma_size_step(nodes, k);
        assert(ids_ok(nk.children@, nk.id + 1));
        lemma_rows_ids(nk.children@, 0, depth + 1, nk.id + 1);
        assert(nk.children@.take(0) =~= Seq::<TreeNode>::empty());
        let below = if r.expanded {
            rows_from(nk.children@, 0, depth + 1, none)
        } else {
            seq![]
        };
        if !r.expanded {
            assert(nk.children@.len() == 0);
            assert(forest_size(nk.children@) == 0);
        }
        lemma_rows_ids(nodes, k + 1, depth, start);
        let rest = rows_from(nodes, k + 1, depth, none);
        let all = seq![r] + below + rest;
        assert(rows_from(nodes, k, depth, none) == all);
        assert forall|j: int| 0 <= j < all.len() implies (#[trigger] all[j]).id == start
            + forest_size(nodes.take(k)) + j by {
            if j == 0 {
            } else if j < 1 + below.len() {
                assert(all[j] == below[j - 1]);
            } else {
                assert(all[j] == rest[j - 1 - below.len()]);
            }
        }
    }
}

/// With no folder folded, the rows show each node of a forest numbered in
/// preorder (as `build` numbers it) once, in that order: row `i` shows node
/// `i`.
pub proof fn law_rows_in_preorder(forest: Seq<TreeNode>)
    requires
        ids_ok(forest, 0),
    ensures
        rows_from(forest, 0, 0, Set::empty()).len() == forest_size(forest),
        forall|i: int|
            0 <= i < forest_size(forest) ==> (#[trigger] rows_from(forest, 0, 0, Set::empty())[i]).id
                == i,
{
    lemma_rows_ids(forest, 0, 0, 0);
    assert(forest.take(0) =~= Seq::<TreeNode>::empty());
}

/// Facts on the rows of `nodes[k..]` at `depth`: none sits above `depth`, the
/// first sits at `depth`, the depth grows by one exactly after an open folder
/// and never by more, and the last row is no open folder.
proof fn lemma_depth_steps(nodes: Seq<TreeNode>, k: int, depth: int, collapsed: Set<usize>)
    requires
        0 <= depth <= u16::MAX,
        0 <= k,
        depth_fits(nodes, k, depth, collapsed),
    ensures
        ({
            let rows = rows_from(nodes, k, depth, collapsed);
            &&& forall|i: int| 0 <= i < rows.len() ==> (#[trigger] rows[i]).depth >= depth
            &&& rows.len() > 0 ==> rows[0].depth == depth
            &&& rows.len() > 0 ==> !rows.last().expanded
            &&& forall|i: int|
                0 < i < rows.len() ==> {
                    &&& (#[trigger] rows[i]).depth <= rows[i - 1].depth + 1
                    &&& (rows[i].depth == rows[i - 1].depth + 1 <==> rows[i - 1].expanded)
                }
        }),
    decreases nodes, nodes.len() - k,
{
    if k < nodes.len() {
        let nk = nodes[k];
        let r = row_of(nk, depth, k == nodes.len() - 1, collapsed);
        assert(r.depth == depth);
        let below = if r.expanded {
            rows_from(nk.children@, 0, depth + 1, collapsed)
        } else {
            seq![]
        };
        if r.expanded {
            lemma_depth_steps(nk.children@, 0, depth + 1, collapsed);
            assert(below.len() > 0);
        }
        lemma_depth_steps(nodes, k + 1, depth, collapsed);
        let rest = rows_from(nodes, k + 1, depth, collapsed);
        let all = seq![r] + below + rest;
        assert(rows_from(nodes, k, depth, collapsed) == all);
        assert forall|i: int| 0 <= i < all.len() implies (#[trigger] all[i]).depth >= depth by {
            if i == 0 {
            } else if i < 1 + below.len() {
                assert(all[i] == below[i - 1]);
            } else {
                assert(all[i] == rest[i - 1 - below.len()]);
            }
        }
        if rest.len() > 0 {
            assert(all.last() == rest.last());
        } else if below.len() > 0 {
            assert(all.last() == below.last());
        }
        assert forall|i: int| 0 < i < all.len() implies {
            &&& (#[trigger] all[i]).depth <= all[i - 1].depth + 1
            &&& (all[i].depth == all[i - 1].depth + 1 <==> all[i - 1].expanded)
        } by {
            if i == 1 {
                if below.len() > 0 {
                    assert(all[1] == below[0]);
                } else {
                    assert(all[1] == rest[0]);
                }
            } else if i <= below.len() {
                assert(all[i - 1] == below[i - 2]);
                assert(all[i] == below[i - 1]);
                assert(below[i - 1].depth <= below[i - 2].depth + 1);
            } else if i == below.len() + 1 {
                assert(all[i - 1] == below[i - 2]);
                assert(all[i] == rest[0]);
                assert(below[i - 2] == below.last());
                assert(below[i - 2].depth >= depth + 1);
            } else {
                let j = i - 1 - below.len();
                assert(all[i - 1] == rest[j - 1]);
                assert(all[i] == rest[j]);
                assert(rest[j].depth <= rest[j - 1].depth + 1);
            }
        }
    }
}

/// Going down the rows, the depth grows by one exactly after an open folder
/// and never by more; the last row is no open folder. So an open folder's
/// contents follow it, and a folded folder's contents are hidden.
pub proof fn law_depth_steps(forest: Seq<TreeNode>, collapsed: Set<usize>)
    requires
        depth_fits(forest, 0, 0, collapsed),
    ensures
        ({
            let rows = rows_from(forest, 0, 0, collapsed);
            &&& rows.len() > 0 ==> rows[0].depth == 0 && !rows.last().expanded
            &&& forall|i: int|
                0 < i < rows.len() ==> {
                    &&& (#[trigger] rows[i]).depth <= rows[i - 1].depth + 1
                    &&& (rows[i].depth == rows[i - 1].depth + 1 <==> rows[i - 1].expanded)
                }
        }),
{
    lemma_depth_steps(forest, 0, 0, collapsed);
}

/// A node of a well-made level is a folder exactly when some entry goes on
/// below its name.
proof fn lemma_dir_iff_below(n: TreeNode, es: Seq<Entry>)
    requires
        level_ok(n.children@, sub_entries(es, n.name@), n.path@),
    ensures
        n.children.len() > 0 <==> sub_entries(es, n.name@).len() > 0,
{
    let sub = sub_entries(es, n.name@);
    if sub.len() > 0 {
        assert(firsts_contain(sub, sub[0].0[0]));
    }
    if n.children.len() > 0 {
        assert(firsts_contain(sub, n.children@[0].name@));
    }
}

/// No two nodes of a level of the tree have the same name: each path prefix
/// has one node.
pub proof fn law_siblings_distinct(nodes: Seq<TreeNode>, es: Seq<Entry>, parent: Seq<char>)
    requires
        level_ok(nodes, es, parent),
    ensures
        forall|i: int, j: int|
            0 <= i < j < nodes.len() ==> (#[trigger] nodes[i]).name@ != (#[trigger] nodes[j]).name@,
{
    assert forall|i: int, j: int| 0 <= i < j < nodes.len() implies (#[trigger] nodes[i]).name@
        != (#[trigger] nodes[j]).name@ by {
        if nodes[i].name@ == nodes[j].name@ {
            lemma_dir_iff_below(nodes[i], es);
            lemma_dir_iff_below(nodes[j], es);
            lemma_lex_irreflexive(nodes[i].name@);
        }
    }
}

/// `a` comes before `b` in dictionary order by character: at the first
/// position where they differ, `a` has the smaller character, or `a` is a
/// proper prefix of `b`.
pub open spec fn char_order(a: Seq<char>, b: Seq<char>) -> bool {
    ||| exists|k: int|
        0 <= k < a.len() && k < b.len() && a.take(k) == b.take(k) && #[trigger] a[k] < b[k]
    ||| a.len() < b.len() && b.take(a.len() as int) == a
}

proof fn lemma_lex_is_char_order(a: Seq<char>, b: Seq<char>)
    ensures
        lex_lt(a, b) <==> char_order(a, b),
    decreases a.len(),
{
    if a.len() == 0 {
        assert(b.take(0) =~= a);
    } else if b.len() == 0 {
    } else if a[0] < b[0] {
        assert(a.take(0) =~= b.take(0));
        assert(a[0] < b[0]);
    } else if a[0] > b[0] {
        if char_order(a, b) {
            if a.len() < b.len() && b.take(a.len() as int) == a {
                assert(b.take(a.len() as int)[0] == b[0]);
            } else {
                let k = choose|k: int|
                    0 <= k < a.len() && k < b.len() && a.take(k) == b.take(k) && #[trigger] a[k]
                        < b[k];
                if k > 0 {
                    assert(a.take(k)[0] == b.take(k)[0]);
                }
            }
        }
    } else {
        let a1 = a.drop_first();
        let b1 = b.drop_first();
        lemma_lex_is_char_order(a1, b1);
        if char_order(a1, b1) {
            if a1.len() < b1.len() && b1.take(a1.len() as int) == a1 {
                assert(b.take(a.len() as int) =~= seq![b[0]] + b1.take(a1.len() as int));
                assert(a =~= seq![a[0]] + a1);
            } else {
                let k = choose|k: int|
                    0 <= k < a1.len() && k < b1.len() && a1.take(k) == b1.take(k) && #[trigger] a1[k]
                        < b1[k];
                assert(a.take(k + 1) =~= seq![a[0]] + a1.take(k));
                assert(b.take(k + 1) =~= seq![b[0]] + b1.take(k));
                assert(a[k + 1] == a1[k]);
                assert(b[k + 1] == b1[k]);
            }
        }
        if char_order(a, b) {
            if a.len() < b.len() && b.take(a.len() as int) == a {
                assert(b1.take(a1.len() as int) =~= b.take(a.len() as int).drop_first());
                assert(a1 =~= a.drop_first());
            } else {
                let k = choose|k: int|
                    0 <= k < a.len() && k < b.len() && a.take(k) == b.take(k) && #[trigger] a[k]
                        < b[k];
                assert(k > 0);
                assert(a1.take(k - 1) =~= a.take(k).drop_first());
                assert(b1.take(k - 1) =~= b.take(k).drop_first());
                assert(a1[k - 1] == a[k]);
                assert(b1[k - 1] == b[k]);
            }
        }
    }
}

/// On every level of a well-made tree (as `build` makes it), folders come
/// first, and nodes of the same kind follow dictionary order of their names by
/// character, whatever the names' lengths.
pub proof fn law_siblings_sorted(nodes: Seq<TreeNode>, es: Seq<Entry>, parent: Seq<char>)
    requires
        level_ok(nodes, es, parent),
    ensures
        forall|i: int, j: int|
            0 <= i < j < nodes.len() ==> {
                &&& ((#[trigger] nodes[j]).children.len() > 0 ==> (#[trigger] nodes[i]).children.len()
                    > 0)
                &&& ((nodes[i].children.len() > 0) == (nodes[j].children.len() > 0)
                    ==> char_order(nodes[i].name@, nodes[j].name@))
            },
{
    assert forall|i: int, j: int| 0 <= i < j < nodes.len() implies {
        &&& ((#[trigger] nodes[j]).children.len() > 0 ==> (#[trigger] nodes[i]).children.len() > 0)
        &&& ((nodes[i].children.len() > 0) == (nodes[j].children.len() > 0) ==> char_order(
            nodes[i].name@,
            nodes[j].name@,
        ))
    } by {
        lemma_lex_is_char_order(nodes[i].name@, nodes[j].name@);
    }
}

} // verus!
