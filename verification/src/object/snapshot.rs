//! Trees from a flat list of paths: one tree for each directory, the
//! trees of the subdirectories before the tree that names them.

use crate::bytes::{
    bytes_lt, copy_bytes, find_byte, has_prefix, index_of, lemma_lex_total, lemma_lex_transitive,
    lex_lt, slice_range, starts_with,
};
use crate::index::Index;
use crate::object::tree::{
    entries_view, mode_of_word, tree_id, Mode, PathEntry, PathEntryView, Tree, TreeView,
};

use vstd::prelude::*;

verus! {

/// The position after the entries from `i` on whose paths begin with
/// `prefix`.
pub open spec fn group_end(es: Seq<PathEntryView>, i: int, hi: int, prefix: Seq<u8>) -> int
    decreases hi - i,
{
    if 0 <= i < hi && i < es.len() && has_prefix(es[i].path, prefix) {
        group_end(es, i + 1, hi, prefix)
    } else {
        i
    }
}

/// The entries of one directory, and the trees of all directories below
/// it.
pub struct Level {
    pub entries: Seq<PathEntryView>,
    pub trees: Seq<TreeView>,
}

/// The directory whose paths are the entries from `lo` to `hi`, all of
/// which share their first `plen` bytes. An entry with no slash after that
/// is a file of the directory. An entry with a slash begins a subdirectory,
/// to which the entries with the same bytes up to that slash belong; the
/// subdirectory stands in the directory as a tree with its own identity.
/// `fuel` bounds the depth.
pub open spec fn level(es: Seq<PathEntryView>, lo: int, hi: int, plen: int, fuel: nat) -> Level
    decreases fuel, hi - lo,
{
    if fuel == 0 || lo < 0 || lo >= hi || hi > es.len() {
        Level { entries: Seq::empty(), trees: Seq::empty() }
    } else {
        let e = es[lo];
        let s = index_of(e.path, 0x2f, plen);
        if s >= e.path.len() {
            let rest = level(es, lo + 1, hi, plen, fuel);
            Level {
                entries: seq![
                    PathEntryView {
                        path: e.path.subrange(plen, e.path.len() as int),
                        mode: e.mode,
                        sha: e.sha,
                    },
                ] + rest.entries,
                trees: rest.trees,
            }
        } else {
            let g = group_end(es, lo + 1, hi, e.path.subrange(0, s + 1));
            let next = if lo < g <= hi {
                g
            } else {
                lo + 1
            };
            let sub = level(es, lo, next, s + 1, (fuel - 1) as nat);
            let rest = level(es, next, hi, plen, fuel);
            Level {
                entries: seq![
                    PathEntryView {
                        path: e.path.subrange(plen, s),
                        mode: Mode::Tree,
                        sha: tree_id(sub.entries),
                    },
                ] + rest.entries,
                trees: sub.trees + seq![
                    TreeView { label: e.path.subrange(plen, s), entries: sub.entries },
                ] + rest.trees,
            }
        }
    }
}

/// The length of the longest path.
pub open spec fn longest(es: Seq<PathEntryView>) -> nat
    decreases es.len(),
{
    if es.len() == 0 {
        0
    } else if es.last().path.len() > longest(es.drop_last()) {
        es.last().path.len()
    } else {
        longest(es.drop_last())
    }
}

/// The trees for a list of paths in which the paths of one directory
/// stand together: the trees of all directories, each after the trees of
/// its subdirectories, and last the tree of the root.
pub open spec fn levels(es: Seq<PathEntryView>) -> Seq<TreeView> {
    level(es, 0, es.len() as int, 0, longest(es)).trees + seq![
        TreeView {
            label: Seq::empty(),
            entries: level(es, 0, es.len() as int, 0, longest(es)).entries,
        },
    ]
}

/// Where an entry with the given path goes among the first `k` entries
/// of a list: after the last of them whose path does not come after it.
pub open spec fn place_from(s: Seq<PathEntryView>, path: Seq<u8>, k: int) -> int
    decreases k,
{
    if 0 < k <= s.len() && lex_lt(path, s[k - 1].path) {
        place_from(s, path, k - 1)
    } else {
        k
    }
}

/// The entries in ascending byte order of their paths; entries of the
/// same path keep their order.
pub open spec fn sorted(es: Seq<PathEntryView>) -> Seq<PathEntryView>
    decreases es.len(),
{
    if es.len() == 0 {
        es
    } else {
        let rest = sorted(es.drop_last());
        rest.insert(place_from(rest, es.last().path, rest.len() as int), es.last())
    }
}

/// No entry stands before one whose path comes before its own.
pub open spec fn ordered(es: Seq<PathEntryView>) -> bool {
    forall|i: int, j: int|
        0 <= i < j < es.len() ==> !lex_lt((#[trigger] es[j]).path, (#[trigger] es[i]).path)
}

/// No two entries have the same path.
pub open spec fn distinct(es: Seq<PathEntryView>) -> bool {
    forall|i: int, j: int|
        0 <= i < es.len() && 0 <= j < es.len() && i != j ==> (#[trigger] es[i]).path != (
        #[trigger] es[j]).path
}

/// The trees for a flat list of paths, in whatever order they are given:
/// the paths are put in ascending byte order, so that the paths of one
/// directory stand together and the records of every tree stand in the
/// order of their names; then come the trees of all directories, each after
/// the trees of its subdirectories, and last the tree of the root.
pub open spec fn built(es: Seq<PathEntryView>) -> Seq<TreeView> {
    levels(sorted(es))
}

/// Where the entry goes: not after an entry whose path comes after its
/// own, and after all others.
pub proof fn lemma_place(s: Seq<PathEntryView>, path: Seq<u8>, k: int)
    requires
        0 <= k <= s.len(),
    ensures
        0 <= place_from(s, path, k) <= k,
        forall|j: int| place_from(s, path, k) <= j < k ==> lex_lt(path, (#[trigger] s[j]).path),
        place_from(s, path, k) > 0 ==> !lex_lt(path, s[place_from(s, path, k) - 1].path),
    decreases k,
{
    if 0 < k && lex_lt(path, s[k - 1].path) {
        lemma_place(s, path, k - 1);
    }
}

/// The sorted list holds the entries of the list, and is in order; where
/// no two entries have the same path, that holds of the sorted list too.
pub proof fn lemma_sorted(es: Seq<PathEntryView>)
    ensures
        sorted(es).len() == es.len(),
        ordered(sorted(es)),
        forall|e: PathEntryView| sorted(es).contains(e) <==> es.contains(e),
        distinct(es) ==> distinct(sorted(es)),
    decreases es.len(),
{
    if es.len() > 0 {
        let init = es.drop_last();
        let last = es.last();
        let rest = sorted(init);
        lemma_sorted(init);
        let k = place_from(rest, last.path, rest.len() as int);
        lemma_place(rest, last.path, rest.len() as int);
        let out = rest.insert(k, last);
        assert(sorted(es) == out);
        assert forall|i: int, j: int| 0 <= i < j < out.len() implies !lex_lt(
            (#[trigger] out[j]).path,
            (#[trigger] out[i]).path,
        ) by {
            if j == k {
                // What stands before the place does not come after the entry.
                assert(out[i] == rest[i]);
                if i < k - 1 {
                    assert(!lex_lt(rest[k - 1].path, rest[i].path));
                }
                lemma_lex_total(rest[i].path, rest[k - 1].path);
                if lex_lt(last.path, rest[i].path) {
                    if rest[i].path != rest[k - 1].path {
                        lemma_lex_transitive(last.path, rest[i].path, rest[k - 1].path);
                    }
                }
            } else if i == k {
                assert(out[j] == rest[j - 1]);
                lemma_lex_total(last.path, rest[j - 1].path);
            } else {
                let a = if i < k {
                    i
                } else {
                    i - 1
                };
                let b = if j < k {
                    j
                } else {
                    j - 1
                };
                assert(out[i] == rest[a] && out[j] == rest[b]);
            }
        }
        assert forall|e: PathEntryView| out.contains(e) <==> es.contains(e) by {
            if out.contains(e) {
                let i = choose|i: int| 0 <= i < out.len() && out[i] == e;
                if i == k {
                    assert(es[es.len() - 1] == e);
                } else {
                    let a = if i < k {
                        i
                    } else {
                        i - 1
                    };
                    assert(rest[a] == e);
                    assert(rest.contains(e));
                    assert(init.contains(e));
                    let t = choose|t: int| 0 <= t < init.len() && init[t] == e;
                    assert(es[t] == e);
                }
            }
            if es.contains(e) {
                let t = choose|t: int| 0 <= t < es.len() && es[t] == e;
                if t == es.len() - 1 {
                    assert(out[k] == e);
                } else {
                    assert(init[t] == e);
                    assert(init.contains(e));
                    assert(rest.contains(e));
                    let a = choose|a: int| 0 <= a < rest.len() && rest[a] == e;
                    if a < k {
                        assert(out[a] == e);
                    } else {
                        assert(out[a + 1] == e);
                    }
                }
            }
        }
        if distinct(es) {
            assert(distinct(init)) by {
                assert forall|i: int, j: int|
                    0 <= i < init.len() && 0 <= j < init.len() && i != j implies (
                #[trigger] init[i]).path != (#[trigger] init[j]).path by {
                    assert(init[i] == es[i] && init[j] == es[j]);
                }
            }
            assert forall|a: int| 0 <= a < rest.len() implies (#[trigger] rest[a]).path
                != last.path by {
                assert(rest.contains(rest[a]));
                assert(init.contains(rest[a]));
                let t = choose|t: int| 0 <= t < init.len() && init[t] == rest[a];
                assert(es[t] == rest[a]);
                assert(es[es.len() - 1] == last);
            }
            assert forall|i: int, j: int|
                0 <= i < out.len() && 0 <= j < out.len() && i != j implies (#[trigger] out[i]).path
                != (#[trigger] out[j]).path by {
                let a = if i < k {
                    i
                } else {
                    i - 1
                };
                let b = if j < k {
                    j
                } else {
                    j - 1
                };
                if i == k {
                    assert(out[j] == rest[b]);
                } else if j == k {
                    assert(out[i] == rest[a]);
                } else {
                    assert(out[i] == rest[a] && out[j] == rest[b]);
                }
            }
        }
    }
}

/// A list that is in order is its own sorted list.
pub proof fn lemma_sorted_same(es: Seq<PathEntryView>)
    requires
        ordered(es),
    ensures
        sorted(es) == es,
    decreases es.len(),
{
    if es.len() > 0 {
        let init = es.drop_last();
        assert(ordered(init)) by {
            assert forall|i: int, j: int| 0 <= i < j < init.len() implies !lex_lt(
                (#[trigger] init[j]).path,
                (#[trigger] init[i]).path,
            ) by {
                assert(init[i] == es[i] && init[j] == es[j]);
            }
        }
        lemma_sorted_same(init);
        if init.len() > 0 {
            assert(init[init.len() - 1] == es[es.len() - 2]);
            assert(!lex_lt(es[es.len() - 1].path, es[es.len() - 2].path));
        }
        assert(place_from(init, es.last().path, init.len() as int) == init.len());
        assert(init.insert(init.len() as int, es.last()) =~= es);
    }
}

/// The order in which the paths are given does not matter: two lists of
/// the same entries, no two of them with the same path, give the same
/// trees.
pub proof fn lemma_any_order(a: Seq<PathEntryView>, b: Seq<PathEntryView>)
    requires
        distinct(a),
        distinct(b),
        forall|e: PathEntryView| a.contains(e) <==> b.contains(e),
    ensures
        sorted(a) == sorted(b),
        built(a) == built(b),
{
    let sa = sorted(a);
    let sb = sorted(b);
    lemma_sorted(a);
    lemma_sorted(b);
    let pa = Seq::new(sa.len(), |i: int| sa[i].path);
    let pb = Seq::new(sb.len(), |i: int| sb[i].path);
    lemma_strict(sa);
    lemma_strict(sb);
    assert forall|k: Seq<u8>| pa.contains(k) <==> pb.contains(k) by {
        if pa.contains(k) {
            let i = choose|i: int| 0 <= i < pa.len() && pa[i] == k;
            assert(sa.contains(sa[i]));
            assert(a.contains(sa[i]));
            assert(b.contains(sa[i]));
            assert(sb.contains(sa[i]));
            let j = choose|j: int| 0 <= j < sb.len() && sb[j] == sa[i];
            assert(pb[j] == k);
        }
        if pb.contains(k) {
            let i = choose|i: int| 0 <= i < pb.len() && pb[i] == k;
            assert(sb.contains(sb[i]));
            assert(b.contains(sb[i]));
            assert(a.contains(sb[i]));
            assert(sa.contains(sb[i]));
            let j = choose|j: int| 0 <= j < sa.len() && sa[j] == sb[i];
            assert(pa[j] == k);
        }
    }
    crate::pathmap::lemma_same_keys(pa, pb);
    assert(sa.len() == sb.len());
    assert forall|i: int| 0 <= i < sa.len() implies sa[i] == sb[i] by {
        assert(sa.contains(sa[i]));
        assert(a.contains(sa[i]));
        assert(b.contains(sa[i]));
        assert(sb.contains(sa[i]));
        let j = choose|j: int| 0 <= j < sb.len() && sb[j] == sa[i];
        assert(pa[i] == pb[i]);
        assert(sb[j].path == sb[i].path);
    }
    assert(sa =~= sb);
}

/// A list in order in which no two entries have the same path has its
/// paths in strictly ascending order.
pub proof fn lemma_strict(es: Seq<PathEntryView>)
    requires
        ordered(es),
        distinct(es),
    ensures
        crate::pathmap::ascending(Seq::new(es.len(), |i: int| es[i].path)),
        forall|i: int, j: int|
            0 <= i < j < es.len() ==> lex_lt((#[trigger] es[i]).path, (#[trigger] es[j]).path),
{
    assert forall|i: int, j: int| 0 <= i < j < es.len() implies lex_lt(
        (#[trigger] es[i]).path,
        (#[trigger] es[j]).path,
    ) by {
        lemma_lex_total(es[i].path, es[j].path);
    }
    let ps = Seq::new(es.len(), |i: int| es[i].path);
    assert forall|i: int, j: int| 0 <= i < j < ps.len() implies lex_lt(
        #[trigger] ps[i],
        #[trigger] ps[j],
    ) by {
        assert(lex_lt(es[i].path, es[j].path));
    }
}

pub open spec fn trees_view(trees: Seq<Tree>) -> Seq<TreeView> {
    Seq::new(trees.len(), |i: int| trees[i]@)
}

pub open spec fn trees_wf(trees: Seq<Tree>) -> bool {
    forall|i: int| 0 <= i < trees.len() ==> (#[trigger] trees[i]).wf()
}

pub open spec fn all_wf(entries: Seq<PathEntry>) -> bool {
    forall|i: int| 0 <= i < entries.len() ==> (#[trigger] entries[i]).wf()
}

/// The entry of the tree for an entry of the index: the same name and
/// digest, and the mode of the mode word. `None` where the mode word is
/// none of the three modes.
pub open spec fn tree_entry_of(e: crate::index::entry::EntryView) -> Option<PathEntryView> {
    match mode_of_word(e.meta.mode) {
        Some(mode) => Some(PathEntryView { path: e.name, mode, sha: e.sha }),
        None => None,
    }
}

/// The entries of the index as entries for trees, in the order of the
/// index; `None` where an entry has an unknown mode word.
pub fn entries_of_index(index: &Index) -> (r: Option<Vec<PathEntry>>)
    requires
        index.wf(),
    ensures
        r is Some <==> forall|i: int|
            0 <= i < index.model().len() ==> tree_entry_of(#[trigger] index.model()[i]) is Some,
        r matches Some(list) ==> all_wf(list@) && list@.len() == index.model().len() && forall|
            i: int,
        |
            0 <= i < list@.len() ==> Some((#[trigger] list@[i])@) == tree_entry_of(index.model()[i]),
{
    let mut out: Vec<PathEntry> = Vec::new();
    let n = index.num_entries();
    let mut i: usize = 0;
    proof {
        index.lemma_invariants();
    }
    while i < n
        invariant
            index.wf(),
            n == index.model().len(),
            n == index.names().len(),
            i <= n,
            out@.len() == i,
            all_wf(out@),
            forall|j: int| 0 <= j < index.model().len() ==> crate::index::entry::entry_ok(
                #[trigger] index.model()[j],
            ),
            forall|j: int| 0 <= j < i ==> Some((#[trigger] out@[j])@) == tree_entry_of(index.model()[j]),
        decreases n - i,
    {
        let e = index.entry_at(i);
        assert(crate::index::entry::entry_ok(index.model()[i as int]));
        let mode = match Mode::from_word(e.mode()) {
            Some(m) => m,
            None => {
                assert(tree_entry_of(index.model()[i as int]) is None);
                return None;
            },
        };
        let pe = PathEntry::new(copy_bytes(e.name().as_slice()), mode, e.sha().duplicate());
        out.push(pe);
        i += 1;
    }
    proof {
        assert forall|j: int| 0 <= j < index.model().len() implies tree_entry_of(
            #[trigger] index.model()[j],
        ) is Some by {
            assert(Some(out@[j]@) == tree_entry_of(index.model()[j]));
        }
    }
    Some(out)
}

/// The entries of the directory whose paths stand from `lo` to `hi`; the
/// trees of the directories below it are added to `out`.
fn build_range(entries: &Vec<PathEntry>, lo: usize, hi: usize, plen: usize, fuel: usize, out: &mut Vec<
    Tree,
>) -> (here: Vec<PathEntry>)
    requires
        all_wf(entries@),
        trees_wf(old(out)@),
        lo <= hi <= entries@.len(),
        forall|i: int| lo <= i < hi ==> plen <= (#[trigger] entries@[i])@.path.len(),
    ensures
        all_wf(here@),
        trees_wf(final(out)@),
        entries_view(here@) == level(
            entries_view(entries@),
            lo as int,
            hi as int,
            plen as int,
            fuel as nat,
        ).entries,
        trees_view(final(out)@) == trees_view(old(out)@) + level(
            entries_view(entries@),
            lo as int,
            hi as int,
            plen as int,
            fuel as nat,
        ).trees,
    decreases fuel, hi - lo,
{
    let ghost es = entries_view(entries@);
    let ghost before = trees_view(out@);
    let mut here: Vec<PathEntry> = Vec::new();
    assert(entries_view(here@) =~= Seq::<PathEntryView>::empty());
    assert(before + Seq::<TreeView>::empty() =~= before);
    if fuel == 0 || lo >= hi {
        return here;
    }
    let e = &entries[lo];
    assert(es[lo as int] == entries@[lo as int]@);
    let s = find_byte(e.path().as_slice(), 0x2f, plen);
    if s >= e.path().len() {
        let name = slice_range(e.path().as_slice(), plen, e.path().len());
        here.push(PathEntry::new(name, e.mode(), e.sha().duplicate()));
        let ghost first = entries_view(here@);
        let mut rest = build_range(entries, lo + 1, hi, plen, fuel, out);
        let ghost rest_view = entries_view(rest@);
        here.append(&mut rest);
        assert(entries_view(here@) =~= first + rest_view);
        here
    } else {
        let prefix = slice_range(e.path().as_slice(), 0, s + 1);
        let mut g: usize = lo + 1;
        while g < hi && starts_with(entries[g].path().as_slice(), prefix.as_slice())
            invariant
                lo < g <= hi <= entries@.len(),
                es == entries_view(entries@),
                group_end(es, lo + 1, hi as int, prefix@) == group_end(
                    es,
                    g as int,
                    hi as int,
                    prefix@,
                ),
                forall|i: int| lo < i < g ==> has_prefix((#[trigger] entries@[i])@.path, prefix@),
            decreases hi - g,
        {
            assert(es[g as int] == entries@[g as int]@);
            g += 1;
        }
        proof {
            if g < hi {
                assert(es[g as int] == entries@[g as int]@);
            }
            assert(group_end(es, lo + 1, hi as int, prefix@) == g);
        }
        let label = slice_range(e.path().as_slice(), plen, s);
        let sub_entries = build_range(entries, lo, g, s + 1, fuel - 1, out);
        let mut sub = Tree::new(copy_bytes(label.as_slice()));
        let ghost sub_view = entries_view(sub_entries@);
        let mut sub_entries = sub_entries;
        let ghost mid = trees_view(out@);
        // The entries go into the tree in their order.
        let mut stack: Vec<PathEntry> = Vec::new();
        while sub_entries.len() > 0
            invariant
                all_wf(sub_entries@),
                all_wf(stack@),
                sub_entries@.len() + stack@.len() == sub_view.len(),
                forall|i: int| 0 <= i < sub_entries@.len() ==> (#[trigger] sub_entries@[i])@ == sub_view[i],
                forall|i: int|
                    0 <= i < stack@.len() ==> (#[trigger] stack@[i])@ == sub_view[sub_view.len() - 1
                        - i],
            decreases sub_entries@.len(),
        {
            let top = sub_entries.pop().unwrap();
            stack.push(top);
        }
        while stack.len() > 0
            invariant
                sub.wf(),
                all_wf(stack@),
                sub@.label == label@,
                sub@.entries.len() + stack@.len() == sub_view.len(),
                forall|i: int| 0 <= i < sub@.entries.len() ==> sub@.entries[i] == sub_view[i],
                forall|i: int|
                    0 <= i < stack@.len() ==> (#[trigger] stack@[i])@ == sub_view[sub_view.len() - 1
                        - i],
            decreases stack@.len(),
        {
            let top = stack.pop().unwrap();
            sub.add_entry(top);
        }
        assert(sub@.entries =~= sub_view);
        let sub_sha = sub.sha();
        here.push(PathEntry::new(label, Mode::Tree, sub_sha));
        let ghost first = entries_view(here@);
        out.push(sub);
        let ghost with_sub = trees_view(out@);
        assert(with_sub =~= mid + seq![(TreeView { label: label@, entries: sub_view })]);
        let mut rest = build_range(entries, g, hi, plen, fuel, out);
        let ghost rest_view = entries_view(rest@);
        here.append(&mut rest);
        proof {
            assert(entries_view(here@) =~= first + rest_view);
            let lv_sub = level(es, lo as int, g as int, s + 1, (fuel - 1) as nat);
            let lv_rest = level(es, g as int, hi as int, plen as int, fuel as nat);
            assert(trees_view(out@) =~= before + (lv_sub.trees + seq![
                (TreeView { label: label@, entries: sub_view }),
            ] + lv_rest.trees));
        }
        here
    }
}

/// The entries in ascending byte order of their paths.
pub fn sort_entries(entries: &Vec<PathEntry>) -> (out: Vec<PathEntry>)
    requires
        all_wf(entries@),
    ensures
        all_wf(out@),
        entries_view(out@) == sorted(entries_view(entries@)),
{
    let ghost es = entries_view(entries@);
    let mut out: Vec<PathEntry> = Vec::new();
    let n = entries.len();
    let mut i: usize = 0;
    assert(es.subrange(0, 0) =~= Seq::<PathEntryView>::empty());
    assert(entries_view(out@) =~= sorted(es.subrange(0, 0)));
    while i < n
        invariant
            all_wf(entries@),
            all_wf(out@),
            es == entries_view(entries@),
            n == es.len(),
            i <= n,
            out@.len() == i,
            entries_view(out@) == sorted(es.subrange(0, i as int)),
        decreases n - i,
    {
        let e = entries[i].duplicate();
        assert(e@ == es[i as int]);
        let ghost ov = entries_view(out@);
        let mut k: usize = out.len();
        while k > 0 && bytes_lt(e.path().as_slice(), out[k - 1].path().as_slice())
            invariant
                k <= out@.len(),
                ov == entries_view(out@),
                place_from(ov, e@.path, ov.len() as int) == place_from(ov, e@.path, k as int),
            decreases k,
        {
            assert(ov[k - 1] == out@[k - 1]@);
            k -= 1;
        }
        proof {
            if k > 0 {
                assert(ov[k - 1] == out@[k - 1]@);
            }
            let next = es.subrange(0, i + 1);
            assert(next.drop_last() =~= es.subrange(0, i as int));
            assert(next.last() == e@);
            assert(sorted(next) == ov.insert(k as int, e@));
        }
        out.insert(k, e);
        assert(entries_view(out@) =~= ov.insert(k as int, e@));
        i += 1;
    }
    assert(es.subrange(0, n as int) =~= es);
    out
}

fn longest_path(entries: &Vec<PathEntry>) -> (n: usize)
    ensures
        n == longest(entries_view(entries@)),
{
    let ghost es = entries_view(entries@);
    let mut n: usize = 0;
    let mut i: usize = 0;
    assert(es.subrange(0, 0) =~= Seq::<PathEntryView>::empty());
    while i < entries.len()
        invariant
            es == entries_view(entries@),
            i <= es.len(),
            n == longest(es.subrange(0, i as int)),
        decreases es.len() - i,
    {
        proof {
            let next = es.subrange(0, i + 1);
            assert(next.drop_last() =~= es.subrange(0, i as int));
            assert(next.last() == entries@[i as int]@);
        }
        let len = entries[i].path().len();
        if len > n {
            n = len;
        }
        i += 1;
    }
    assert(es.subrange(0, es.len() as int) =~= es);
    n
}

impl Tree {
    /// The trees for a flat list of paths, in whatever order they are
    /// given: the paths are put in ascending byte order first. Then come
    /// the trees of all directories, each after the trees of its
    /// subdirectories, and last the tree of the root.
    pub fn build_all(entries: Vec<PathEntry>) -> (trees: Vec<Tree>)
        requires
            all_wf(entries@),
        ensures
            trees_view(trees@) == built(entries_view(entries@)),
            trees@.len() >= 1,
            trees_wf(trees@),
    {
        let entries = sort_entries(&entries);
        let longest = longest_path(&entries);
        let mut out: Vec<Tree> = Vec::new();
        assert(trees_view(out@) =~= Seq::<TreeView>::empty());
        let n = entries.len();
        let here = build_range(&entries, 0, n, 0, longest, &mut out);
        let ghost lv = level(entries_view(entries@), 0, n as int, 0, longest as nat);
        assert(Seq::<TreeView>::empty() + lv.trees =~= lv.trees);
        let root = tree_of(Vec::new(), here);
        let ghost below = trees_view(out@);
        out.push(root);
        assert(trees_view(out@) =~= below + seq![root@]);
        out
    }

    /// The tree of the root for a flat list of paths, in whatever order
    /// they are given.
    pub fn build(entries: Vec<PathEntry>) -> (root: Tree)
        requires
            all_wf(entries@),
        ensures
            root.wf(),
            root@ == built(entries_view(entries@)).last(),
    {
        let mut trees = Tree::build_all(entries);
        let ghost all = trees_view(trees@);
        let root = trees.pop().unwrap();
        assert(root@ == all[all.len() - 1]);
        root
    }
}

/// The tree with the given label and entries.
fn tree_of(label: Vec<u8>, entries: Vec<PathEntry>) -> (t: Tree)
    requires
        all_wf(entries@),
    ensures
        t.wf(),
        t@ == (TreeView { label: label@, entries: entries_view(entries@) }),
{
    let ghost ev = entries_view(entries@);
    let mut t = Tree::new(label);
    let mut entries = entries;
    let mut stack: Vec<PathEntry> = Vec::new();
    while entries.len() > 0
        invariant
            all_wf(entries@),
            all_wf(stack@),
            entries@.len() + stack@.len() == ev.len(),
            forall|i: int| 0 <= i < entries@.len() ==> (#[trigger] entries@[i])@ == ev[i],
            forall|i: int| 0 <= i < stack@.len() ==> (#[trigger] stack@[i])@ == ev[ev.len() - 1 - i],
        decreases entries@.len(),
    {
        let top = entries.pop().unwrap();
        stack.push(top);
    }
    while stack.len() > 0
        invariant
            t.wf(),
            all_wf(stack@),
            t@.label == label@,
            t@.entries.len() + stack@.len() == ev.len(),
            forall|i: int| 0 <= i < t@.entries.len() ==> t@.entries[i] == ev[i],
            forall|i: int| 0 <= i < stack@.len() ==> (#[trigger] stack@[i])@ == ev[ev.len() - 1 - i],
        decreases stack@.len(),
    {
        let top = stack.pop().unwrap();
        t.add_entry(top);
    }
    assert(t@.entries =~= ev);
    t
}

} // verus!
