//! Trees that were written for a list of paths, read back from the store:
//! they give the files of the list.

use crate::bytes::{
    has_prefix, index_of, last_index_of, lemma_index_of, lemma_last_index_of, lex_lt, text,
};
use crate::errors::ObjectKind;
use crate::object::snapshot::{
    built, group_end, lemma_sorted_same, level, longest, ordered,
};
use crate::object::tree::{
    basename, lemma_written_then_read, record_ok, tree_body, tree_id, Mode, PathEntryView, TreeView,
};
use crate::object::readable;
use crate::index::Index;
use crate::object::commit::parsed_commit;
use crate::object::snapshot::tree_entry_of;
use crate::object::tree::{mode_of_word, mode_word};
use crate::pathmap::lemma_map_at;
use crate::grefs::{resolved, RefFault, MAX_SYMREF_DEPTH};
use crate::index::entry::EntryView;
use crate::object::commit::{CommitView, PersonView};
use crate::repo::{
    added_files, commit_files, commit_message, head_files, head_parents, modes_known,
    new_commit_body, object_at, object_path, root_id, tree_entries,
};
use crate::object::commit::stamp_read;
use crate::written::{lemma_commit_reads_back, person_clean, word};
use crate::sha::{hex_of, lemma_unhex_hex};
use crate::status::{
    any_stale, below, deleted_upto, flat_entries, flat_tree, staged_upto, stats_upto,
    tracked_set, untracked_upto, work_diff_upto, ChangeType, MAX_TREE_DEPTH,
};
use crate::steady::{
    addable, committed, lemma_add_all, lemma_committed_clean, lemma_in_step_clean,
};
use crate::workspace::{visible, WorkFileView};
use vstd::prelude::*;
use vstd::string::*;

verus! {

/// The tree with the given entries is in the store under its identity,
/// which has twenty bytes.
pub open spec fn tree_stored(files: Map<Seq<u8>, Seq<u8>>, entries: Seq<PathEntryView>) -> bool {
    &&& tree_id(entries).len() == 20
    &&& object_at(files, object_path(hex_of(tree_id(entries)))) == Some(
        (ObjectKind::Tree, tree_body(entries)),
    )
}

/// Every one of the trees is in the store.
pub open spec fn trees_stored(files: Map<Seq<u8>, Seq<u8>>, trees: Seq<TreeView>) -> bool {
    forall|i: int| 0 <= i < trees.len() ==> tree_stored(files, (#[trigger] trees[i]).entries)
}

/// From position `plen` on the path is made of components that are not
/// empty and hold no NUL, with one slash between them.
pub open spec fn clean_from(path: Seq<u8>, plen: int) -> bool {
    &&& 0 <= plen < path.len()
    &&& path.last() != 0x2f
    &&& path[plen] != 0x2f
    &&& forall|i: int| plen <= i < path.len() ==> #[trigger] path[i] != 0
    &&& forall|i: int|
        plen <= i < path.len() - 1 ==> !(#[trigger] path[i] == 0x2f && path[i + 1] == 0x2f)
}

/// An entry that can stand in a tree as a file: a digest of twenty bytes,
/// a mode that is not that of a tree, and a clean path.
pub open spec fn file_ok(e: PathEntryView) -> bool {
    &&& e.sha.len() == 20
    &&& e.mode != Mode::Tree
    &&& clean_from(e.path, 0)
}

/// Every entry can stand in a tree as a file, and no two have the same
/// path.
pub open spec fn files_ok(es: Seq<PathEntryView>) -> bool {
    &&& forall|i: int| 0 <= i < es.len() ==> file_ok(#[trigger] es[i])
    &&& forall|i: int, j: int|
        0 <= i < es.len() && 0 <= j < es.len() && i != j ==> (#[trigger] es[i]).path != (
        #[trigger] es[j]).path
}

/// The entry as it stands in its tree: under the last component of its
/// path.
pub open spec fn leaf(e: PathEntryView) -> PathEntryView {
    PathEntryView { path: basename(e.path), mode: e.mode, sha: e.sha }
}

/// The position from `lo` to `hi` at which the path stands.
pub open spec fn place(es: Seq<PathEntryView>, lo: int, hi: int, path: Seq<u8>) -> int {
    choose|i: int| lo <= i < hi && (#[trigger] es[i]).path == path
}

/// The files of the entries from `lo` to `hi`, by their paths.
pub open spec fn leaves(es: Seq<PathEntryView>, lo: int, hi: int) -> Map<Seq<u8>, PathEntryView> {
    Map::new(
        |k: Seq<u8>| exists|i: int| lo <= i < hi && (#[trigger] es[i]).path == k,
        |k: Seq<u8>| leaf(es[place(es, lo, hi, k)]),
    )
}

/// What stands before the names of a directory: nothing at the root,
/// else the path of the directory and a slash.
pub open spec fn lead(prefix: Seq<u8>) -> Seq<u8> {
    if prefix.len() == 0 {
        prefix
    } else {
        prefix.push(0x2f)
    }
}

/// The entries from `lo` to `hi` lie in the directory `prefix`, whose
/// names begin at `plen`, no deeper than `depth` bytes below it.
pub open spec fn in_dir(
    es: Seq<PathEntryView>,
    lo: int,
    hi: int,
    plen: int,
    depth: nat,
    prefix: Seq<u8>,
) -> bool {
    &&& plen == lead(prefix).len()
    &&& forall|i: int|
        lo <= i < hi ==> clean_from((#[trigger] es[i]).path, plen) && es[i].path.len() <= plen + depth
            && es[i].path.subrange(0, plen) == lead(prefix)
}

/// The entries of a tree from position `i` on do not depend on what
/// stands before them.
proof fn lemma_flat_shift(
    files: Map<Seq<u8>, Seq<u8>>,
    x: PathEntryView,
    rest: Seq<PathEntryView>,
    i: int,
    prefix: Seq<u8>,
    fuel: nat,
)
    requires
        0 <= i,
    ensures
        flat_entries(files, seq![x] + rest, i + 1, prefix, fuel) == flat_entries(
            files,
            rest,
            i,
            prefix,
            fuel,
        ),
    decreases rest.len() - i,
{
    let all = seq![x] + rest;
    if i < rest.len() {
        assert(all[i + 1] == rest[i]);
        lemma_flat_shift(files, x, rest, i + 1, prefix, fuel);
    }
}

/// The group ends at or before `hi`, and every path of it begins with the
/// prefix.
pub proof fn lemma_group_end(es: Seq<PathEntryView>, i: int, hi: int, prefix: Seq<u8>)
    requires
        0 <= i <= hi <= es.len(),
    ensures
        i <= group_end(es, i, hi, prefix) <= hi,
        forall|j: int|
            i <= j < group_end(es, i, hi, prefix) ==> has_prefix((#[trigger] es[j]).path, prefix),
        group_end(es, i, hi, prefix) < hi ==> !has_prefix(
            es[group_end(es, i, hi, prefix)].path,
            prefix,
        ),
    decreases hi - i,
{
    if i < hi && has_prefix(es[i].path, prefix) {
        lemma_group_end(es, i + 1, hi, prefix);
    }
}

/// No path is longer than the longest.
pub proof fn lemma_longest(es: Seq<PathEntryView>)
    ensures
        forall|i: int| 0 <= i < es.len() ==> (#[trigger] es[i]).path.len() <= longest(es),
    decreases es.len(),
{
    if es.len() > 0 {
        lemma_longest(es.drop_last());
        assert forall|i: int| 0 <= i < es.len() implies (#[trigger] es[i]).path.len() <= longest(
            es,
        ) by {
            if i < es.len() - 1 {
                assert(es.drop_last()[i] == es[i]);
            }
        }
    }
}

/// The files of two ranges that follow each other are the files of the
/// whole range.
proof fn lemma_leaves_join(es: Seq<PathEntryView>, lo: int, mid: int, hi: int)
    requires
        0 <= lo <= mid <= hi <= es.len(),
        files_ok(es),
    ensures
        leaves(es, lo, mid).union_prefer_right(leaves(es, mid, hi)) == leaves(es, lo, hi),
{
    let a = leaves(es, lo, mid);
    let b = leaves(es, mid, hi);
    let all = leaves(es, lo, hi);
    let joined = a.union_prefer_right(b);
    assert forall|k: Seq<u8>| joined.dom().contains(k) <==> all.dom().contains(k) by {
        if a.dom().contains(k) {
            let i = place(es, lo, mid, k);
            assert(lo <= i < hi && es[i].path == k);
        }
        if b.dom().contains(k) {
            let i = place(es, mid, hi, k);
            assert(lo <= i < hi && es[i].path == k);
        }
        if all.dom().contains(k) {
            let i = place(es, lo, hi, k);
            if i < mid {
                assert(lo <= i < mid && es[i].path == k);
            } else {
                assert(mid <= i < hi && es[i].path == k);
            }
        }
    }
    assert forall|k: Seq<u8>| joined.dom().contains(k) implies #[trigger] joined[k] == all[k] by {
        let i = place(es, lo, hi, k);
        if b.dom().contains(k) {
            assert(place(es, mid, hi, k) == i);
        } else {
            assert(place(es, lo, mid, k) == i);
        }
    }
    assert(joined =~= all);
}

/// The one file of a range of one entry.
proof fn lemma_leaves_one(es: Seq<PathEntryView>, lo: int)
    requires
        0 <= lo < es.len(),
    ensures
        leaves(es, lo, lo + 1) == Map::<Seq<u8>, PathEntryView>::empty().insert(
            es[lo].path,
            leaf(es[lo]),
        ),
{
    let one = Map::<Seq<u8>, PathEntryView>::empty().insert(es[lo].path, leaf(es[lo]));
    let l = leaves(es, lo, lo + 1);
    assert(l.dom().contains(es[lo].path));
    assert forall|k: Seq<u8>| l.dom().contains(k) implies k == es[lo].path by {
        let i = place(es, lo, lo + 1, k);
        assert(i == lo);
    }
    assert(place(es, lo, lo + 1, es[lo].path) == lo);
    assert(l =~= one);
}

/// A name that holds no slash, after a slash or at the beginning of the
/// path, is the last component of the path.
proof fn lemma_last_name(path: Seq<u8>, plen: int)
    requires
        0 <= plen < path.len(),
        plen > 0 ==> path[plen - 1] == 0x2f,
        forall|i: int| plen <= i < path.len() ==> path[i] != 0x2f,
    ensures
        basename(path) == path.subrange(plen, path.len() as int),
{
    lemma_last_index_of(path, 0x2f, path.len() as int);
    let l = last_index_of(path, 0x2f, path.len() as int);
    if l >= plen {
        assert(path[l] == 0x2f);
    }
    if l < plen - 1 {
        assert(path[plen - 1] != 0x2f);
    }
}

/// What reading back gives for a directory: its entries can stand in a
/// tree, and they lead to the files of the range.
spec fn reads_back(
    files: Map<Seq<u8>, Seq<u8>>,
    es: Seq<PathEntryView>,
    lo: int,
    hi: int,
    plen: int,
    depth: nat,
    fuel: nat,
    prefix: Seq<u8>,
) -> bool {
    &&& forall|i: int|
        0 <= i < level(es, lo, hi, plen, depth).entries.len() ==> record_ok(
            #[trigger] level(es, lo, hi, plen, depth).entries[i],
        )
    &&& flat_entries(files, level(es, lo, hi, plen, depth).entries, 0, prefix, fuel) == Some(
        leaves(es, lo, hi),
    )
}

/// The path of a name in a directory is what leads to the directory and
/// the name.
proof fn lemma_below(prefix: Seq<u8>, name: Seq<u8>)
    ensures
        below(prefix, name) == lead(prefix) + name,
{
    if prefix.len() > 0 {
        assert(prefix + seq![0x2fu8] + name =~= lead(prefix) + name);
    } else {
        assert(lead(prefix) + name =~= name);
    }
}

/// One entry more in front keeps the entries fit for a tree.
proof fn lemma_records(x: PathEntryView, rest: Seq<PathEntryView>)
    requires
        record_ok(x),
        forall|i: int| 0 <= i < rest.len() ==> record_ok(#[trigger] rest[i]),
    ensures
        forall|i: int| 0 <= i < (seq![x] + rest).len() ==> record_ok(#[trigger] (seq![x] + rest)[i]),
{
    let all = seq![x] + rest;
    assert forall|i: int| 0 <= i < all.len() implies record_ok(#[trigger] all[i]) by {
        if i > 0 {
            assert(all[i] == rest[i - 1]);
        }
    }
}

/// A file at the beginning of the range: it stands in the tree under its
/// name, before the entries of the rest of the range.
proof fn lemma_file_step(
    files: Map<Seq<u8>, Seq<u8>>,
    es: Seq<PathEntryView>,
    lo: int,
    hi: int,
    plen: int,
    depth: nat,
    fuel: nat,
    prefix: Seq<u8>,
)
    requires
        0 <= lo < hi <= es.len(),
        files_ok(es),
        in_dir(es, lo, hi, plen, depth, prefix),
        index_of(es[lo].path, 0x2f, plen) >= es[lo].path.len(),
        reads_back(files, es, lo + 1, hi, plen, depth, fuel, prefix),
    ensures
        reads_back(files, es, lo, hi, plen, depth, fuel, prefix),
{
    let here = level(es, lo, hi, plen, depth);
    let e = es[lo];
    assert(clean_from(e.path, plen));
    let len = e.path.len() as int;
    lemma_index_of(e.path, 0x2f, plen);
    let rest = level(es, lo + 1, hi, plen, depth);
    let x = PathEntryView { path: e.path.subrange(plen, len), mode: e.mode, sha: e.sha };
    assert(here.entries == seq![x] + rest.entries);
    assert(e.path.subrange(0, plen) == lead(prefix));
    if plen > 0 {
        assert(lead(prefix)[plen - 1] == 0x2f);
        assert(e.path.subrange(0, plen)[plen - 1] == e.path[plen - 1]);
    }
    lemma_last_name(e.path, plen);
    assert(x == leaf(e));
    lemma_below(prefix, x.path);
    assert(below(prefix, x.path) =~= e.path);
    assert(record_ok(x)) by {
        assert(file_ok(e));
        assert forall|i: int| 0 <= i < x.path.len() implies x.path[i] != 0 && x.path[i] != 0x2f by {
            assert(x.path[i] == e.path[plen + i]);
        }
    }
    lemma_records(x, rest.entries);
    lemma_flat_shift(files, x, rest.entries, 0, prefix, fuel);
    assert((seq![x] + rest.entries)[0] == x);
    lemma_leaves_one(es, lo);
    lemma_leaves_join(es, lo, lo + 1, hi);
}

/// Where the group of a directory ends.
pub open spec fn group_next(es: Seq<PathEntryView>, lo: int, hi: int, plen: int) -> int {
    let s = index_of(es[lo].path, 0x2f, plen);
    group_end(es, lo + 1, hi, es[lo].path.subrange(0, s + 1))
}

/// The entries of the group lie in the directory that the first of them
/// names.
pub proof fn lemma_group_dir(
    es: Seq<PathEntryView>,
    lo: int,
    hi: int,
    plen: int,
    depth: nat,
    prefix: Seq<u8>,
)
    requires
        0 <= lo < hi <= es.len(),
        in_dir(es, lo, hi, plen, depth, prefix),
        index_of(es[lo].path, 0x2f, plen) < es[lo].path.len(),
    ensures
        depth > 0,
        lo < group_next(es, lo, hi, plen) <= hi,
        plen < index_of(es[lo].path, 0x2f, plen),
        in_dir(
            es,
            lo,
            group_next(es, lo, hi, plen),
            index_of(es[lo].path, 0x2f, plen) + 1,
            (depth - 1) as nat,
            es[lo].path.subrange(0, index_of(es[lo].path, 0x2f, plen)),
        ),
        in_dir(es, group_next(es, lo, hi, plen), hi, plen, depth, prefix),
        below(prefix, es[lo].path.subrange(plen, index_of(es[lo].path, 0x2f, plen)))
            == es[lo].path.subrange(0, index_of(es[lo].path, 0x2f, plen)),
{
    let e = es[lo];
    assert(clean_from(e.path, plen));
    let s = index_of(e.path, 0x2f, plen);
    lemma_index_of(e.path, 0x2f, plen);
    let group = e.path.subrange(0, s + 1);
    let next = group_next(es, lo, hi, plen);
    lemma_group_end(es, lo + 1, hi, group);
    let inner = e.path.subrange(0, s);
    let name = e.path.subrange(plen, s);
    assert(lead(inner) =~= group);
    assert(has_prefix(e.path, group));
    assert forall|i: int| lo <= i < next implies clean_from((#[trigger] es[i]).path, s + 1)
        && es[i].path.len() <= s + 1 + (depth - 1) && es[i].path.subrange(0, s + 1) == lead(
        inner,
    ) by {
        let p = es[i].path;
        assert(has_prefix(p, group));
        assert(clean_from(p, plen));
        assert(p.subrange(0, s + 1)[s] == group[s]);
        assert(p[s] == 0x2f);
        if p.len() == s + 1 {
            assert(p.last() == p[s]);
        }
        assert(!(p[s] == 0x2f && p[s + 1] == 0x2f));
    }
    lemma_below(prefix, name);
    assert(e.path.subrange(0, plen) == lead(prefix));
    assert(inner =~= e.path.subrange(0, plen) + name);
}

/// The name of a directory can stand in a tree.
proof fn lemma_dir_name(path: Seq<u8>, plen: int, sha: Seq<u8>)
    requires
        clean_from(path, plen),
        index_of(path, 0x2f, plen) < path.len(),
        sha.len() == 20,
    ensures
        record_ok(
            PathEntryView {
                path: path.subrange(plen, index_of(path, 0x2f, plen)),
                mode: Mode::Tree,
                sha,
            },
        ),
{
    let s = index_of(path, 0x2f, plen);
    lemma_index_of(path, 0x2f, plen);
    let name = path.subrange(plen, s);
    assert forall|i: int| 0 <= i < name.len() implies name[i] != 0 && name[i] != 0x2f by {
        assert(name[i] == path[plen + i]);
    }
}

/// A directory at the beginning of the range: it stands in the tree as a
/// tree of its own, which leads to the files of its group, before the
/// entries of the rest of the range.
proof fn lemma_dir_step(
    files: Map<Seq<u8>, Seq<u8>>,
    es: Seq<PathEntryView>,
    lo: int,
    hi: int,
    plen: int,
    depth: nat,
    fuel: nat,
    prefix: Seq<u8>,
)
    requires
        0 <= lo < hi <= es.len(),
        files_ok(es),
        in_dir(es, lo, hi, plen, depth, prefix),
        index_of(es[lo].path, 0x2f, plen) < es[lo].path.len(),
        depth > 0,
        fuel >= depth,
        lo < group_next(es, lo, hi, plen) <= hi,
        tree_stored(
            files,
            level(
                es,
                lo,
                group_next(es, lo, hi, plen),
                index_of(es[lo].path, 0x2f, plen) + 1,
                (depth - 1) as nat,
            ).entries,
        ),
        reads_back(
            files,
            es,
            lo,
            group_next(es, lo, hi, plen),
            index_of(es[lo].path, 0x2f, plen) + 1,
            (depth - 1) as nat,
            (fuel - 1) as nat,
            es[lo].path.subrange(0, index_of(es[lo].path, 0x2f, plen)),
        ),
        reads_back(files, es, group_next(es, lo, hi, plen), hi, plen, depth, fuel, prefix),
        below(prefix, es[lo].path.subrange(plen, index_of(es[lo].path, 0x2f, plen)))
            == es[lo].path.subrange(0, index_of(es[lo].path, 0x2f, plen)),
    ensures
        reads_back(files, es, lo, hi, plen, depth, fuel, prefix),
{
    let here = level(es, lo, hi, plen, depth);
    let e = es[lo];
    let s = index_of(e.path, 0x2f, plen);
    let next = group_next(es, lo, hi, plen);
    let sub = level(es, lo, next, s + 1, (depth - 1) as nat);
    let rest = level(es, next, hi, plen, depth);
    let name = e.path.subrange(plen, s);
    let x = PathEntryView { path: name, mode: Mode::Tree, sha: tree_id(sub.entries) };
    assert(here.entries == seq![x] + rest.entries);
    lemma_written_then_read(sub.entries);
    assert(flat_tree(files, x.sha, below(prefix, x.path), fuel) == Some(leaves(es, lo, next)));
    lemma_flat_shift(files, x, rest.entries, 0, prefix, fuel);
    assert((seq![x] + rest.entries)[0] == x);
    lemma_leaves_join(es, lo, next, hi);
    assert(clean_from(e.path, plen));
    lemma_dir_name(e.path, plen, tree_id(sub.entries));
    lemma_records(x, rest.entries);
}

/// The trees of the parts of a directory are among its trees.
proof fn lemma_trees_split(
    files: Map<Seq<u8>, Seq<u8>>,
    es: Seq<PathEntryView>,
    lo: int,
    hi: int,
    plen: int,
    depth: nat,
)
    requires
        0 <= lo < hi <= es.len(),
        depth > 0,
        index_of(es[lo].path, 0x2f, plen) < es[lo].path.len(),
        lo < group_next(es, lo, hi, plen) <= hi,
        trees_stored(files, level(es, lo, hi, plen, depth).trees),
    ensures
        trees_stored(
            files,
            level(
                es,
                lo,
                group_next(es, lo, hi, plen),
                index_of(es[lo].path, 0x2f, plen) + 1,
                (depth - 1) as nat,
            ).trees,
        ),
        tree_stored(
            files,
            level(
                es,
                lo,
                group_next(es, lo, hi, plen),
                index_of(es[lo].path, 0x2f, plen) + 1,
                (depth - 1) as nat,
            ).entries,
        ),
        trees_stored(files, level(es, group_next(es, lo, hi, plen), hi, plen, depth).trees),
{
    let here = level(es, lo, hi, plen, depth);
    let e = es[lo];
    let s = index_of(e.path, 0x2f, plen);
    let next = group_next(es, lo, hi, plen);
    let sub = level(es, lo, next, s + 1, (depth - 1) as nat);
    let rest = level(es, next, hi, plen, depth);
    let t = TreeView { label: e.path.subrange(plen, s), entries: sub.entries };
    assert(here.trees == sub.trees + seq![t] + rest.trees);
    assert forall|i: int| 0 <= i < sub.trees.len() implies tree_stored(
        files,
        (#[trigger] sub.trees[i]).entries,
    ) by {
        assert(here.trees[i] == sub.trees[i]);
    }
    assert forall|i: int| 0 <= i < rest.trees.len() implies tree_stored(
        files,
        (#[trigger] rest.trees[i]).entries,
    ) by {
        assert(here.trees[sub.trees.len() + 1 + i] == rest.trees[i]);
    }
    assert(here.trees[sub.trees.len() as int] == t);
}

/// The trees of a directory, read back from the store, give the files of
/// its entries.
proof fn lemma_level(
    files: Map<Seq<u8>, Seq<u8>>,
    es: Seq<PathEntryView>,
    lo: int,
    hi: int,
    plen: int,
    depth: nat,
    fuel: nat,
    prefix: Seq<u8>,
)
    requires
        0 <= lo <= hi <= es.len(),
        files_ok(es),
        in_dir(es, lo, hi, plen, depth, prefix),
        trees_stored(files, level(es, lo, hi, plen, depth).trees),
        fuel >= depth,
    ensures
        reads_back(files, es, lo, hi, plen, depth, fuel, prefix),
    decreases depth, hi - lo,
{
    if lo >= hi {
        assert(leaves(es, lo, hi) =~= Map::<Seq<u8>, PathEntryView>::empty());
    } else {
        let e = es[lo];
        let s = index_of(e.path, 0x2f, plen);
        if s >= e.path.len() {
            assert(clean_from(e.path, plen));
            assert(level(es, lo, hi, plen, depth).trees == level(es, lo + 1, hi, plen, depth).trees);
            lemma_level(files, es, lo + 1, hi, plen, depth, fuel, prefix);
            lemma_file_step(files, es, lo, hi, plen, depth, fuel, prefix);
        } else {
            lemma_group_dir(es, lo, hi, plen, depth, prefix);
            lemma_trees_split(files, es, lo, hi, plen, depth);
            let next = group_next(es, lo, hi, plen);
            lemma_level(
                files,
                es,
                lo,
                next,
                s + 1,
                (depth - 1) as nat,
                (fuel - 1) as nat,
                e.path.subrange(0, s),
            );
            lemma_level(files, es, next, hi, plen, depth, fuel, prefix);
            lemma_dir_step(files, es, lo, hi, plen, depth, fuel, prefix);
        }
    }
}

/// The trees that were built for a list of files in the order of their
/// paths, read back from a store that holds each of them under its
/// identity, give the files of the list by their paths. The paths have to be shorter than the trees are
/// followed deep.
pub proof fn lemma_trees_read_back(files: Map<Seq<u8>, Seq<u8>>, es: Seq<PathEntryView>)
    requires
        files_ok(es),
        ordered(es),
        longest(es) < MAX_TREE_DEPTH,
        trees_stored(files, built(es)),
    ensures
        flat_tree(files, root_id(es), Seq::empty(), MAX_TREE_DEPTH as nat) == Some(
            leaves(es, 0, es.len() as int),
        ),
{
    lemma_sorted_same(es);
    let n = es.len() as int;
    let top = level(es, 0, n, 0, longest(es));
    let all = built(es);
    let root = TreeView { label: Seq::empty(), entries: top.entries };
    assert(all == top.trees + seq![root]);
    assert(all[top.trees.len() as int] == root);
    assert(tree_stored(files, top.entries));
    assert forall|i: int| 0 <= i < top.trees.len() implies tree_stored(
        files,
        (#[trigger] top.trees[i]).entries,
    ) by {
        assert(all[i] == top.trees[i]);
    }
    lemma_longest(es);
    let nothing = Seq::<u8>::empty();
    assert forall|i: int| 0 <= i < n implies (#[trigger] es[i]).path.subrange(0, 0) == lead(
        nothing,
    ) by {
        assert(es[i].path.subrange(0, 0) =~= nothing);
    }
    assert(in_dir(es, 0, n, 0, longest(es), nothing));
    lemma_level(files, es, 0, n, 0, longest(es), (MAX_TREE_DEPTH - 1) as nat, nothing);
    assert(reads_back(files, es, 0, n, 0, longest(es), (MAX_TREE_DEPTH - 1) as nat, nothing));
    lemma_written_then_read(top.entries);
    assert(all.last() == root);
}

/// The mode word of a mode denotes that mode.
proof fn lemma_mode_word(w: u32)
    requires
        mode_of_word(w) is Some,
    ensures
        mode_word(mode_of_word(w)->0) == w,
{
}

/// Where the commit and the trees that were written for the index read
/// back from the store, the tree of the commit holds the files of the
/// index, with their modes and digests. The names of the index have to be
/// clean paths, shorter than the trees are followed deep, and no entry may
/// have the mode of a tree.
pub proof fn lemma_head_is_index(index: Index, files: Map<Seq<u8>, Seq<u8>>, body: Seq<u8>)
    requires
        index.wf(),
        modes_known(index.model()),
        files_ok(tree_entries(index.model())),
        longest(tree_entries(index.model())) < MAX_TREE_DEPTH,
        trees_stored(files, built(tree_entries(index.model()))),
        parsed_commit(body) is Some,
        parsed_commit(body)->0.tree == hex_of(root_id(tree_entries(index.model()))),
    ensures
        commit_files(files, body) is Some,
        committed(index.entry_map(), commit_files(files, body)->0),
{
    index.lemma_invariants();
    let model = index.model();
    let names = index.names();
    let entries = index.entry_map();
    let es = tree_entries(model);
    let n = es.len() as int;
    assert(ordered(es)) by {
        assert forall|i: int, j: int| 0 <= i < j < es.len() implies !lex_lt(
            (#[trigger] es[j]).path,
            (#[trigger] es[i]).path,
        ) by {
            assert(tree_entry_of(model[i]) is Some && tree_entry_of(model[j]) is Some);
            assert(es[i].path == names[i] && es[j].path == names[j]);
            assert(lex_lt(names[i], names[j]));
            crate::bytes::lemma_lex_total(names[i], names[j]);
        }
    }
    lemma_trees_read_back(files, es);
    let trees = built(es);
    assert(tree_stored(files, trees.last().entries));
    let root = root_id(es);
    assert(root.len() == 20);
    lemma_unhex_hex(root);
    let head = leaves(es, 0, n);
    assert(commit_files(files, body) == Some(head));
    assert forall|i: int| 0 <= i < n implies (#[trigger] es[i]).path == names[i] && es[i].sha
        == model[i].sha && mode_word(es[i].mode) == model[i].meta.mode && entries.dom().contains(
        names[i],
    ) && entries[names[i]] == model[i] by {
        assert(tree_entry_of(model[i]) is Some);
        lemma_mode_word(model[i].meta.mode);
        lemma_map_at(names, model, i);
    }
    assert forall|p: Seq<u8>| #[trigger] head.dom().contains(p) <==> entries.dom().contains(p) by {
        if head.dom().contains(p) {
            let i = place(es, 0, n, p);
            assert(es[i].path == names[i]);
        }
        if entries.dom().contains(p) {
            assert(names.contains(p));
            let i = choose|i: int| 0 <= i < names.len() && names[i] == p;
            assert(es[i].path == p);
        }
    }
    assert forall|p: Seq<u8>| #[trigger] entries.dom().contains(p) implies mode_word(head[p].mode)
        == entries[p].meta.mode && head[p].sha == entries[p].sha by {
        assert(head.dom().contains(p));
        let i = place(es, 0, n, p);
        assert(es[i].path == names[i]);
    }
}

/// The fixpoint of `add`, `commit` and `status`. Every file of the work
/// tree was added, the index was committed, and `HEAD` leads to the commit.
/// Where the commit and its trees read back from the store, the status
/// finds nothing: no untracked name, no change between the index and the
/// work tree, no entry with stale times, and no change between the tree of
/// `HEAD` and the index.
pub proof fn lemma_add_commit_status(
    start: Map<Seq<u8>, EntryView>,
    index: Index,
    paths: Seq<Seq<u8>>,
    work: Map<Seq<u8>, WorkFileView>,
    store: Map<Seq<u8>, Seq<u8>>,
    id: Seq<u8>,
    body: Seq<u8>,
    head_keys: Seq<Seq<u8>>,
)
    requires
        index.wf(),
        addable(paths),
        forall|p: Seq<u8>| #[trigger] start.dom().contains(p) ==> paths.contains(p) && visible(p),
        index.entry_map() == added_files(start, paths, work, text("."@), paths.len() as int),
        modes_known(index.model()),
        files_ok(tree_entries(index.model())),
        longest(tree_entries(index.model())) < MAX_TREE_DEPTH,
        trees_stored(store, built(tree_entries(index.model()))),
        resolved(store, text("HEAD"@), MAX_SYMREF_DEPTH as nat) == Ok::<Seq<u8>, RefFault>(id),
        object_at(store, object_path(hex_of(id))) == Some((ObjectKind::Commit, body)),
        parsed_commit(body) is Some,
        parsed_commit(body)->0.tree == hex_of(root_id(tree_entries(index.model()))),
        head_files(store) is Some ==> forall|k: Seq<u8>|
            head_keys.contains(k) <==> head_files(store)->0.dom().contains(k),
    ensures
        head_files(store) is Some,
        untracked_upto(paths, tracked_set(index), paths.len() as int) == Map::<
            Seq<u8>,
            ChangeType,
        >::empty(),
        work_diff_upto(
            index.model(),
            stats_upto(paths, work, tracked_set(index), paths.len() as int),
            work,
            index.model().len() as int,
        ) == Map::<Seq<u8>, ChangeType>::empty(),
        !any_stale(
            index.model(),
            stats_upto(paths, work, tracked_set(index), paths.len() as int),
            work,
            index.model().len() as int,
        ),
        deleted_upto(
            staged_upto(index.model(), head_files(store)->0, index.model().len() as int),
            head_keys,
            index.entry_map().dom(),
            head_keys.len() as int,
        ) == Map::<Seq<u8>, ChangeType>::empty(),
{
    lemma_add_all(start, paths, work);
    lemma_in_step_clean(index, paths, work);
    lemma_head_is_index(index, store, body);
    assert(head_files(store) == commit_files(store, body));
    lemma_committed_clean(index, head_files(store)->0, head_keys);
}

/// None of the trees has a file at its path.
pub open spec fn trees_fresh(files: Map<Seq<u8>, Seq<u8>>, trees: Seq<TreeView>) -> bool {
    forall|i: int|
        0 <= i < trees.len() ==> !files.dom().contains(
            object_path(hex_of(tree_id((#[trigger] trees[i]).entries))),
        )
}

/// Trees with the same identity have the same records.
pub open spec fn trees_apart(trees: Seq<TreeView>) -> bool {
    forall|i: int, j: int|
        0 <= i < trees.len() && 0 <= j < trees.len() && tree_id((#[trigger] trees[i]).entries)
            == tree_id((#[trigger] trees[j]).entries) ==> trees[i].entries == trees[j].entries
}

/// Every file that `now` holds and `before` did not stands at the path
/// of one of the first `i` trees.
pub open spec fn new_are_first(
    before: Map<Seq<u8>, Seq<u8>>,
    now: Map<Seq<u8>, Seq<u8>>,
    trees: Seq<TreeView>,
    i: int,
) -> bool {
    forall|p: Seq<u8>| #[trigger]
        now.dom().contains(p) && !before.dom().contains(p) ==> exists|j: int|
            0 <= j < i && j < trees.len() && p == object_path(
                hex_of(tree_id((#[trigger] trees[j]).entries)),
            )
}

/// Every record can stand in a tree.
pub open spec fn records_fit(entries: Seq<PathEntryView>) -> bool {
    forall|m: int| 0 <= m < entries.len() ==> record_ok(#[trigger] entries[m])
}

/// The store has room for the trees of a list of files: the files have
/// clean paths, no two the same and none a directory above another; the
/// store holds nothing at the paths of their trees; and trees of one
/// identity are the same tree.
pub open spec fn trees_room(files: Map<Seq<u8>, Seq<u8>>, es: Seq<PathEntryView>) -> bool {
    &&& files_ok(es)
    &&& crate::canon::no_file_above(es)
    &&& trees_fresh(files, built(es))
    &&& trees_apart(built(es))
}

/// Two digests with the same path in the store are the same digest.
pub proof fn lemma_path_apart(a: Seq<u8>, b: Seq<u8>)
    requires
        a.len() == 20,
        b.len() == 20,
        object_path(hex_of(a)) == object_path(hex_of(b)),
    ensures
        a == b,
{
    reveal_strlit("objects/");
    lemma_unhex_hex(a);
    lemma_unhex_hex(b);
    let ha = hex_of(a);
    let hb = hex_of(b);
    let pa = object_path(ha);
    let pb = object_path(hb);
    assert(text("objects/"@).len() == 8);
    assert forall|i: int| 0 <= i < 40 implies ha[i] == hb[i] by {
        if i < 2 {
            assert(pa[8 + i] == ha.subrange(0, 2)[i]);
            assert(pb[8 + i] == hb.subrange(0, 2)[i]);
        } else {
            assert(pa[9 + i] == ha.subrange(2, 40)[i - 2]);
            assert(pb[9 + i] == hb.subrange(2, 40)[i - 2]);
        }
    }
    assert(ha =~= hb);
}

/// A file at another path leaves the object at a path as it is.
pub proof fn lemma_object_kept(
    mid: Map<Seq<u8>, Seq<u8>>,
    now: Map<Seq<u8>, Seq<u8>>,
    at: Seq<u8>,
    content: Seq<u8>,
    p: Seq<u8>,
)
    requires
        now == mid.insert(at, content),
        p != at,
    ensures
        object_at(now, p) == object_at(mid, p),
{
}

/// One more tree written: the trees written so far are in the store under
/// their identities, where the store held nothing at their paths, trees of
/// one identity are the same tree, and the records of the tree can stand in
/// a tree.
pub proof fn lemma_store_step(
    before: Map<Seq<u8>, Seq<u8>>,
    mid: Map<Seq<u8>, Seq<u8>>,
    now: Map<Seq<u8>, Seq<u8>>,
    trees: Seq<TreeView>,
    i: int,
)
    requires
        0 <= i < trees.len(),
        trees_fresh(before, trees),
        trees_apart(trees),
        records_fit(trees[i].entries),
        tree_id(trees[i].entries).len() == 20,
        trees_stored(mid, trees.subrange(0, i)),
        new_are_first(before, mid, trees, i),
        (mid.dom().contains(object_path(hex_of(tree_id(trees[i].entries)))) && now == mid) || (
        !mid.dom().contains(object_path(hex_of(tree_id(trees[i].entries)))) && now == mid.insert(
            object_path(hex_of(tree_id(trees[i].entries))),
            now[object_path(hex_of(tree_id(trees[i].entries)))],
        ) && object_at(now, object_path(hex_of(tree_id(trees[i].entries)))) == (if readable(
            ObjectKind::Tree,
            tree_body(trees[i].entries),
        ) {
            Some((ObjectKind::Tree, tree_body(trees[i].entries)))
        } else {
            None
        })),
    ensures
        trees_stored(now, trees.subrange(0, i + 1)),
        new_are_first(before, now, trees, i + 1),
{
    let here = trees[i].entries;
    let path = object_path(hex_of(tree_id(here)));
    let done = trees.subrange(0, i);
    let next = trees.subrange(0, i + 1);
    lemma_written_then_read(here);
    assert(readable(ObjectKind::Tree, tree_body(here)));
    if mid.dom().contains(path) {
        // An earlier tree stands at the path: it is this tree.
        assert(!before.dom().contains(path));
        let j = choose|j: int|
            0 <= j < i && j < trees.len() && path == object_path(
                hex_of(tree_id((#[trigger] trees[j]).entries)),
            );
        assert(done[j] == trees[j]);
        assert(tree_stored(mid, done[j].entries));
        lemma_path_apart(tree_id(trees[j].entries), tree_id(here));
        assert(trees[j].entries == here);
        assert(tree_stored(now, here));
    } else {
        assert(tree_stored(now, here));
    }
    assert forall|k: int| 0 <= k < next.len() implies tree_stored(
        now,
        (#[trigger] next[k]).entries,
    ) by {
        if k < i {
            assert(next[k] == done[k]);
            assert(tree_stored(mid, done[k].entries));
            let pk = object_path(hex_of(tree_id(done[k].entries)));
            if now != mid {
                if pk == path {
                    assert(mid.dom().contains(pk));
                } else {
                    lemma_object_kept(mid, now, path, now[path], pk);
                }
            }
        } else {
            assert(next[k] == trees[i]);
        }
    }
    assert forall|p: Seq<u8>| #[trigger]
        now.dom().contains(p) && !before.dom().contains(p) implies exists|j: int|
        0 <= j < i + 1 && j < trees.len() && p == object_path(
            hex_of(tree_id((#[trigger] trees[j]).entries)),
        ) by {
        if mid.dom().contains(p) {
            let j = choose|j: int|
                0 <= j < i && j < trees.len() && p == object_path(
                    hex_of(tree_id((#[trigger] trees[j]).entries)),
                );
            assert(0 <= j < i + 1 && p == object_path(hex_of(tree_id(trees[j].entries))));
        } else {
            assert(p == path);
            assert(0 <= i < i + 1 && p == object_path(hex_of(tree_id(trees[i].entries))));
        }
    }
}

/// The store has room for the commit of a list of files: it has room
/// for their trees, holds nothing at the path of the commit, whose identity
/// is that of none of the trees, and the ref that `HEAD` moves is no object
/// of the store.
pub open spec fn commit_room(
    files: Map<Seq<u8>, Seq<u8>>,
    es: Seq<PathEntryView>,
    id: Seq<u8>,
) -> bool {
    &&& trees_room(files, es)
    &&& !files.dom().contains(object_path(hex_of(id)))
    &&& forall|i: int| 0 <= i < built(es).len() ==> tree_id((#[trigger] built(es)[i]).entries) != id
    &&& !crate::repo::is_object_path(crate::grefs::head_target(files))
}

/// The commit written after its trees, and the ref moved: the trees and
/// the commit are in the store under their identities.
pub proof fn lemma_commit_stored(
    start: Map<Seq<u8>, Seq<u8>>,
    treed: Map<Seq<u8>, Seq<u8>>,
    stored: Map<Seq<u8>, Seq<u8>>,
    last: Map<Seq<u8>, Seq<u8>>,
    trees: Seq<TreeView>,
    id: Seq<u8>,
    target: Seq<u8>,
)
    requires
        id.len() == 20,
        trees_stored(treed, trees),
        forall|p: Seq<u8>| #[trigger]
            treed.dom().contains(p) && !start.dom().contains(p) ==> exists|j: int|
                0 <= j < trees.len() && p == object_path(
                    hex_of(tree_id((#[trigger] trees[j]).entries)),
                ),
        !start.dom().contains(object_path(hex_of(id))),
        forall|i: int| 0 <= i < trees.len() ==> tree_id((#[trigger] trees[i]).entries) != id,
        treed.dom().contains(object_path(hex_of(id))) ==> stored == treed,
        !treed.dom().contains(object_path(hex_of(id))) ==> stored == treed.insert(
            object_path(hex_of(id)),
            stored[object_path(hex_of(id))],
        ),
        !crate::repo::is_object_path(target),
        last == stored.insert(target, last[target]),
    ensures
        !treed.dom().contains(object_path(hex_of(id))),
        trees_stored(last, trees),
        object_at(last, object_path(hex_of(id))) == object_at(stored, object_path(hex_of(id))),
{
    let at = object_path(hex_of(id));
    if treed.dom().contains(at) {
        let j = choose|j: int|
            0 <= j < trees.len() && at == object_path(
                hex_of(tree_id((#[trigger] trees[j]).entries)),
            );
        assert(tree_stored(treed, trees[j].entries));
        lemma_path_apart(tree_id(trees[j].entries), id);
    }
    assert(crate::repo::is_object_path(at));
    lemma_object_kept(stored, last, target, last[target], at);
    assert forall|k: int| 0 <= k < trees.len() implies tree_stored(
        last,
        (#[trigger] trees[k]).entries,
    ) by {
        assert(tree_stored(treed, trees[k].entries));
        let pk = object_path(hex_of(tree_id(trees[k].entries)));
        assert(crate::repo::is_object_path(pk));
        if pk == at {
            lemma_path_apart(tree_id(trees[k].entries), id);
        }
        lemma_object_kept(treed, stored, at, stored[at], pk);
        lemma_object_kept(stored, last, target, last[target], pk);
    }
}

/// Hexadecimal digits are a word: none of them is a space or a newline.
pub proof fn lemma_hex_word(data: Seq<u8>)
    ensures
        word(hex_of(data)),
{
    lemma_unhex_hex(data);
    let h = hex_of(data);
    assert forall|i: int| 0 <= i < h.len() implies #[trigger] h[i] != 0x0a && h[i] != 0x20 by {
        assert(crate::sha::hex_value(h[i]) is Some);
    }
}

/// The commit that `commit` makes of the index is read back with the tree
/// of the index, where the two persons stand in a commit as they are and
/// `chrono` reads their moments as they were written.
pub proof fn lemma_new_commit_reads_back(
    model: Seq<EntryView>,
    files: Map<Seq<u8>, Seq<u8>>,
    author: PersonView,
    committer: PersonView,
    message: Seq<u8>,
)
    requires
        person_clean(author),
        person_clean(committer),
        stamp_read(author.timestamp, author.offset),
        stamp_read(committer.timestamp, committer.offset),
    ensures
        parsed_commit(new_commit_body(model, files, author, committer, message)) == Some(
            CommitView {
                tree: hex_of(root_id(tree_entries(model))),
                parents: head_parents(files),
                author,
                committer,
                message: commit_message(message),
                content: new_commit_body(model, files, author, committer, message),
            },
        ),
{
    lemma_hex_word(root_id(tree_entries(model)));
    let parents = head_parents(files);
    assert forall|i: int| 0 <= i < parents.len() implies word(#[trigger] parents[i]) by {
        match crate::repo::named_object(files, text("HEAD"@)) {
            Some((kind, body)) => {
                lemma_hex_word(crate::sha::object_id(crate::errors::kind_name(kind), body));
            },
            None => {},
        }
    }
    lemma_commit_reads_back(
        hex_of(root_id(tree_entries(model))),
        parents,
        author,
        committer,
        commit_message(message),
    );
}

/// The fixpoint of `add`, `commit` and `status`, for the commit that
/// `commit` makes. Every file of the work tree was added, the index was
/// committed by persons that stand in a commit as they are, and `HEAD`
/// leads to the commit. Where the store holds the commit and its trees
/// under their identities, and `chrono` reads the two moments as they were
/// written, the status finds nothing.
pub proof fn lemma_fixpoint(
    start: Map<Seq<u8>, EntryView>,
    index: Index,
    paths: Seq<Seq<u8>>,
    work: Map<Seq<u8>, WorkFileView>,
    before: Map<Seq<u8>, Seq<u8>>,
    store: Map<Seq<u8>, Seq<u8>>,
    author: PersonView,
    committer: PersonView,
    message: Seq<u8>,
    head_keys: Seq<Seq<u8>>,
)
    requires
        index.wf(),
        addable(paths),
        forall|p: Seq<u8>| #[trigger] start.dom().contains(p) ==> paths.contains(p) && visible(p),
        index.entry_map() == added_files(start, paths, work, text("."@), paths.len() as int),
        modes_known(index.model()),
        files_ok(tree_entries(index.model())),
        longest(tree_entries(index.model())) < MAX_TREE_DEPTH,
        person_clean(author),
        person_clean(committer),
        stamp_read(author.timestamp, author.offset),
        stamp_read(committer.timestamp, committer.offset),
        trees_stored(store, built(tree_entries(index.model()))),
        resolved(store, text("HEAD"@), MAX_SYMREF_DEPTH as nat) == Ok::<Seq<u8>, RefFault>(
            crate::sha::object_id(
                text("commit"@),
                new_commit_body(index.model(), before, author, committer, message),
            ),
        ),
        object_at(
            store,
            object_path(
                hex_of(
                    crate::sha::object_id(
                        text("commit"@),
                        new_commit_body(index.model(), before, author, committer, message),
                    ),
                ),
            ),
        ) == Some(
            (
                ObjectKind::Commit,
                new_commit_body(index.model(), before, author, committer, message),
            ),
        ),
        head_files(store) is Some ==> forall|k: Seq<u8>|
            head_keys.contains(k) <==> head_files(store)->0.dom().contains(k),
    ensures
        head_files(store) is Some,
        untracked_upto(paths, tracked_set(index), paths.len() as int) == Map::<
            Seq<u8>,
            ChangeType,
        >::empty(),
        work_diff_upto(
            index.model(),
            stats_upto(paths, work, tracked_set(index), paths.len() as int),
            work,
            index.model().len() as int,
        ) == Map::<Seq<u8>, ChangeType>::empty(),
        !any_stale(
            index.model(),
            stats_upto(paths, work, tracked_set(index), paths.len() as int),
            work,
            index.model().len() as int,
        ),
        deleted_upto(
            staged_upto(index.model(), head_files(store)->0, index.model().len() as int),
            head_keys,
            index.entry_map().dom(),
            head_keys.len() as int,
        ) == Map::<Seq<u8>, ChangeType>::empty(),
{
    let body = new_commit_body(index.model(), before, author, committer, message);
    lemma_new_commit_reads_back(index.model(), before, author, committer, message);
    lemma_add_commit_status(
        start,
        index,
        paths,
        work,
        store,
        crate::sha::object_id(text("commit"@), body),
        body,
        head_keys,
    );
}

} // verus!
