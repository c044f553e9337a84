//! An index that is in step with the work tree: what `add` leaves, and
//! what `status` then finds.

use crate::bytes::text;
use crate::index::entry::{ancestors, is_parent_dir, lemma_ancestors, name_ok, EntryView};
use crate::index::meta::FileStat;
use crate::index::{added, Index};
use crate::pathmap::lemma_map_at;
use crate::repo::{added_files, fresh_entry, taken};
use crate::object::tree::{mode_word, PathEntryView};
use crate::status::{
    any_stale, blob_id, deleted_upto, first_missing, lemma_clean_deleted, lemma_clean_staged,
    lemma_clean_untracked, lemma_clean_work, lemma_one_modified, same_stat, same_time, staged_upto,
    stats_upto, tracked_set, untracked_name, untracked_upto, work_diff_upto, ChangeType,
};
use crate::workspace::{visible, WorkFileView};
use vstd::prelude::*;
use vstd::string::*;

verus! {

/// The index holds the files of the work tree that are seen, and no
/// other, each as `add` makes its entry.
pub open spec fn in_step(
    entries: Map<Seq<u8>, EntryView>,
    paths: Seq<Seq<u8>>,
    files: Map<Seq<u8>, WorkFileView>,
) -> bool {
    &&& forall|p: Seq<u8>| #[trigger] entries.dom().contains(p) <==> paths.contains(p) && visible(p)
    &&& forall|p: Seq<u8>| #[trigger]
        entries.dom().contains(p) ==> entries[p] == fresh_entry(p, files[p])
}

/// The files of the work tree can all stand in an index: the path of each
/// that is seen can be the name of an entry, and no path is a directory
/// above another.
pub open spec fn addable(paths: Seq<Seq<u8>>) -> bool {
    &&& forall|j: int| 0 <= j < paths.len() && visible(#[trigger] paths[j]) ==> name_ok(paths[j])
    &&& forall|i: int, j: int|
        0 <= i < paths.len() && 0 <= j < paths.len() ==> !is_parent_dir(
            #[trigger] paths[i],
            #[trigger] paths[j],
        )
}

/// What holds of the entries after the first `i` files were added.
spec fn added_so_far(
    entries: Map<Seq<u8>, EntryView>,
    paths: Seq<Seq<u8>>,
    files: Map<Seq<u8>, WorkFileView>,
    i: int,
) -> bool {
    &&& forall|p: Seq<u8>| #[trigger] entries.dom().contains(p) ==> paths.contains(p) && visible(p)
    &&& forall|j: int|
        0 <= j < i && visible(#[trigger] paths[j]) ==> entries.dom().contains(paths[j])
            && entries[paths[j]] == fresh_entry(paths[j], files[paths[j]])
}

proof fn lemma_added_so_far(
    start: Map<Seq<u8>, EntryView>,
    paths: Seq<Seq<u8>>,
    files: Map<Seq<u8>, WorkFileView>,
    i: int,
)
    requires
        0 <= i <= paths.len(),
        addable(paths),
        forall|p: Seq<u8>| #[trigger] start.dom().contains(p) ==> paths.contains(p) && visible(p),
    ensures
        added_so_far(added_files(start, paths, files, text("."@), i), paths, files, i),
    decreases i,
{
    reveal_strlit(".");
    if i > 0 {
        lemma_added_so_far(start, paths, files, i - 1);
        let before = added_files(start, paths, files, text("."@), i - 1);
        let after = added_files(start, paths, files, text("."@), i);
        let p = paths[i - 1];
        if visible(p) {
            assert(taken(text("."@), p));
            let e = fresh_entry(p, files[p]);
            assert(after == added(before, e));
            assert forall|k: Seq<u8>| #[trigger] after.dom().contains(k) implies paths.contains(k)
                && visible(k) by {
                if k != p {
                    assert(before.dom().contains(k));
                }
            }
            assert forall|j: int| 0 <= j < i && visible(#[trigger] paths[j]) implies after.dom().contains(
                paths[j],
            ) && after[paths[j]] == fresh_entry(paths[j], files[paths[j]]) by {
                if paths[j] != p {
                    assert(before.dom().contains(paths[j]));
                    assert(!is_parent_dir(paths[j], paths[i - 1]));
                    assert(!is_parent_dir(paths[i - 1], paths[j]));
                }
            }
        } else {
            assert(!taken(text("."@), p));
            assert(after == before);
        }
    }
}

/// After every file of the work tree was added, to an index that held
/// files of the work tree only, the index is in step with the work tree.
pub proof fn lemma_add_all(
    start: Map<Seq<u8>, EntryView>,
    paths: Seq<Seq<u8>>,
    files: Map<Seq<u8>, WorkFileView>,
)
    requires
        addable(paths),
        forall|p: Seq<u8>| #[trigger] start.dom().contains(p) ==> paths.contains(p) && visible(p),
    ensures
        in_step(added_files(start, paths, files, text("."@), paths.len() as int), paths, files),
{
    let n = paths.len() as int;
    let entries = added_files(start, paths, files, text("."@), n);
    lemma_added_so_far(start, paths, files, n);
    assert forall|p: Seq<u8>| paths.contains(p) && visible(p) implies #[trigger] entries.dom().contains(
        p,
    ) && entries[p] == fresh_entry(p, files[p]) by {
        let j = choose|j: int| 0 <= j < paths.len() && paths[j] == p;
        assert(visible(paths[j]));
    }
}

/// Where every directory is known, none is missing.
proof fn lemma_none_missing(known: Set<Seq<u8>>, dirs: Seq<Seq<u8>>, i: int)
    requires
        0 <= i,
        forall|j: int| 0 <= j < dirs.len() ==> known.contains(#[trigger] dirs[j]),
    ensures
        first_missing(known, dirs, i) is None,
    decreases dirs.len() - i,
{
    if i < dirs.len() {
        lemma_none_missing(known, dirs, i + 1);
    }
}

/// The stats that the status takes of the files that are seen and known.
proof fn lemma_stats(
    paths: Seq<Seq<u8>>,
    files: Map<Seq<u8>, WorkFileView>,
    known: Set<Seq<u8>>,
    i: int,
)
    requires
        0 <= i <= paths.len(),
    ensures
        forall|j: int|
            0 <= j < i && visible(#[trigger] paths[j]) && untracked_name(known, paths[j]) is None
                ==> stats_upto(paths, files, known, i).dom().contains(paths[j]) && stats_upto(
                paths,
                files,
                known,
                i,
            )[paths[j]] == files[paths[j]].stat,
    decreases i,
{
    if i > 0 {
        lemma_stats(paths, files, known, i - 1);
    }
}

/// An index that is in step with the work tree shows no untracked name
/// and no change against the work tree, and none of its entries has stale
/// times.
pub proof fn lemma_in_step_clean(
    index: Index,
    paths: Seq<Seq<u8>>,
    files: Map<Seq<u8>, WorkFileView>,
)
    requires
        index.wf(),
        in_step(index.entry_map(), paths, files),
    ensures
        untracked_upto(paths, tracked_set(index), paths.len() as int) == Map::<
            Seq<u8>,
            ChangeType,
        >::empty(),
        work_diff_upto(
            index.model(),
            stats_upto(paths, files, tracked_set(index), paths.len() as int),
            files,
            index.model().len() as int,
        ) == Map::<Seq<u8>, ChangeType>::empty(),
        !any_stale(
            index.model(),
            stats_upto(paths, files, tracked_set(index), paths.len() as int),
            files,
            index.model().len() as int,
        ),
{
    index.lemma_invariants();
    let known = tracked_set(index);
    let entries = index.entry_map();
    let names = index.names();
    let model = index.model();
    let n = paths.len() as int;
    assert forall|j: int| 0 <= j < paths.len() && visible(#[trigger] paths[j]) implies untracked_name(
        known,
        paths[j],
    ) is None by {
        let p = paths[j];
        assert(paths.contains(p));
        assert(entries.dom().contains(p));
        assert(names.contains(p));
        let t = choose|t: int| 0 <= t < names.len() && names[t] == p;
        let dirs = ancestors(p);
        lemma_ancestors(p, p.len() as int);
        assert forall|d: int| 0 <= d < dirs.len() implies known.contains(#[trigger] dirs[d]) by {
            assert(dirs.contains(dirs[d]));
            assert(is_parent_dir(dirs[d], names[t]));
            assert(index.parents().dom().contains(dirs[d]));
        }
        lemma_none_missing(known, dirs, 0);
        assert(known.contains(p));
    }
    lemma_clean_untracked(paths, known, n);
    let stats = stats_upto(paths, files, known, n);
    lemma_stats(paths, files, known, n);
    assert forall|j: int| 0 <= j < model.len() implies stats.dom().contains(
        (#[trigger] model[j]).name,
    ) && same_stat(model[j], stats[model[j].name]) && same_time(model[j], stats[model[j].name]) by {
        let name = names[j];
        assert(model[j].name == name);
        lemma_map_at(names, model, j);
        assert(entries.dom().contains(name));
        assert(entries[name] == model[j]);
        assert(paths.contains(name) && visible(name));
        let t = choose|t: int| 0 <= t < paths.len() && paths[t] == name;
        assert(visible(paths[t]));
        assert(stats[paths[t]] == files[paths[t]].stat);
        assert(model[j] == fresh_entry(name, files[name]));
    }
    lemma_clean_work(model, stats, files, model.len() as int);
}

/// The index holds the files of the work tree that are seen, and no
/// other.
pub open spec fn covers(entries: Map<Seq<u8>, EntryView>, paths: Seq<Seq<u8>>) -> bool {
    forall|p: Seq<u8>| #[trigger] entries.dom().contains(p) <==> paths.contains(p) && visible(p)
}

/// Where the index holds the files of the work tree that are seen, and
/// no other, the status finds no untracked name, and takes the stat of the
/// file of every entry.
pub proof fn lemma_covered(index: Index, paths: Seq<Seq<u8>>, files: Map<Seq<u8>, WorkFileView>)
    requires
        index.wf(),
        covers(index.entry_map(), paths),
    ensures
        untracked_upto(paths, tracked_set(index), paths.len() as int) == Map::<
            Seq<u8>,
            ChangeType,
        >::empty(),
        forall|p: Seq<u8>| #[trigger]
            index.entry_map().dom().contains(p) ==> stats_upto(
                paths,
                files,
                tracked_set(index),
                paths.len() as int,
            ).dom().contains(p) && stats_upto(
                paths,
                files,
                tracked_set(index),
                paths.len() as int,
            )[p] == files[p].stat,
{
    index.lemma_invariants();
    let known = tracked_set(index);
    let entries = index.entry_map();
    let names = index.names();
    let n = paths.len() as int;
    assert forall|j: int| 0 <= j < paths.len() && visible(#[trigger] paths[j]) implies untracked_name(
        known,
        paths[j],
    ) is None by {
        let p = paths[j];
        assert(paths.contains(p));
        assert(entries.dom().contains(p));
        assert(names.contains(p));
        let t = choose|t: int| 0 <= t < names.len() && names[t] == p;
        let dirs = ancestors(p);
        lemma_ancestors(p, p.len() as int);
        assert forall|d: int| 0 <= d < dirs.len() implies known.contains(#[trigger] dirs[d]) by {
            assert(dirs.contains(dirs[d]));
            assert(is_parent_dir(dirs[d], names[t]));
            assert(index.parents().dom().contains(dirs[d]));
        }
        lemma_none_missing(known, dirs, 0);
        assert(known.contains(p));
    }
    lemma_clean_untracked(paths, known, n);
    let stats = stats_upto(paths, files, known, n);
    lemma_stats(paths, files, known, n);
    assert forall|p: Seq<u8>| #[trigger] entries.dom().contains(p) implies stats.dom().contains(p)
        && stats[p] == files[p].stat by {
        assert(paths.contains(p) && visible(p));
        let t = choose|t: int| 0 <= t < paths.len() && paths[t] == p;
        assert(visible(paths[t]));
        assert(stats[paths[t]] == files[paths[t]].stat);
    }
}

/// One file of the work tree was touched so that the status can see it,
/// and the index is in step with all the others: the status finds no
/// untracked name, that one file as modified and no other change against
/// the work tree, and no entry with stale times. The status sees a change
/// of the size or of the mode, and a change of the content that comes with
/// a change of one of the four time words.
pub proof fn lemma_one_touched(
    index: Index,
    paths: Seq<Seq<u8>>,
    files: Map<Seq<u8>, WorkFileView>,
    path: Seq<u8>,
)
    requires
        index.wf(),
        covers(index.entry_map(), paths),
        index.entry_map().dom().contains(path),
        forall|p: Seq<u8>| #[trigger]
            index.entry_map().dom().contains(p) && p != path ==> index.entry_map()[p]
                == fresh_entry(p, files[p]),
        !same_stat(index.entry_map()[path], files[path].stat) || (!same_time(
            index.entry_map()[path],
            files[path].stat,
        ) && blob_id(files[path].content) != index.entry_map()[path].sha),
    ensures
        untracked_upto(paths, tracked_set(index), paths.len() as int) == Map::<
            Seq<u8>,
            ChangeType,
        >::empty(),
        work_diff_upto(
            index.model(),
            stats_upto(paths, files, tracked_set(index), paths.len() as int),
            files,
            index.model().len() as int,
        ) == Map::<Seq<u8>, ChangeType>::empty().insert(path, ChangeType::Modified),
        !any_stale(
            index.model(),
            stats_upto(paths, files, tracked_set(index), paths.len() as int),
            files,
            index.model().len() as int,
        ),
{
    lemma_covered(index, paths, files);
    index.lemma_invariants();
    let stats = stats_upto(paths, files, tracked_set(index), paths.len() as int);
    let entries = index.entry_map();
    let model = index.model();
    let names = index.names();
    lemma_one_change(index, stats, files, path);
    assert forall|j: int| 0 <= j < model.len() implies !crate::status::stale(
        #[trigger] model[j],
        stats,
        files,
    ) by {
        lemma_map_at(names, model, j);
        assert(entries.dom().contains(names[j]));
        assert(entries[names[j]] == model[j]);
        assert(model[j].name == names[j]);
    }
}

/// The tree holds the files of the index, and no other, each with the
/// mode and the digest of its entry.
pub open spec fn committed(
    entries: Map<Seq<u8>, EntryView>,
    head: Map<Seq<u8>, PathEntryView>,
) -> bool {
    &&& forall|p: Seq<u8>| #[trigger] head.dom().contains(p) <==> entries.dom().contains(p)
    &&& forall|p: Seq<u8>| #[trigger]
        entries.dom().contains(p) ==> mode_word(head[p].mode) == entries[p].meta.mode
            && head[p].sha == entries[p].sha
}

/// Where the tree of `HEAD` holds the files of the index, with their
/// modes and digests, no change is staged.
pub proof fn lemma_committed_clean(
    index: Index,
    head: Map<Seq<u8>, PathEntryView>,
    head_keys: Seq<Seq<u8>>,
)
    requires
        index.wf(),
        committed(index.entry_map(), head),
        forall|k: Seq<u8>| head_keys.contains(k) <==> head.dom().contains(k),
    ensures
        deleted_upto(
            staged_upto(index.model(), head, index.model().len() as int),
            head_keys,
            index.entry_map().dom(),
            head_keys.len() as int,
        ) == Map::<Seq<u8>, ChangeType>::empty(),
{
    index.lemma_invariants();
    let entries = index.entry_map();
    let names = index.names();
    let model = index.model();
    assert forall|j: int| 0 <= j < model.len() implies head.dom().contains(
        (#[trigger] model[j]).name,
    ) && mode_word(head[model[j].name].mode) == model[j].meta.mode && head[model[j].name].sha
        == model[j].sha by {
        lemma_map_at(names, model, j);
        assert(entries.dom().contains(names[j]));
    }
    lemma_clean_staged(model, head, model.len() as int);
    assert forall|j: int| 0 <= j < head_keys.len() implies entries.dom().contains(
        #[trigger] head_keys[j],
    ) by {
        assert(head_keys.contains(head_keys[j]));
    }
    lemma_clean_deleted(
        Map::<Seq<u8>, ChangeType>::empty(),
        head_keys,
        entries.dom(),
        head_keys.len() as int,
    );
}

/// One file that was changed so that the status can see it, in a work
/// tree with which the index is otherwise in step, is the one change
/// against the work tree, and it is a modification. The status sees a
/// change of the size or of the mode, and a change of the content that
/// comes with a change of one of the four time words.
pub proof fn lemma_one_change(
    index: Index,
    stats: Map<Seq<u8>, FileStat>,
    files: Map<Seq<u8>, WorkFileView>,
    path: Seq<u8>,
)
    requires
        index.wf(),
        index.entry_map().dom().contains(path),
        forall|p: Seq<u8>| #[trigger] index.entry_map().dom().contains(p) ==> stats.dom().contains(p),
        forall|p: Seq<u8>| #[trigger]
            index.entry_map().dom().contains(p) && p != path ==> same_stat(
                index.entry_map()[p],
                stats[p],
            ) && same_time(index.entry_map()[p], stats[p]),
        !same_stat(index.entry_map()[path], stats[path]) || (!same_time(
            index.entry_map()[path],
            stats[path],
        ) && !(files.dom().contains(path) && blob_id(files[path].content)
            == index.entry_map()[path].sha)),
    ensures
        work_diff_upto(index.model(), stats, files, index.model().len() as int) == Map::<
            Seq<u8>,
            ChangeType,
        >::empty().insert(path, ChangeType::Modified),
{
    index.lemma_invariants();
    let names = index.names();
    let model = index.model();
    assert(names.contains(path));
    let k = choose|k: int| 0 <= k < names.len() && names[k] == path;
    assert forall|j: int| 0 <= j < model.len() implies (#[trigger] model[j]).name == names[j]
        && index.entry_map()[names[j]] == model[j] && index.entry_map().dom().contains(names[j]) by {
        lemma_map_at(names, model, j);
    }
    assert forall|j: int| 0 <= j < model.len() && j != k implies names[j] != path by {
        if j < k {
            crate::bytes::lemma_lex_irreflexive(path);
            assert(crate::bytes::lex_lt(names[j], names[k]));
        } else {
            crate::bytes::lemma_lex_irreflexive(path);
            assert(crate::bytes::lex_lt(names[k], names[j]));
        }
    }
    lemma_one_modified(model, stats, files, k, model.len() as int);
}

} // verus!
