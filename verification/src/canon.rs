//! The records of the trees that are built stand in the order of their
//! names, one record for each name.

use crate::bytes::{
    first_diff, has_prefix, index_of, lemma_first_diff, lemma_first_diff_is, lemma_index_of,
    lemma_lex_total, lemma_lex_transitive, lemma_prefix_lex_lt, lex_lt,
};
use crate::index::entry::{is_parent_dir, lemma_prefix_interval, lemma_prefix_not_below};
use crate::object::snapshot::{
    built, distinct, lemma_sorted, lemma_strict, level, levels, longest, sorted,
};
use crate::object::tree::{Mode, PathEntryView, TreeView};
use crate::stored::{
    clean_from, file_ok, files_ok, group_next, in_dir, lead, lemma_group_dir, lemma_group_end,
    lemma_longest,
};
use vstd::prelude::*;

verus! {

/// The name of a record as it counts in the order of a tree: the name
/// of a directory counts with a slash after it.
pub open spec fn order_name(e: PathEntryView) -> Seq<u8> {
    if e.mode == Mode::Tree {
        e.path.push(0x2f)
    } else {
        e.path
    }
}

/// The records stand in strictly ascending byte order of their names.
pub open spec fn records_ascend(entries: Seq<PathEntryView>) -> bool {
    forall|i: int, j: int|
        0 <= i < j < entries.len() ==> lex_lt(
            order_name(#[trigger] entries[i]),
            order_name(#[trigger] entries[j]),
        )
}

/// No path is a directory above another.
pub open spec fn no_file_above(es: Seq<PathEntryView>) -> bool {
    forall|i: int, j: int|
        0 <= i < es.len() && 0 <= j < es.len() ==> !is_parent_dir(
            (#[trigger] es[i]).path,
            (#[trigger] es[j]).path,
        )
}

/// The first component of a path from position `plen` on, with the slash
/// after it where more follows.
pub open spec fn head_name(path: Seq<u8>, plen: int) -> Seq<u8> {
    let s = index_of(path, 0x2f, plen);
    if s < path.len() {
        path.subrange(plen, s + 1)
    } else {
        path.subrange(plen, path.len() as int)
    }
}

/// The paths stand in strictly ascending order, and none is that of a
/// tree.
spec fn strict(es: Seq<PathEntryView>) -> bool {
    &&& forall|i: int, j: int|
        0 <= i < j < es.len() ==> lex_lt((#[trigger] es[i]).path, (#[trigger] es[j]).path)
    &&& forall|i: int| 0 <= i < es.len() ==> (#[trigger] es[i]).mode != Mode::Tree
}

/// A name that can stand in a record: not empty, and without a slash or
/// a NUL.
pub open spec fn name_fits(name: Seq<u8>) -> bool {
    &&& name.len() > 0
    &&& forall|i: int| 0 <= i < name.len() ==> #[trigger] name[i] != 0 && name[i] != 0x2f
}

/// Every record has a name that can stand in a record.
pub open spec fn names_fit(entries: Seq<PathEntryView>) -> bool {
    forall|k: int| 0 <= k < entries.len() ==> name_fits((#[trigger] entries[k]).path)
}

/// What holds of the trees of a directory: the records of the directory
/// and of every tree below it ascend and have names that can stand in a
/// record, and the name of every record of the directory is the first
/// component of one of the paths.
spec fn in_order(es: Seq<PathEntryView>, lo: int, hi: int, plen: int, depth: nat) -> bool {
    let here = level(es, lo, hi, plen, depth);
    &&& records_ascend(here.entries)
    &&& names_fit(here.entries)
    &&& forall|k: int|
        0 <= k < here.trees.len() ==> records_ascend((#[trigger] here.trees[k]).entries)
            && names_fit(here.trees[k].entries)
    &&& forall|k: int|
        0 <= k < here.entries.len() ==> exists|t: int|
            lo <= t < hi && order_name(#[trigger] here.entries[k]) == head_name(
                (#[trigger] es[t]).path,
                plen,
            )
}

/// Of two paths in the same directory, the second after the first and
/// neither below the first component of the other, the first components
/// stand in the order of the paths.
proof fn lemma_head_less(a: Seq<u8>, b: Seq<u8>, plen: int)
    requires
        0 <= plen < a.len(),
        plen < b.len(),
        a.subrange(0, plen) == b.subrange(0, plen),
        lex_lt(a, b),
        index_of(a, 0x2f, plen) >= a.len() ==> !is_parent_dir(a, b),
        index_of(a, 0x2f, plen) < a.len() ==> !has_prefix(
            b,
            a.subrange(0, index_of(a, 0x2f, plen) + 1),
        ),
    ensures
        lex_lt(head_name(a, plen), head_name(b, plen)),
{
    let sa = index_of(a, 0x2f, plen);
    let sb = index_of(b, 0x2f, plen);
    lemma_index_of(a, 0x2f, plen);
    lemma_index_of(b, 0x2f, plen);
    let ha = head_name(a, plen);
    let hb = head_name(b, plen);
    let ea: int = if sa < a.len() {
        sa + 1
    } else {
        a.len() as int
    };
    let eb: int = if sb < b.len() {
        sb + 1
    } else {
        b.len() as int
    };
    assert forall|j: int| 0 <= j < plen implies a[j] == b[j] by {
        assert(a.subrange(0, plen)[j] == a[j]);
        assert(b.subrange(0, plen)[j] == b[j]);
    }
    lemma_first_diff(a, b, 0);
    let d = first_diff(a, b, 0);
    if d < plen {
        assert(a[d] == b[d]);
    }
    assert(d >= plen);
    // The paths differ within the first component of the first.
    if sa < a.len() && d > sa {
        assert(b.subrange(0, sa + 1) =~= a.subrange(0, sa + 1));
    }
    if d >= a.len() {
        // The first path is the beginning of the second.
        assert(sa >= a.len());
        assert(d == a.len());
        assert(b.subrange(0, a.len() as int) =~= a);
        assert(b[a.len() as int] != 0x2f);
        assert forall|j: int| plen <= j <= a.len() implies b[j] != 0x2f by {
            if j < a.len() {
                assert(b[j] == a[j]);
            }
        }
        assert(sb > a.len());
        assert(hb.subrange(0, ha.len() as int) =~= ha);
        lemma_prefix_lex_lt(ha, hb);
    } else {
        assert(d < ea);
        assert(a[d] < b[d]);
        assert forall|j: int| plen <= j < d implies b[j] != 0x2f by {
            assert(b[j] == a[j]);
        }
        assert(sb >= d);
        assert(eb > d);
        assert forall|j: int| 0 <= j < d - plen implies ha[j] == hb[j] by {
            assert(ha[j] == a[plen + j] && hb[j] == b[plen + j]);
        }
        assert(ha[d - plen] == a[d] && hb[d - plen] == b[d]);
        lemma_first_diff_is(ha, hb, 0, d - plen);
    }
}

/// What stands after the group of a directory does not lie in the
/// directory.
proof fn lemma_after_group(es: Seq<PathEntryView>, lo: int, hi: int, plen: int, t: int)
    requires
        0 <= lo < hi <= es.len(),
        strict(es),
        0 <= plen < es[lo].path.len(),
        index_of(es[lo].path, 0x2f, plen) < es[lo].path.len(),
        group_next(es, lo, hi, plen) <= t < hi,
    ensures
        !has_prefix(
            es[t].path,
            es[lo].path.subrange(0, index_of(es[lo].path, 0x2f, plen) + 1),
        ),
{
    let s = index_of(es[lo].path, 0x2f, plen);
    lemma_index_of(es[lo].path, 0x2f, plen);
    let group = es[lo].path.subrange(0, s + 1);
    let next = group_next(es, lo, hi, plen);
    lemma_group_end(es, lo + 1, hi, group);
    assert(has_prefix(es[lo].path, group));
    if t > next && has_prefix(es[t].path, group) {
        lemma_prefix_not_below(es[lo].path, group);
        assert(lex_lt(es[lo].path, es[next].path));
        assert(lex_lt(es[next].path, es[t].path));
        if lex_lt(es[next].path, group) {
            lemma_lex_transitive(es[lo].path, es[next].path, group);
        }
        lemma_prefix_interval(es[next].path, es[t].path, group);
    }
}

/// One record more in front, which comes before all the others.
proof fn lemma_ascend_front(x: PathEntryView, rest: Seq<PathEntryView>)
    requires
        records_ascend(rest),
        forall|k: int| 0 <= k < rest.len() ==> lex_lt(order_name(x), order_name(#[trigger] rest[k])),
    ensures
        records_ascend(seq![x] + rest),
        name_fits(x.path) && names_fit(rest) ==> names_fit(seq![x] + rest),
{
    let all = seq![x] + rest;
    if name_fits(x.path) && names_fit(rest) {
        assert forall|k: int| 0 <= k < all.len() implies name_fits((#[trigger] all[k]).path) by {
            if k > 0 {
                assert(all[k] == rest[k - 1]);
            }
        }
    }
    assert forall|i: int, j: int| 0 <= i < j < all.len() implies lex_lt(
        order_name(#[trigger] all[i]),
        order_name(#[trigger] all[j]),
    ) by {
        assert(all[j] == rest[j - 1]);
        if i > 0 {
            assert(all[i] == rest[i - 1]);
        }
    }
}

/// The trees of a directory are in order.
proof fn lemma_level_order(
    es: Seq<PathEntryView>,
    lo: int,
    hi: int,
    plen: int,
    depth: nat,
    prefix: Seq<u8>,
)
    requires
        0 <= lo <= hi <= es.len(),
        strict(es),
        no_file_above(es),
        in_dir(es, lo, hi, plen, depth, prefix),
    ensures
        in_order(es, lo, hi, plen, depth),
    decreases depth, hi - lo,
{
    let here = level(es, lo, hi, plen, depth);
    if lo < hi {
        let e = es[lo];
        assert(clean_from(e.path, plen));
        let s = index_of(e.path, 0x2f, plen);
        lemma_index_of(e.path, 0x2f, plen);
        if s >= e.path.len() {
            let rest = level(es, lo + 1, hi, plen, depth);
            let x = PathEntryView {
                path: e.path.subrange(plen, e.path.len() as int),
                mode: e.mode,
                sha: e.sha,
            };
            assert(here.entries == seq![x] + rest.entries);
            assert(here.trees == rest.trees);
            lemma_level_order(es, lo + 1, hi, plen, depth, prefix);
            assert(order_name(x) == head_name(e.path, plen));
            assert forall|k: int| 0 <= k < rest.entries.len() implies lex_lt(
                order_name(x),
                order_name(#[trigger] rest.entries[k]),
            ) by {
                let t = choose|t: int|
                    lo + 1 <= t < hi && order_name(#[trigger] rest.entries[k]) == head_name(
                        (#[trigger] es[t]).path,
                        plen,
                    );
                assert(clean_from(es[t].path, plen));
                assert(lex_lt(es[lo].path, es[t].path));
                lemma_head_less(e.path, es[t].path, plen);
            }
            assert(name_fits(x.path)) by {
                assert forall|i: int| 0 <= i < x.path.len() implies #[trigger] x.path[i] != 0
                    && x.path[i] != 0x2f by {
                    assert(x.path[i] == e.path[plen + i]);
                }
            }
            lemma_ascend_front(x, rest.entries);
            assert forall|k: int| 0 <= k < here.entries.len() implies exists|t: int|
                lo <= t < hi && order_name(#[trigger] here.entries[k]) == head_name(
                    (#[trigger] es[t]).path,
                    plen,
                ) by {
                if k == 0 {
                    assert(here.entries[0] == x);
                    assert(lo <= lo < hi && order_name(here.entries[0]) == head_name(
                        es[lo].path,
                        plen,
                    ));
                } else {
                    assert(here.entries[k] == rest.entries[k - 1]);
                    let t = choose|t: int|
                        lo + 1 <= t < hi && order_name(#[trigger] rest.entries[k - 1])
                            == head_name((#[trigger] es[t]).path, plen);
                    assert(lo <= t < hi && order_name(here.entries[k]) == head_name(
                        es[t].path,
                        plen,
                    ));
                }
            }
        } else {
            lemma_group_dir(es, lo, hi, plen, depth, prefix);
            let next = group_next(es, lo, hi, plen);
            let sub = level(es, lo, next, s + 1, (depth - 1) as nat);
            let rest = level(es, next, hi, plen, depth);
            let name = e.path.subrange(plen, s);
            let x = PathEntryView {
                path: name,
                mode: Mode::Tree,
                sha: crate::object::tree::tree_id(sub.entries),
            };
            let t_sub = TreeView { label: name, entries: sub.entries };
            assert(here.entries == seq![x] + rest.entries);
            assert(here.trees == sub.trees + seq![t_sub] + rest.trees);
            lemma_level_order(es, lo, next, s + 1, (depth - 1) as nat, e.path.subrange(0, s));
            lemma_level_order(es, next, hi, plen, depth, prefix);
            assert(order_name(x) =~= head_name(e.path, plen));
            assert forall|k: int| 0 <= k < rest.entries.len() implies lex_lt(
                order_name(x),
                order_name(#[trigger] rest.entries[k]),
            ) by {
                let t = choose|t: int|
                    next <= t < hi && order_name(#[trigger] rest.entries[k]) == head_name(
                        (#[trigger] es[t]).path,
                        plen,
                    );
                assert(clean_from(es[t].path, plen));
                assert(lex_lt(es[lo].path, es[t].path));
                lemma_after_group(es, lo, hi, plen, t);
                lemma_head_less(e.path, es[t].path, plen);
            }
            assert(name_fits(x.path)) by {
                assert forall|i: int| 0 <= i < name.len() implies #[trigger] name[i] != 0 && name[i]
                    != 0x2f by {
                    assert(name[i] == e.path[plen + i]);
                }
            }
            lemma_ascend_front(x, rest.entries);
            assert forall|k: int| 0 <= k < here.trees.len() implies records_ascend(
                (#[trigger] here.trees[k]).entries,
            ) && names_fit(here.trees[k].entries) by {
                if k < sub.trees.len() {
                    assert(here.trees[k] == sub.trees[k]);
                } else if k == sub.trees.len() {
                    assert(here.trees[k] == t_sub);
                } else {
                    assert(here.trees[k] == rest.trees[k - sub.trees.len() - 1]);
                }
            }
            assert forall|k: int| 0 <= k < here.entries.len() implies exists|t: int|
                lo <= t < hi && order_name(#[trigger] here.entries[k]) == head_name(
                    (#[trigger] es[t]).path,
                    plen,
                ) by {
                if k == 0 {
                    assert(here.entries[0] == x);
                    assert(lo <= lo < hi && order_name(here.entries[0]) == head_name(
                        es[lo].path,
                        plen,
                    ));
                } else {
                    assert(here.entries[k] == rest.entries[k - 1]);
                    let t = choose|t: int|
                        next <= t < hi && order_name(#[trigger] rest.entries[k - 1]) == head_name(
                            (#[trigger] es[t]).path,
                            plen,
                        );
                    assert(lo <= t < hi && order_name(here.entries[k]) == head_name(
                        es[t].path,
                        plen,
                    ));
                }
            }
        }
    }
}

/// The order of the records. Whatever the order in which the files are
/// given, in every tree that is built for them the records stand in
/// strictly ascending byte order of their names, the name of a directory
/// counting with a slash after it, and every name can stand in a record.
/// So no tree holds two records of one name, and there is one record for
/// each directory. The files have clean paths, no two the same and none a
/// directory above another.
pub proof fn lemma_records_in_order(es: Seq<PathEntryView>)
    requires
        files_ok(es),
        no_file_above(es),
    ensures
        forall|k: int|
            0 <= k < built(es).len() ==> records_ascend((#[trigger] built(es)[k]).entries)
                && names_fit(built(es)[k].entries),
{
    let ss = sorted(es);
    lemma_sorted(es);
    assert(distinct(es));
    lemma_strict(ss);
    assert forall|i: int| 0 <= i < ss.len() implies file_ok(#[trigger] ss[i]) by {
        assert(ss.contains(ss[i]));
        assert(es.contains(ss[i]));
        let t = choose|t: int| 0 <= t < es.len() && es[t] == ss[i];
        assert(file_ok(es[t]));
    }
    assert(no_file_above(ss)) by {
        assert forall|i: int, j: int| 0 <= i < ss.len() && 0 <= j < ss.len() implies !is_parent_dir(
            (#[trigger] ss[i]).path,
            (#[trigger] ss[j]).path,
        ) by {
            assert(ss.contains(ss[i]) && ss.contains(ss[j]));
            assert(es.contains(ss[i]) && es.contains(ss[j]));
            let a = choose|a: int| 0 <= a < es.len() && es[a] == ss[i];
            let b = choose|b: int| 0 <= b < es.len() && es[b] == ss[j];
            assert(!is_parent_dir(es[a].path, es[b].path));
        }
    }
    let n = ss.len() as int;
    let nothing = Seq::<u8>::empty();
    lemma_longest(ss);
    assert forall|i: int| 0 <= i < n implies (#[trigger] ss[i]).path.subrange(0, 0) == lead(
        nothing,
    ) by {
        assert(ss[i].path.subrange(0, 0) =~= nothing);
    }
    assert(in_dir(ss, 0, n, 0, longest(ss), nothing));
    lemma_level_order(ss, 0, n, 0, longest(ss), nothing);
    let top = level(ss, 0, n, 0, longest(ss));
    let all = built(es);
    assert(all == levels(ss));
    assert forall|k: int| 0 <= k < all.len() implies records_ascend((#[trigger] all[k]).entries)
        && names_fit(all[k].entries) by {
        if k < top.trees.len() {
            assert(all[k] == top.trees[k]);
        } else {
            assert(all[k].entries == top.entries);
        }
    }
}

/// Records in ascending order have names that all differ.
pub proof fn lemma_one_record(entries: Seq<PathEntryView>, i: int, j: int)
    requires
        records_ascend(entries),
        0 <= i < entries.len(),
        0 <= j < entries.len(),
        i != j,
    ensures
        order_name(entries[i]) != order_name(entries[j]),
{
    lemma_lex_total(order_name(entries[i]), order_name(entries[j]));
}

} // verus!
