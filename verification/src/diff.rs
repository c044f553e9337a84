//! Line diffs: the edit script between two texts, and its hunks.

pub mod edit;
pub mod lcs;
pub mod myers;

use crate::bytes::{decimal, decimal_bytes, lit, text};
use crate::diff::edit::{changes, edits_view, is_script, DiffType, Edit, EditView, LineView};
use crate::diff::lcs::lcs_len;
use crate::diff::myers::{split, str_bytes, Myers};
use vstd::prelude::*;
use vstd::string::*;

verus! {

/// The number of equal lines that a hunk shows before and after its
/// changes.
pub const HUNK_CONTEXT: isize = 3;

/// A hunk as plain values.
pub struct HunkView {
    pub a_start: int,
    pub b_start: int,
    pub edits: Seq<EditView>,
}

/// A group of changes that lie close together, with the equal lines
/// around them.
#[derive(Debug)]
pub struct DiffHunk {
    a_start: usize,
    b_start: usize,
    edits: Vec<Edit>,
}

impl View for DiffHunk {
    type V = HunkView;

    closed spec fn view(&self) -> HunkView {
        HunkView {
            a_start: self.a_start as int,
            b_start: self.b_start as int,
            edits: edits_view(self.edits@),
        }
    }
}

pub open spec fn hunks_view(hunks: Seq<DiffHunk>) -> Seq<HunkView> {
    Seq::new(hunks.len(), |i: int| hunks[i]@)
}

/// An insertion or a deletion.
pub open spec fn is_change(e: EditView) -> bool {
    e.kind != DiffType::Eql
}

/// The position of the first change at or after `i`, or the length of the
/// list where there is none.
pub open spec fn next_change(diff: Seq<EditView>, i: int) -> int
    decreases diff.len() - i,
{
    if 0 <= i < diff.len() && !is_change(diff[i]) {
        next_change(diff, i + 1)
    } else if i < 0 || i > diff.len() {
        diff.len() as int
    } else {
        i
    }
}

/// The last change of the group that begins with the change at `c`: a
/// change belongs to the group of the change before it where at most twice
/// the context lies between them.
pub open spec fn cluster_end(diff: Seq<EditView>, c: int) -> int
    decreases diff.len() - c,
{
    let q = next_change(diff, c + 1);
    if 0 <= c && c < q < diff.len() && q - c - 1 <= 2 * HUNK_CONTEXT {
        cluster_end(diff, q)
    } else {
        c
    }
}

/// The number of a line that may be missing; zero where it is.
pub open spec fn number_or_zero(o: Option<LineView>) -> int {
    match o {
        Some(l) => l.number,
        None => 0,
    }
}

pub open spec fn max0(x: int) -> int {
    if x < 0 {
        0
    } else {
        x
    }
}

pub open spec fn at_most(x: int, limit: int) -> int {
    if x > limit {
        limit
    } else {
        x
    }
}

/// The hunk of the group that begins with the change at `c`: the edits
/// from three before the first change to three after the last, as far as
/// there are any, and as base numbers those of the lines of the edit that
/// stands four before the first change.
pub open spec fn hunk_at(diff: Seq<EditView>, c: int) -> HunkView {
    HunkView {
        a_start: if c - HUNK_CONTEXT - 1 < 0 {
            0
        } else {
            number_or_zero(diff[c - HUNK_CONTEXT - 1].a)
        },
        b_start: if c - HUNK_CONTEXT - 1 < 0 {
            0
        } else {
            number_or_zero(diff[c - HUNK_CONTEXT - 1].b)
        },
        edits: diff.subrange(
            max0(c - HUNK_CONTEXT),
            at_most(cluster_end(diff, c) + HUNK_CONTEXT + 1, diff.len() as int),
        ),
    }
}

/// The hunks of the changes at or after `i`.
pub open spec fn hunks_from(diff: Seq<EditView>, i: int) -> Seq<HunkView>
    decreases diff.len() - i,
{
    let c = next_change(diff, i);
    let l = cluster_end(diff, c);
    if i < 0 || c < i || c >= diff.len() || l < c || l >= diff.len() {
        Seq::empty()
    } else {
        seq![hunk_at(diff, c)] + hunks_from(diff, l + 1)
    }
}

/// The hunks of an edit script.
pub open spec fn hunks_of(diff: Seq<EditView>) -> Seq<HunkView> {
    hunks_from(diff, 0)
}

pub proof fn lemma_next_change(diff: Seq<EditView>, i: int)
    requires
        0 <= i <= diff.len(),
    ensures
        i <= next_change(diff, i) <= diff.len(),
        forall|j: int| i <= j < next_change(diff, i) ==> !is_change(#[trigger] diff[j]),
        next_change(diff, i) < diff.len() ==> is_change(diff[next_change(diff, i)]),
    decreases diff.len() - i,
{
    if i < diff.len() && !is_change(diff[i]) {
        lemma_next_change(diff, i + 1);
    }
}

pub proof fn lemma_next_change_is(diff: Seq<EditView>, i: int, c: int)
    requires
        0 <= i <= c <= diff.len(),
        forall|j: int| i <= j < c ==> !is_change(#[trigger] diff[j]),
        c < diff.len() ==> is_change(diff[c]),
    ensures
        next_change(diff, i) == c,
    decreases c - i,
{
    if i < c {
        lemma_next_change_is(diff, i + 1, c);
    }
}

/// The group that begins at `c` ends at or after `c` with a change, and
/// the next change after it, if there is one, lies more than twice the
/// context away.
pub proof fn lemma_cluster_end(diff: Seq<EditView>, c: int)
    requires
        0 <= c < diff.len(),
        is_change(diff[c]),
    ensures
        c <= cluster_end(diff, c) < diff.len(),
        is_change(diff[cluster_end(diff, c)]),
        next_change(diff, cluster_end(diff, c) + 1) < diff.len() ==> next_change(
            diff,
            cluster_end(diff, c) + 1,
        ) - cluster_end(diff, c) - 1 > 2 * HUNK_CONTEXT,
    decreases diff.len() - c,
{
    lemma_next_change(diff, c + 1);
    let q = next_change(diff, c + 1);
    if c < q < diff.len() && q - c - 1 <= 2 * HUNK_CONTEXT {
        lemma_cluster_end(diff, q);
    }
}

/// Edit `j` lies within the context of a change that stands between `lo`
/// and `hi`.
pub open spec fn near_change(diff: Seq<EditView>, lo: int, hi: int, j: int) -> bool {
    exists|near: int|
        lo <= near <= hi && 0 <= near < diff.len() && is_change(#[trigger] diff[near])
            && -HUNK_CONTEXT <= j - near <= HUNK_CONTEXT
}

/// Every edit from the first change of a group to its last lies within
/// the context of a change of the group.
pub proof fn lemma_cluster_near(diff: Seq<EditView>, c: int, j: int)
    requires
        0 <= c < diff.len(),
        is_change(diff[c]),
        c <= j <= cluster_end(diff, c),
    ensures
        near_change(diff, c, cluster_end(diff, c), j),
    decreases diff.len() - c,
{
    lemma_next_change(diff, c + 1);
    lemma_cluster_end(diff, c);
    let q = next_change(diff, c + 1);
    if c < q < diff.len() && q - c - 1 <= 2 * HUNK_CONTEXT {
        lemma_cluster_end(diff, q);
        if j < q {
            if j - c <= HUNK_CONTEXT {
                assert(is_change(diff[c]) && -HUNK_CONTEXT <= j - c <= HUNK_CONTEXT);
            } else {
                assert(is_change(diff[q]) && -HUNK_CONTEXT <= j - q <= HUNK_CONTEXT);
            }
        } else {
            lemma_cluster_near(diff, q, j);
            let near = choose|near: int|
                q <= near <= cluster_end(diff, q) && 0 <= near < diff.len() && is_change(
                    #[trigger] diff[near],
                ) && -HUNK_CONTEXT <= j - near <= HUNK_CONTEXT;
            assert(c <= near <= cluster_end(diff, c) && is_change(diff[near]));
        }
    } else {
        assert(is_change(diff[c]) && -HUNK_CONTEXT <= j - c <= HUNK_CONTEXT);
    }
}

/// The first changes of the groups of changes at or after `i`, in their
/// order.
pub open spec fn group_starts(diff: Seq<EditView>, i: int) -> Seq<int>
    decreases diff.len() - i,
{
    let c = next_change(diff, i);
    let l = cluster_end(diff, c);
    if i < 0 || c < i || c >= diff.len() || l < c || l >= diff.len() {
        Seq::empty()
    } else {
        seq![c] + group_starts(diff, l + 1)
    }
}

/// Hunk `k` is the hunk of the group that begins with the change at
/// `starts[k]`.
pub open spec fn group_hunk(
    diff: Seq<EditView>,
    starts: Seq<int>,
    hunks: Seq<HunkView>,
    lo: int,
    k: int,
) -> bool {
    &&& lo <= starts[k] < diff.len()
    &&& is_change(diff[starts[k]])
    &&& hunks[k] == hunk_at(diff, starts[k])
}

/// Between the last change of group `k` and the first of the next stand
/// more equal lines than twice the context.
pub open spec fn group_gap(diff: Seq<EditView>, starts: Seq<int>, k: int) -> bool {
    starts[k + 1] - cluster_end(diff, starts[k]) - 1 > 2 * HUNK_CONTEXT
}

/// Edit `j` stands in one of the groups.
pub open spec fn in_group(diff: Seq<EditView>, starts: Seq<int>, j: int) -> bool {
    exists|k: int|
        0 <= k < starts.len() && #[trigger] starts[k] <= j <= cluster_end(diff, starts[k])
}

/// The hunks are those of the groups of changes, in the order of the
/// script. Every hunk is the hunk of a group that begins with a change, so
/// it holds a change; every change at or after `i` stands in a group; and
/// between the last change of a group and the first of the next stand more
/// equal lines than twice the context, so that no edit stands in two hunks.
pub proof fn lemma_hunk_groups(diff: Seq<EditView>, i: int)
    requires
        0 <= i <= diff.len(),
    ensures
        hunks_from(diff, i).len() == group_starts(diff, i).len(),
        forall|k: int|
            0 <= k < group_starts(diff, i).len() ==> #[trigger] group_hunk(
                diff,
                group_starts(diff, i),
                hunks_from(diff, i),
                i,
                k,
            ),
        forall|k: int|
            0 <= k < group_starts(diff, i).len() - 1 ==> #[trigger] group_gap(
                diff,
                group_starts(diff, i),
                k,
            ),
        forall|j: int|
            i <= j < diff.len() && is_change(diff[j]) ==> #[trigger] in_group(
                diff,
                group_starts(diff, i),
                j,
            ),
    decreases diff.len() - i,
{
    lemma_next_change(diff, i);
    let c = next_change(diff, i);
    if c < diff.len() {
        lemma_cluster_end(diff, c);
        let l = cluster_end(diff, c);
        lemma_hunk_groups(diff, l + 1);
        lemma_next_change(diff, l + 1);
        let starts = group_starts(diff, i);
        let rest = group_starts(diff, l + 1);
        let hunks = hunks_from(diff, i);
        let later = hunks_from(diff, l + 1);
        assert(starts == seq![c] + rest);
        assert(hunks == seq![hunk_at(diff, c)] + later);
        assert forall|k: int| 0 <= k < starts.len() implies #[trigger] group_hunk(
            diff,
            starts,
            hunks,
            i,
            k,
        ) by {
            if k > 0 {
                assert(group_hunk(diff, rest, later, l + 1, k - 1));
                assert(starts[k] == rest[k - 1]);
                assert(hunks[k] == later[k - 1]);
            }
        }
        assert forall|k: int| 0 <= k < starts.len() - 1 implies #[trigger] group_gap(
            diff,
            starts,
            k,
        ) by {
            if k == 0 {
                assert(group_hunk(diff, rest, later, l + 1, 0));
                assert(starts[1] == rest[0]);
                lemma_first_start(diff, l + 1);
            } else {
                assert(group_gap(diff, rest, k - 1));
                assert(starts[k] == rest[k - 1]);
                assert(starts[k + 1] == rest[k]);
            }
        }
        assert forall|j: int| i <= j < diff.len() && is_change(diff[j]) implies #[trigger] in_group(
            diff,
            starts,
            j,
        ) by {
            if j <= l {
                assert(starts[0] <= j <= cluster_end(diff, starts[0]));
            } else {
                assert(in_group(diff, rest, j));
                let k = choose|k: int|
                    0 <= k < rest.len() && #[trigger] rest[k] <= j <= cluster_end(diff, rest[k]);
                assert(starts[k + 1] == rest[k]);
                assert(starts[k + 1] <= j <= cluster_end(diff, starts[k + 1]));
            }
        }
    }
}

/// The first group begins with the next change.
proof fn lemma_first_start(diff: Seq<EditView>, i: int)
    requires
        0 <= i <= diff.len(),
        group_starts(diff, i).len() > 0,
    ensures
        group_starts(diff, i)[0] == next_change(diff, i),
{
}

/// Hunk locality. In the hunk of the group that begins with the change at
/// `c`, every edit lies within the context of a change of the hunk; and
/// the first change after the hunk, if there is one, is separated from the
/// last change of the hunk by more than twice the context of equal lines.
pub proof fn lemma_hunk_locality(diff: Seq<EditView>, c: int)
    requires
        0 <= c < diff.len(),
        is_change(diff[c]),
    ensures
        forall|j: int|
            max0(c - HUNK_CONTEXT) <= j < at_most(
                cluster_end(diff, c) + HUNK_CONTEXT + 1,
                diff.len() as int,
            ) ==> #[trigger] near_change(diff, c, cluster_end(diff, c), j),
        forall|j: int|
            cluster_end(diff, c) < j < next_change(diff, cluster_end(diff, c) + 1) ==> !is_change(
                #[trigger] diff[j],
            ),
        next_change(diff, cluster_end(diff, c) + 1) < diff.len() ==> next_change(
            diff,
            cluster_end(diff, c) + 1,
        ) - cluster_end(diff, c) - 1 > 2 * HUNK_CONTEXT,
{
    lemma_cluster_end(diff, c);
    let l = cluster_end(diff, c);
    lemma_next_change(diff, l + 1);
    assert forall|j: int|
        max0(c - HUNK_CONTEXT) <= j < at_most(
            l + HUNK_CONTEXT + 1,
            diff.len() as int,
        ) implies #[trigger] near_change(diff, c, l, j) by {
        if j < c {
            assert(is_change(diff[c]) && -HUNK_CONTEXT <= j - c <= HUNK_CONTEXT);
        } else if j > l {
            assert(is_change(diff[l]) && -HUNK_CONTEXT <= j - l <= HUNK_CONTEXT);
        } else {
            lemma_cluster_near(diff, c, j);
        }
    }
}

/// The number of edits that have a line of the first text.
pub open spec fn count_a(edits: Seq<EditView>) -> nat
    decreases edits.len(),
{
    if edits.len() == 0 {
        0
    } else {
        count_a(edits.drop_last()) + (if edits.last().a is Some {
            1nat
        } else {
            0nat
        })
    }
}

/// The number of edits that have a line of the second text.
pub open spec fn count_b(edits: Seq<EditView>) -> nat
    decreases edits.len(),
{
    if edits.len() == 0 {
        0
    } else {
        count_b(edits.drop_last()) + (if edits.last().b is Some {
            1nat
        } else {
            0nat
        })
    }
}

/// The number of the first line of the first text among the first `upto`
/// edits; `default` where none of them has one.
pub open spec fn first_a(edits: Seq<EditView>, upto: int, default: int) -> int
    decreases upto,
{
    if upto <= 0 {
        default
    } else if count_a(edits.subrange(0, upto - 1)) == 0 && edits[upto - 1].a is Some {
        number_or_zero(edits[upto - 1].a)
    } else {
        first_a(edits, upto - 1, default)
    }
}

/// The number of the first line of the second text among the first `upto`
/// edits; `default` where none of them has one.
pub open spec fn first_b(edits: Seq<EditView>, upto: int, default: int) -> int
    decreases upto,
{
    if upto <= 0 {
        default
    } else if count_b(edits.subrange(0, upto - 1)) == 0 && edits[upto - 1].b is Some {
        number_or_zero(edits[upto - 1].b)
    } else {
        first_b(edits, upto - 1, default)
    }
}

/// The header of a hunk: `@@ -<a_start>,<a_len> +<b_start>,<b_len> @@`,
/// where a start is the number of the first line of that text in the hunk,
/// or the base number of the hunk where it has none, and a length is the
/// number of lines of that text in the hunk.
pub open spec fn header_text(h: HunkView) -> Seq<u8> {
    text("@@ -"@) + decimal(first_a(h.edits, h.edits.len() as int, h.a_start) as nat) + text(","@)
        + decimal(count_a(h.edits)) + text(" +"@) + decimal(
        first_b(h.edits, h.edits.len() as int, h.b_start) as nat,
    ) + text(","@) + decimal(count_b(h.edits)) + text(" @@"@)
}

/// Which side of an edit is meant.
#[derive(Clone, Copy, Debug, PartialEq, Eq, Structural)]
pub enum Side {
    A,
    B,
}

/// The hunks of the edit script between two texts.
pub fn diff_hunks(a: String, b: String) -> (hunks: Vec<DiffHunk>)
    requires
        4 * (split(str_bytes(a@)).len() + split(str_bytes(b@)).len()) + 4 <= isize::MAX,
    ensures
        exists|script: Seq<EditView>|
            is_script(script, split(str_bytes(a@)), split(str_bytes(b@))) && changes(script)
                == split(str_bytes(a@)).len() + split(str_bytes(b@)).len() - 2 * lcs_len(
                split(str_bytes(a@)),
                split(str_bytes(b@)),
            ) && #[trigger] hunks_of(script) == hunks_view(hunks@),
{
    let differ = Myers::new(a, b);
    let script = differ.diff();
    let ghost sv = edits_view(script@);
    let hunks = DiffHunk::filter(script);
    assert(hunks_of(sv) == hunks_view(hunks@));
    hunks
}

impl DiffHunk {
    /// The edits of the hunk.
    pub fn edits(&self) -> (e: &Vec<Edit>)
        ensures
            edits_view(e@) == self@.edits,
    {
        &self.edits
    }

    /// The base number for the lines of the first text.
    pub fn a_start(&self) -> (n: usize)
        ensures
            n == self@.a_start,
    {
        self.a_start
    }

    /// The base number for the lines of the second text.
    pub fn b_start(&self) -> (n: usize)
        ensures
            n == self@.b_start,
    {
        self.b_start
    }

    /// Cuts an edit script into hunks: one for every group of changes that
    /// lie at most twice the context apart, each with the context before
    /// its first change and after its last.
    pub fn filter(diff: Vec<Edit>) -> (hunks: Vec<DiffHunk>)
        requires
            diff@.len() + 2 * HUNK_CONTEXT + 2 <= isize::MAX,
        ensures
            hunks_view(hunks@) == hunks_of(edits_view(diff@)),
    {
        let ghost dv = edits_view(diff@);
        let len: isize = diff.len() as isize;
        let mut hunks: Vec<DiffHunk> = Vec::new();
        let mut offset: isize = 0;
        assert(hunks_view(hunks@) =~= Seq::<HunkView>::empty());
        assert(Seq::<HunkView>::empty() + hunks_from(dv, 0) =~= hunks_from(dv, 0));
        loop
            invariant
                dv == edits_view(diff@),
                len == diff@.len(),
                len + 2 * HUNK_CONTEXT + 2 <= isize::MAX,
                0 <= offset <= len + 1,
                hunks_of(dv) == hunks_view(hunks@) + hunks_from(dv, offset as int),
            decreases len + 1 - offset,
        {
            let ghost start = offset as int;
            while offset < len && diff[offset as usize].kind() == DiffType::Eql
                invariant
                    dv == edits_view(diff@),
                    len == diff@.len(),
                    0 <= start <= offset <= len + 1,
                    start <= len ==> offset <= len,
                    forall|j: int| start <= j < offset ==> !is_change(#[trigger] dv[j]),
                decreases len - offset,
            {
                offset += 1;
            }
            if offset >= len {
                proof {
                    if start <= len {
                        lemma_next_change_is(dv, start, len as int);
                    }
                    assert(hunks_from(dv, start) =~= Seq::<HunkView>::empty());
                    assert(hunks_view(hunks@) + Seq::<HunkView>::empty() =~= hunks_view(hunks@));
                }
                return hunks;
            }
            let ghost c = offset as int;
            proof {
                lemma_next_change_is(dv, start, c);
                lemma_cluster_end(dv, c);
            }
            offset -= HUNK_CONTEXT + 1;
            let a_start: usize = if offset < 0 {
                0
            } else {
                match diff[offset as usize].a() {
                    Some(l) => l.number(),
                    None => 0,
                }
            };
            let b_start: usize = if offset < 0 {
                0
            } else {
                match diff[offset as usize].b() {
                    Some(l) => l.number(),
                    None => 0,
                }
            };
            let mut hunk = DiffHunk { a_start, b_start, edits: Vec::new() };
            assert(edits_view(hunk.edits@) =~= Seq::<EditView>::empty());
            offset = hunk.build(&diff, offset);
            proof {
                let l = cluster_end(dv, c);
                assert(hunk@ == hunk_at(dv, c));
                let ghost before = hunks_view(hunks@);
                assert(hunks_from(dv, start) == seq![hunk_at(dv, c)] + hunks_from(dv, l + 1));
                // Nothing changes between the end of the group and the
                // place where the search goes on.
                lemma_next_change(dv, l + 1);
                if offset <= len {
                    lemma_next_change_is(dv, offset as int, next_change(dv, l + 1));
                    assert(hunks_from(dv, offset as int) == hunks_from(dv, l + 1));
                } else {
                    assert(next_change(dv, l + 1) == len);
                    assert(hunks_from(dv, l + 1) =~= Seq::<HunkView>::empty());
                    assert(hunks_from(dv, offset as int) =~= Seq::<HunkView>::empty());
                }
                assert(hunks_view(hunks@.push(hunk)) =~= before + seq![hunk@]);
                assert(before + (seq![hunk@] + hunks_from(dv, l + 1)) =~= (before + seq![hunk@])
                    + hunks_from(dv, l + 1));
            }
            hunks.push(hunk);
        }
    }

    /// Fills the hunk with the edits of the group whose first change stands
    /// at `offset + HUNK_CONTEXT + 1`, and says where the search for the
    /// next group goes on.
    pub fn build(&mut self, diff: &Vec<Edit>, offset: isize) -> (next: isize)
        requires
            diff@.len() + 2 * HUNK_CONTEXT + 2 <= isize::MAX,
            old(self)@.edits.len() == 0,
            0 <= offset + HUNK_CONTEXT + 1 < diff@.len(),
            is_change(edits_view(diff@)[offset + HUNK_CONTEXT + 1]),
        ensures
            final(self)@.a_start == old(self)@.a_start,
            final(self)@.b_start == old(self)@.b_start,
            final(self)@.edits == hunk_at(edits_view(diff@), offset + HUNK_CONTEXT + 1).edits,
            next == at_most(
                cluster_end(edits_view(diff@), offset + HUNK_CONTEXT + 1) + HUNK_CONTEXT + 1,
                diff@.len() as int + 1,
            ),
            forall|j: int|
                cluster_end(edits_view(diff@), offset + HUNK_CONTEXT + 1) < j < next && j
                    < diff@.len() ==> !is_change(#[trigger] edits_view(diff@)[j]),
    {
        let ghost dv = edits_view(diff@);
        let ghost c = offset + HUNK_CONTEXT + 1;
        let ghost lo = max0(c - HUNK_CONTEXT);
        let len: isize = diff.len() as isize;
        let mut offset = offset;
        let mut counter: isize = -1;
        let ghost mut last: int = c;
        assert(dv.subrange(lo, lo) =~= Seq::<EditView>::empty());
        let mut stopped = false;
        while counter != 0
            invariant_except_break
                dv == edits_view(diff@),
                len == diff@.len(),
                len + 2 * HUNK_CONTEXT + 2 <= isize::MAX,
                0 <= c < len,
                is_change(dv[c]),
                lo == max0(c - HUNK_CONTEXT),
                self@.a_start == old(self)@.a_start,
                self@.b_start == old(self)@.b_start,
                !stopped,
                counter == -1 ==> offset == c - HUNK_CONTEXT - 1 && self@.edits.len() == 0,
                counter == -1 || counter >= 0,
                counter >= 0 ==> {
                    &&& c - HUNK_CONTEXT <= offset <= len
                    &&& c <= last < len
                    &&& is_change(dv[last])
                    &&& last <= offset + HUNK_CONTEXT
                    &&& forall|j: int|
                        last < j <= offset + HUNK_CONTEXT && j < len ==> !is_change(
                            #[trigger] dv[j],
                        )
                    &&& counter == last + HUNK_CONTEXT + 1 - offset
                    &&& cluster_end(dv, c) == cluster_end(dv, last)
                    &&& self@.edits == dv.subrange(lo, max0(offset as int))
                },
            ensures
                self@.a_start == old(self)@.a_start,
                self@.b_start == old(self)@.b_start,
                c <= last < len,
                is_change(dv[last]),
                cluster_end(dv, c) == cluster_end(dv, last),
                forall|j: int| last < j <= offset + HUNK_CONTEXT && j < len ==> !is_change(#[trigger] dv[j]),
                stopped ==> offset == len + 1 && last + HUNK_CONTEXT + 1 > len && self@.edits
                    == dv.subrange(lo, len as int),
                !stopped ==> offset == last + HUNK_CONTEXT + 1 && offset <= len && self@.edits
                    == dv.subrange(lo, offset as int),
            decreases
                    (if counter == -1 {
                        len + 2 * HUNK_CONTEXT + 4
                    } else {
                        len + 1 - offset
                    }),
        {
            if offset >= 0 && counter > 0 && offset < len {
                let ghost before = self@.edits;
                let e = diff[offset as usize].duplicate();
                self.edits.push(e);
                proof {
                    assert(self@.edits =~= before.push(dv[offset as int]));
                    assert(self@.edits =~= dv.subrange(lo, offset + 1));
                }
            }
            offset += 1;
            if offset > len {
                stopped = true;
                proof {
                    assert(self@.edits =~= dv.subrange(lo, len as int));
                }
                break;
            }
            proof {
                if counter > 0 {
                    assert(self@.edits =~= dv.subrange(lo, max0(offset as int)));
                } else {
                    assert(self@.edits =~= dv.subrange(lo, max0(offset as int)));
                }
            }
            let idx: isize = offset + HUNK_CONTEXT;
            if idx >= len {
                counter -= 1;
                proof {
                    if counter < 0 {
                        assert(false);
                    }
                }
                continue;
            }
            match diff[idx as usize].kind() {
                DiffType::Eql => {
                    counter -= 1;
                },
                _ => {
                    proof {
                        if counter > 0 {
                            // A change within reach of the last one
                            // belongs to its group.
                            lemma_next_change_is(dv, last + 1, idx as int);
                            assert(cluster_end(dv, last) == cluster_end(dv, idx as int));
                        }
                        last = idx as int;
                    }
                    counter = 2 * HUNK_CONTEXT + 1;
                },
            }
        }
        proof {
            // No change follows the last one within twice the context, so
            // the group ends with it.
            lemma_next_change(dv, last + 1);
            let q = next_change(dv, last + 1);
            if q < len {
                assert(q > offset + HUNK_CONTEXT || q >= len) by {
                    if q <= offset + HUNK_CONTEXT {
                        assert(!is_change(dv[q]));
                    }
                }
            }
            assert(cluster_end(dv, last) == last);
        }
        offset
    }

    /// The start and the number of the lines of one text in the hunk: the
    /// number of the first such line, or `default` where there is none,
    /// and how many there are.
    pub fn offsets_for(&self, side: Side, default: usize) -> (r: (usize, usize))
        ensures
            side == Side::A ==> r.0 == first_a(
                self@.edits,
                self@.edits.len() as int,
                default as int,
            ) && r.1 == count_a(self@.edits),
            side == Side::B ==> r.0 == first_b(
                self@.edits,
                self@.edits.len() as int,
                default as int,
            ) && r.1 == count_b(self@.edits),
    {
        let ghost ev = self@.edits;
        let mut start: usize = default;
        let mut count: usize = 0;
        let mut i: usize = 0;
        assert(ev.subrange(0, 0) =~= Seq::<EditView>::empty());
        while i < self.edits.len()
            invariant
                ev == self@.edits,
                ev.len() == self.edits@.len(),
                i <= ev.len(),
                count <= i,
                side == Side::A ==> start == first_a(ev, i as int, default as int) && count
                    == count_a(ev.subrange(0, i as int)),
                side == Side::B ==> start == first_b(ev, i as int, default as int) && count
                    == count_b(ev.subrange(0, i as int)),
            decreases ev.len() - i,
        {
            let line = match side {
                Side::A => self.edits[i].a(),
                Side::B => self.edits[i].b(),
            };
            proof {
                let next = ev.subrange(0, i + 1);
                assert(next.drop_last() =~= ev.subrange(0, i as int));
                assert(next.last() == ev[i as int]);
                assert(ev[i as int] == self.edits@[i as int]@);
            }
            match line {
                Some(l) => {
                    if count == 0 {
                        start = l.number();
                    }
                    count += 1;
                },
                None => {},
            }
            i += 1;
        }
        assert(ev.subrange(0, ev.len() as int) =~= ev);
        (start, count)
    }

    /// The header of the hunk: `@@ -<a_start>,<a_len> +<b_start>,<b_len> @@`.
    pub fn header(&self) -> (out: Vec<u8>)
        ensures
            out@ == header_text(self@),
    {
        proof {
            reveal_strlit("@@ -");
            reveal_strlit(",");
            reveal_strlit(" +");
            reveal_strlit(" @@");
        }
        let a = self.offsets_for(Side::A, self.a_start);
        let b = self.offsets_for(Side::B, self.b_start);
        let mut out = lit("@@ -");
        let n1 = decimal_bytes(a.0 as u64);
        out.extend_from_slice(n1.as_slice());
        let comma = lit(",");
        out.extend_from_slice(comma.as_slice());
        let n2 = decimal_bytes(a.1 as u64);
        out.extend_from_slice(n2.as_slice());
        let plus = lit(" +");
        out.extend_from_slice(plus.as_slice());
        let n3 = decimal_bytes(b.0 as u64);
        out.extend_from_slice(n3.as_slice());
        out.extend_from_slice(comma.as_slice());
        let n4 = decimal_bytes(b.1 as u64);
        out.extend_from_slice(n4.as_slice());
        let tail = lit(" @@");
        out.extend_from_slice(tail.as_slice());
        out
    }
}

} // verus!
