//! The Myers algorithm: a shortest edit script between two texts, found by
//! following the furthest-reaching paths diagonal by diagonal.

use crate::bytes::{bytes_eq, find_byte, index_of, slice_range};
use crate::diff::edit::{
    changes, edit_ok, edits_view, is_script, line_of, walk_x, walk_y, DiffType, Edit, EditView,
    Line,
};
use crate::diff::lcs::{
    dist, is_furthest, is_match, lcs_len, lemma_beyond_end, lemma_dist_bounds, lemma_dist_lcs,
    lemma_furthest_unique, lemma_greedy, lemma_greedy_first, lemma_not_reached, lemma_reached,
    lemma_snake, snake, Lines,
};
use crate::wrapping_vec::{lemma_wrap_distinct, lemma_wrap_small, wrap, WrappingVec};
use vstd::prelude::*;
use vstd::string::*;

verus! {

/// A line without the carriage return that may stand at its end.
pub open spec fn strip_cr(line: Seq<u8>) -> Seq<u8> {
    if line.len() > 0 && line.last() == 0x0d {
        line.drop_last()
    } else {
        line
    }
}

/// The lines of a text from position `i` on. A line ends with a newline,
/// or with a carriage return and a newline, which are not part of it; the
/// last line need not end with either.
pub open spec fn lines_from(t: Seq<u8>, i: int) -> Lines
    decreases t.len() - i,
{
    let j = index_of(t, 0x0a, i);
    if i < 0 || i >= t.len() || j < i {
        Seq::empty()
    } else if j >= t.len() {
        seq![t.subrange(i, t.len() as int)]
    } else {
        seq![strip_cr(t.subrange(i, j))] + lines_from(t, j + 1)
    }
}

/// The lines of a text.
pub open spec fn split(t: Seq<u8>) -> Lines {
    lines_from(t, 0)
}

pub open spec fn lines_view(v: Seq<Vec<u8>>) -> Lines {
    Seq::new(v.len(), |k: int| v[k]@)
}

/// The lines of a text.
pub fn split_lines(t: &[u8]) -> (out: Vec<Vec<u8>>)
    ensures
        lines_view(out@) == split(t@),
{
    let mut out: Vec<Vec<u8>> = Vec::new();
    let mut i: usize = 0;
    let len = t.len();
    assert(lines_view(out@) =~= Seq::<Seq<u8>>::empty());
    assert(Seq::<Seq<u8>>::empty() + lines_from(t@, 0) =~= lines_from(t@, 0));
    while i < len
        invariant
            len == t@.len(),
            i <= len,
            split(t@) == lines_view(out@) + lines_from(t@, i as int),
        decreases len - i,
    {
        let j = find_byte(t, 0x0a, i);
        let ghost before = lines_view(out@);
        if j >= len {
            out.push(slice_range(t, i, len));
            proof {
                assert(lines_view(out@) =~= before + seq![t@.subrange(i as int, len as int)]);
                assert(lines_from(t@, len as int) =~= Seq::<Seq<u8>>::empty());
                assert(before + lines_from(t@, i as int) =~= lines_view(out@) + lines_from(
                    t@,
                    len as int,
                ));
            }
            i = len;
        } else {
            let end: usize = if j > i && t[j - 1] == 0x0d {
                j - 1
            } else {
                j
            };
            out.push(slice_range(t, i, end));
            proof {
                let piece = t@.subrange(i as int, j as int);
                if j > i {
                    assert(piece.last() == t@[j - 1]);
                }
                assert(strip_cr(piece) =~= t@.subrange(i as int, end as int));
                assert(lines_view(out@) =~= before + seq![strip_cr(piece)]);
                assert(before + (seq![strip_cr(piece)] + lines_from(t@, j + 1)) =~= lines_view(
                    out@,
                ) + lines_from(t@, j + 1));
            }
            i = j + 1;
        }
    }
    proof {
        assert(lines_from(t@, len as int) =~= Seq::<Seq<u8>>::empty());
        assert(lines_view(out@) + Seq::<Seq<u8>>::empty() =~= lines_view(out@));
    }
    out
}

/// One step of the path through the two texts, from `(prev_x, prev_y)` to
/// `(x, y)`.
#[derive(Clone, Copy, Debug, PartialEq, Eq, Structural)]
pub struct Trace {
    pub prev_x: usize,
    pub prev_y: usize,
    pub x: usize,
    pub y: usize,
}

impl Trace {
    pub fn new(prev_x: isize, prev_y: isize, x: isize, y: isize) -> (t: Trace)
        requires
            prev_x >= 0,
            prev_y >= 0,
            x >= 0,
            y >= 0,
        ensures
            t.prev_x == prev_x,
            t.prev_y == prev_y,
            t.x == x,
            t.y == y,
    {
        Trace { prev_x: prev_x as usize, prev_y: prev_y as usize, x: x as usize, y: y as usize }
    }

    pub fn prev_x(&self) -> (r: usize)
        ensures
            r == self.prev_x,
    {
        self.prev_x
    }

    pub fn prev_y(&self) -> (r: usize)
        ensures
            r == self.prev_y,
    {
        self.prev_y
    }

    pub fn x(&self) -> (r: usize)
        ensures
            r == self.x,
    {
        self.x
    }

    pub fn y(&self) -> (r: usize)
        ensures
            r == self.y,
    {
        self.y
    }
}

/// Line `i` of `a` is equal to the line of `b` that lies on diagonal `k`
/// with it.
pub open spec fn diag_match(a: Lines, b: Lines, k: int, i: int) -> bool {
    is_match(a, b, i, i - k)
}

/// The value that the array of furthest positions holds for diagonal `k`.
pub open spec fn vget(v: Seq<isize>, k: int) -> int {
    v[wrap(k, v.len() as int)] as int
}

/// After round `d` the array holds, for every diagonal of that round, the
/// furthest position that `d` insertions and deletions reach.
#[verifier::opaque]
pub open spec fn round_ok(a: Lines, b: Lines, v: Seq<isize>, d: int) -> bool {
    forall|k: int|
        -d <= k <= d && (k + d) % 2 == 0 ==> is_furthest(a, b, d, k, #[trigger] vget(v, k))
            && vget(v, k) <= a.len() + d
}

/// In round `d` the diagonals below `k` are done, and none of them has
/// reached the end of both texts.
#[verifier::opaque]
pub open spec fn partial_ok(a: Lines, b: Lines, v: Seq<isize>, d: int, k: int) -> bool {
    forall|j: int|
        -d <= j < k && (j + d) % 2 == 0 ==> is_furthest(a, b, d, j, #[trigger] vget(v, j))
            && vget(v, j) <= a.len() + d && !(vget(v, j) >= a.len() && vget(v, j) - j >= b.len())
}

/// The arrays with which the rounds began: each of the right size, the
/// first with the start of the search in it, each later one the result of
/// the round before.
#[verifier::opaque]
pub open spec fn rounds_ok(a: Lines, b: Lines, trace: Seq<WrappingVec<isize>>) -> bool {
    &&& forall|j: int|
        0 <= j < trace.len() ==> (#[trigger] trace[j]).wf() && trace[j]@.len() == 2 * (a.len()
            + b.len()) + 1
    &&& trace.len() >= 1 ==> vget(trace[0]@, 1) == 0
    &&& forall|j: int| 1 <= j < trace.len() ==> round_ok(a, b, (#[trigger] trace[j])@, j - 1)
}

/// The arrays that the search leaves behind: one for every round up to
/// the one that reached the end, which is the round of the edit distance.
pub open spec fn trace_ok(a: Lines, b: Lines, trace: Seq<WrappingVec<isize>>) -> bool {
    &&& trace.len() >= 1
    &&& trace.len() - 1 == dist(a, b, a.len() as int, b.len() as int)
    &&& rounds_ok(a, b, trace)
}

proof fn lemma_rounds_push(a: Lines, b: Lines, trace: Seq<WrappingVec<isize>>, v: WrappingVec<isize>)
    requires
        rounds_ok(a, b, trace),
        v.wf(),
        v@.len() == 2 * (a.len() + b.len()) + 1,
        trace.len() == 0 ==> vget(v@, 1) == 0,
        trace.len() >= 1 ==> round_ok(a, b, v@, trace.len() - 1),
    ensures
        rounds_ok(a, b, trace.push(v)),
{
    reveal(rounds_ok);
    let t2 = trace.push(v);
    assert forall|j: int| 0 <= j < t2.len() implies (#[trigger] t2[j]).wf() && t2[j]@.len() == 2 * (
    a.len() + b.len()) + 1 by {
        if j < trace.len() {
            assert(t2[j] == trace[j]);
        }
    }
    assert forall|j: int| 1 <= j < t2.len() implies round_ok(a, b, (#[trigger] t2[j])@, j - 1) by {
        if j < trace.len() {
            assert(t2[j] == trace[j]);
        }
    }
    if trace.len() >= 1 {
        assert(t2[0] == trace[0]);
    }
}

/// What round `d` reads for diagonal `k`: the furthest positions of the
/// two neighbouring diagonals after round `d - 1`.
proof fn lemma_read(a: Lines, b: Lines, v: Seq<isize>, d: int, k: int)
    requires
        d >= 1,
        round_ok(a, b, v, d - 1),
        -d <= k <= d,
        (k + d) % 2 == 0,
    ensures
        k > -d ==> is_furthest(a, b, d - 1, k - 1, vget(v, k - 1)) && vget(v, k - 1) <= a.len() + d
            - 1,
        k < d ==> is_furthest(a, b, d - 1, k + 1, vget(v, k + 1)) && vget(v, k + 1) <= a.len() + d
            - 1,
{
    reveal(round_ok);
    if k > -d {
        assert((k - 1 + (d - 1)) % 2 == 0);
    }
    if k < d {
        assert((k + 1 + (d - 1)) % 2 == 0);
    }
}

/// Writing the furthest position of diagonal `k` in round `d` leaves the
/// other diagonals as they were.
proof fn lemma_write(a: Lines, b: Lines, v0: Seq<isize>, v1: Seq<isize>, d: int, k: int, x: isize)
    requires
        0 <= d <= a.len() + b.len(),
        -d <= k <= d,
        (k + d) % 2 == 0,
        v0.len() == 2 * (a.len() + b.len()) + 1,
        v1 == v0.update(wrap(k, v0.len() as int), x),
        partial_ok(a, b, v0, d, k),
        d >= 1 ==> round_ok(a, b, v0, d - 1),
        is_furthest(a, b, d, k, x as int),
        x <= a.len() + d,
        !(x >= a.len() && x - k >= b.len()),
    ensures
        partial_ok(a, b, v1, d, k + 2),
        d >= 1 ==> round_ok(a, b, v1, d - 1),
{
    reveal(round_ok);
    reveal(partial_ok);
    let size = v0.len() as int;
    lemma_wrap_small(k, size);
    assert forall|j: int| -d <= j <= d && j != k implies vget(v1, j) == vget(v0, j) by {
        lemma_wrap_small(j, size);
        lemma_wrap_distinct(j, k, size);
    }
    assert(vget(v1, k) == x);
    assert forall|j: int| -d <= j < k + 2 && (j + d) % 2 == 0 implies is_furthest(
        a,
        b,
        d,
        j,
        #[trigger] vget(v1, j),
    ) && vget(v1, j) <= a.len() + d && !(vget(v1, j) >= a.len() && vget(v1, j) - j >= b.len()) by {
        if j < k {
            assert(vget(v1, j) == vget(v0, j));
        } else {
            assert(j == k);
        }
    }
    if d >= 1 {
        assert forall|j: int| -(d - 1) <= j <= d - 1 && (j + (d - 1)) % 2 == 0 implies is_furthest(
            a,
            b,
            d - 1,
            j,
            #[trigger] vget(v1, j),
        ) && vget(v1, j) <= a.len() + (d - 1) by {
            assert(j != k);
            assert(vget(v1, j) == vget(v0, j));
        }
    }
}

/// A round that is over without the end being reached: the array is that
/// of the round, and the end lies further away.
proof fn lemma_round_done(a: Lines, b: Lines, v: Seq<isize>, d: int, k: int)
    requires
        0 <= d,
        k > d,
        partial_ok(a, b, v, d, k),
        dist(a, b, a.len() as int, b.len() as int) >= d,
    ensures
        round_ok(a, b, v, d),
        dist(a, b, a.len() as int, b.len() as int) >= d + 1,
{
    reveal(round_ok);
    reveal(partial_ok);
    let n = a.len() as int;
    let m = b.len() as int;
    lemma_dist_bounds(a, b, n, m);
    if dist(a, b, n, m) == d {
        let k0 = n - m;
        assert((n + m - d) % 2 == 0);
        assert(k0 + d == (n + m - d) + 2 * (d - m));
        assert((k0 + d) % 2 == 0);
        lemma_not_reached(a, b, d, vget(v, k0));
    }
}

/// A step of the path: a diagonal step over two equal lines, a step to
/// the right over a line of `a`, or a step down over a line of `b`.
pub open spec fn step_ok(a: Lines, b: Lines, t: Trace) -> bool {
    ||| t.x == t.prev_x + 1 && t.y == t.prev_y + 1 && is_match(a, b, t.prev_x as int, t.prev_y as int)
    ||| t.x == t.prev_x + 1 && t.y == t.prev_y && t.prev_x < a.len() && t.y <= b.len()
    ||| t.x == t.prev_x && t.y == t.prev_y + 1 && t.prev_y < b.len() && t.x <= a.len()
}

/// The steps lead back from `(x0, y0)` to `(x1, y1)`, each beginning where
/// the next one ends.
#[verifier::opaque]
pub open spec fn chain_ok(a: Lines, b: Lines, ts: Seq<Trace>, x0: int, y0: int, x1: int, y1: int) -> bool {
    &&& forall|j: int| 0 <= j < ts.len() ==> step_ok(a, b, #[trigger] ts[j])
    &&& forall|j: int|
        0 <= j < ts.len() - 1 ==> (#[trigger] ts[j + 1]).x == ts[j].prev_x && ts[j + 1].y
            == ts[j].prev_y
    &&& if ts.len() == 0 {
        x0 == x1 && y0 == y1
    } else {
        ts[0].x == x0 && ts[0].y == y0 && ts.last().prev_x == x1 && ts.last().prev_y == y1
    }
}

/// Whether a step is an insertion or a deletion.
pub open spec fn is_change(t: Trace) -> bool {
    t.x == t.prev_x || t.y == t.prev_y
}

/// The number of steps that are not diagonal.
pub open spec fn nondiag(ts: Seq<Trace>) -> int
    decreases ts.len(),
{
    if ts.len() == 0 {
        0
    } else {
        nondiag(ts.drop_last()) + (if is_change(ts.last()) {
            1int
        } else {
            0int
        })
    }
}

/// One more step at the end of the way back.
proof fn lemma_chain_push(a: Lines, b: Lines, ts: Seq<Trace>, t: Trace, x0: int, y0: int)
    requires
        chain_ok(a, b, ts, x0, y0, t.x as int, t.y as int),
        step_ok(a, b, t),
    ensures
        chain_ok(a, b, ts.push(t), x0, y0, t.prev_x as int, t.prev_y as int),
        nondiag(ts.push(t)) == nondiag(ts) + (if is_change(t) {
            1int
        } else {
            0int
        }),
{
    reveal(chain_ok);
    let t2 = ts.push(t);
    assert(t2.drop_last() =~= ts);
    assert forall|j: int| 0 <= j < t2.len() implies step_ok(a, b, #[trigger] t2[j]) by {
        if j < ts.len() {
            assert(t2[j] == ts[j]);
        }
    }
    assert forall|j: int| 0 <= j < t2.len() - 1 implies (#[trigger] t2[j + 1]).x == t2[j].prev_x
        && t2[j + 1].y == t2[j].prev_y by {
        assert(t2[j] == ts[j]);
        if j + 1 < ts.len() {
            assert(t2[j + 1] == ts[j + 1]);
        }
    }
}

/// The edit that a step of the path stands for.
pub open spec fn edit_of(a: Lines, b: Lines, t: Trace) -> EditView {
    if t.x == t.prev_x {
        EditView { kind: DiffType::Ins, a: None, b: Some(line_of(b, t.prev_y as int)) }
    } else if t.y == t.prev_y {
        EditView { kind: DiffType::Del, a: Some(line_of(a, t.prev_x as int)), b: None }
    } else {
        EditView {
            kind: DiffType::Eql,
            a: Some(line_of(a, t.prev_x as int)),
            b: Some(line_of(b, t.prev_y as int)),
        }
    }
}

/// The edits are those of the steps, the last step first.
pub open spec fn turned(a: Lines, b: Lines, ts: Seq<Trace>, edits: Seq<EditView>) -> bool {
    &&& edits.len() == ts.len()
    &&& forall|i: int|
        0 <= i < edits.len() ==> #[trigger] edits[i] == edit_of(a, b, ts[ts.len() - 1 - i])
}

proof fn lemma_walk(a: Lines, b: Lines, ts: Seq<Trace>, edits: Seq<EditView>, k: int)
    requires
        chain_ok(a, b, ts, a.len() as int, b.len() as int, 0, 0),
        turned(a, b, ts, edits),
        0 <= k <= ts.len(),
    ensures
        walk_x(edits, k) == (if k == 0 {
            0int
        } else {
            ts[ts.len() - k].x as int
        }),
        walk_y(edits, k) == (if k == 0 {
            0int
        } else {
            ts[ts.len() - k].y as int
        }),
    decreases k,
{
    reveal(chain_ok);
    if k > 0 {
        lemma_walk(a, b, ts, edits, k - 1);
        let n = ts.len() as int;
        let t = ts[n - k];
        assert(step_ok(a, b, t));
        assert(edits[k - 1] == edit_of(a, b, ts[n - 1 - (k - 1)]));
        if k > 1 {
            assert(ts[(n - k) + 1].x == t.prev_x && ts[(n - k) + 1].y == t.prev_y);
        }
    }
}

proof fn lemma_changes_front(e: EditView, rest: Seq<EditView>)
    ensures
        changes(seq![e] + rest) == changes(rest) + (if e.kind != DiffType::Eql {
            1int
        } else {
            0int
        }),
    decreases rest.len(),
{
    let all = seq![e] + rest;
    assert(all.len() == 1 + rest.len());
    if rest.len() == 0 {
        assert(all.drop_last() =~= Seq::<EditView>::empty());
        assert(all.last() == e);
        assert(changes(all.drop_last()) == 0);
    } else {
        lemma_changes_front(e, rest.drop_last());
        assert(all.drop_last() =~= seq![e] + rest.drop_last());
        assert(all.last() == rest.last());
    }
}

proof fn lemma_changes(a: Lines, b: Lines, ts: Seq<Trace>, edits: Seq<EditView>)
    requires
        turned(a, b, ts, edits),
    ensures
        changes(edits) == nondiag(ts),
    decreases ts.len(),
{
    if ts.len() > 0 {
        let rest = edits.subrange(1, edits.len() as int);
        let ts2 = ts.drop_last();
        assert forall|i: int| 0 <= i < rest.len() implies #[trigger] rest[i] == edit_of(
            a,
            b,
            ts2[ts2.len() - 1 - i],
        ) by {
            assert(rest[i] == edits[i + 1]);
        }
        lemma_changes(a, b, ts2, rest);
        assert(edits =~= seq![edits[0]] + rest);
        lemma_changes_front(edits[0], rest);
        assert(edits[0] == edit_of(a, b, ts[ts.len() - 1 - 0]));
    }
}

/// The steps of a path from the end back to the origin, turned round, are
/// a script from `a` to `b`, with as many insertions and deletions as the
/// path has steps that are not diagonal.
pub proof fn lemma_script(a: Lines, b: Lines, ts: Seq<Trace>, edits: Seq<EditView>)
    requires
        chain_ok(a, b, ts, a.len() as int, b.len() as int, 0, 0),
        turned(a, b, ts, edits),
    ensures
        is_script(edits, a, b),
        changes(edits) == nondiag(ts),
{
    reveal(chain_ok);
    let n = ts.len() as int;
    lemma_changes(a, b, ts, edits);
    lemma_walk(a, b, ts, edits, n);
    assert forall|k: int| 0 <= k < n implies edit_ok(
        #[trigger] edits[k],
        a,
        b,
        walk_x(edits, k),
        walk_y(edits, k),
    ) by {
        lemma_walk(a, b, ts, edits, k);
        let t = ts[n - 1 - k];
        assert(step_ok(a, b, t));
        if k > 0 {
            assert(ts[(n - 1 - k) + 1].x == t.prev_x);
        }
    }
}

/// On the way back in round `d`: the position from which the run of equal
/// lines to `x` on diagonal `k` began.
proof fn lemma_back(a: Lines, b: Lines, d: int, k: int, p: int, q: int, x: int, s: int)
    requires
        d >= 1,
        -d <= k <= d,
        k > -d ==> is_furthest(a, b, d - 1, k - 1, p),
        k < d ==> is_furthest(a, b, d - 1, k + 1, q),
        is_furthest(a, b, d, k, x),
        s == (if k == -d || (k != d && p < q) {
            q
        } else {
            p + 1
        }),
    ensures
        0 <= s <= x,
        0 <= s - k,
        forall|i: int| s <= i < x ==> #[trigger] diag_match(a, b, k, i),
{
    lemma_greedy(a, b, d, k, p, q, s);
    lemma_furthest_unique(a, b, d, k, snake(a, b, s, s - k), x);
    lemma_snake(a, b, s, s - k);
    assert forall|i: int| s <= i < x implies #[trigger] diag_match(a, b, k, i) by {
        assert(is_match(a, b, i, i - s + (s - k)));
    }
}

/// On the way back in the first round: every line up to `x` is equal.
proof fn lemma_back_first(a: Lines, b: Lines, x: int)
    requires
        is_furthest(a, b, 0, 0, x),
    ensures
        forall|i: int| 0 <= i < x ==> #[trigger] diag_match(a, b, 0, i),
{
    lemma_greedy_first(a, b);
    lemma_furthest_unique(a, b, 0, 0, snake(a, b, 0, 0), x);
    lemma_snake(a, b, 0, 0);
    assert forall|i: int| 0 <= i < x implies #[trigger] diag_match(a, b, 0, i) by {
        assert(is_match(a, b, i, i - 0 + 0));
    }
}

/// The Myers differ for two texts, each held as its numbered lines.
#[derive(Debug)]
pub struct Myers {
    a: WrappingVec<Line>,
    b: WrappingVec<Line>,
}

/// The texts of numbered lines.
pub open spec fn texts(lines: Seq<Line>) -> Lines {
    Seq::new(lines.len(), |i: int| lines[i]@.text)
}

/// The lines are numbered from one.
pub open spec fn numbered(lines: Seq<Line>) -> bool {
    forall|i: int| 0 <= i < lines.len() ==> (#[trigger] lines[i])@.number == i + 1
}

/// The bytes that a string holds.
pub open spec fn str_bytes(s: Seq<char>) -> Seq<u8> {
    vstd::utf8::encode_utf8(s)
}

fn number_lines(raw: Vec<Vec<u8>>) -> (out: Vec<Line>)
    ensures
        texts(out@) == lines_view(raw@),
        numbered(out@),
{
    let mut out: Vec<Line> = Vec::new();
    let mut raw = raw;
    let ghost all = lines_view(raw@);
    let count = raw.len();
    let mut stack: Vec<Vec<u8>> = Vec::new();
    while raw.len() > 0
        invariant
            raw@.len() + stack@.len() == all.len(),
            forall|i: int| 0 <= i < raw@.len() ==> (#[trigger] raw@[i])@ == all[i],
            forall|i: int|
                0 <= i < stack@.len() ==> (#[trigger] stack@[i])@ == all[all.len() - 1 - i],
        decreases raw@.len(),
    {
        let l = raw.pop().unwrap();
        stack.push(l);
    }
    while stack.len() > 0
        invariant
            count == all.len(),
            out@.len() + stack@.len() == all.len(),
            forall|i: int|
                0 <= i < stack@.len() ==> (#[trigger] stack@[i])@ == all[all.len() - 1 - i],
            forall|i: int| 0 <= i < out@.len() ==> (#[trigger] out@[i])@.text == all[i],
            numbered(out@),
        decreases stack@.len(),
    {
        let l = stack.pop().unwrap();
        let number: usize = out.len() + 1;
        out.push(Line::new(number, l));
    }
    assert(texts(out@) =~= all);
    out
}

/// The edits of the steps, in the order of the steps.
fn edits_for(a: &WrappingVec<Line>, b: &WrappingVec<Line>, ts: &Vec<Trace>) -> (rev: Vec<Edit>)
    requires
        a.wf(),
        b.wf(),
        numbered(a@),
        numbered(b@),
        forall|j: int| 0 <= j < ts@.len() ==> step_ok(texts(a@), texts(b@), #[trigger] ts@[j]),
    ensures
        rev@.len() == ts@.len(),
        forall|j: int|
            0 <= j < rev@.len() ==> (#[trigger] rev@[j])@ == edit_of(texts(a@), texts(b@), ts@[j]),
{
    let mut rev: Vec<Edit> = Vec::new();
    let mut i: usize = 0;
    while i < ts.len()
        invariant
            a.wf(),
            b.wf(),
            numbered(a@),
            numbered(b@),
            forall|j: int| 0 <= j < ts@.len() ==> step_ok(texts(a@), texts(b@), #[trigger] ts@[j]),
            i <= ts@.len(),
            rev@.len() == i,
            forall|j: int|
                0 <= j < i ==> (#[trigger] rev@[j])@ == edit_of(texts(a@), texts(b@), ts@[j]),
        decreases ts@.len() - i,
    {
        let t = ts[i];
        assert(step_ok(texts(a@), texts(b@), t));
        let e = if t.x() == t.prev_x() {
            let bl = b.get(t.prev_y()).unwrap().duplicate();
            Edit::new(DiffType::Ins, None, Some(bl))
        } else if t.y() == t.prev_y() {
            let al = a.get(t.prev_x()).unwrap().duplicate();
            Edit::new(DiffType::Del, Some(al), None)
        } else {
            let al = a.get(t.prev_x()).unwrap().duplicate();
            let bl = b.get(t.prev_y()).unwrap().duplicate();
            Edit::new(DiffType::Eql, Some(al), Some(bl))
        };
        assert(e@ == edit_of(texts(a@), texts(b@), t));
        rev.push(e);
        i += 1;
    }
    rev
}

/// The edits in the opposite order.
fn turn_round(rev: Vec<Edit>) -> (out: Vec<Edit>)
    ensures
        out@.len() == rev@.len(),
        forall|j: int| 0 <= j < out@.len() ==> (#[trigger] out@[j])@ == rev@[rev@.len() - 1 - j]@,
{
    let mut rev = rev;
    let ghost all = rev@;
    let mut out: Vec<Edit> = Vec::new();
    while rev.len() > 0
        invariant
            rev@.len() + out@.len() == all.len(),
            forall|j: int| 0 <= j < rev@.len() ==> (#[trigger] rev@[j]) == all[j],
            forall|j: int| 0 <= j < out@.len() ==> (#[trigger] out@[j]) == all[all.len() - 1 - j],
        decreases rev@.len(),
    {
        let e = rev.pop().unwrap();
        out.push(e);
    }
    out
}

impl Myers {
    /// The lines of the first text.
    pub closed spec fn a_lines(&self) -> Lines {
        texts(self.a@)
    }

    /// The lines of the second text.
    pub closed spec fn b_lines(&self) -> Lines {
        texts(self.b@)
    }

    pub closed spec fn wf(&self) -> bool {
        &&& self.a.wf()
        &&& self.b.wf()
        &&& numbered(self.a@)
        &&& numbered(self.b@)
    }

    /// The two texts are small enough for the positions of the search to
    /// be machine numbers.
    pub open spec fn fits(&self) -> bool {
        4 * (self.a_lines().len() + self.b_lines().len()) + 4 <= isize::MAX
    }

    /// A differ for two texts.
    pub fn new(a: String, b: String) -> (m: Myers)
        ensures
            m.wf(),
            m.a_lines() == split(str_bytes(a@)),
            m.b_lines() == split(str_bytes(b@)),
    {
        let a_lines = number_lines(split_lines(a.as_str().as_bytes()));
        let b_lines = number_lines(split_lines(b.as_str().as_bytes()));
        Myers { a: WrappingVec::from_vec(a_lines), b: WrappingVec::from_vec(b_lines) }
    }

    /// A differ for two texts that are given as lines.
    pub fn from_lines(a: Vec<Vec<u8>>, b: Vec<Vec<u8>>) -> (m: Myers)
        ensures
            m.wf(),
            m.a_lines() == lines_view(a@),
            m.b_lines() == lines_view(b@),
    {
        let a_lines = number_lines(a);
        let b_lines = number_lines(b);
        Myers { a: WrappingVec::from_vec(a_lines), b: WrappingVec::from_vec(b_lines) }
    }

    /// Whether the two texts are small enough for `diff`.
    pub fn is_small(&self) -> (r: bool)
        requires
            self.wf(),
        ensures
            r == self.fits(),
    {
        let n = self.a.len();
        let m = self.b.len();
        let limit: usize = ((isize::MAX - 4) / 4) as usize;
        n <= limit && m <= limit - n
    }

    /// A shortest edit script from the first text to the second: a list
    /// of edits that leads from the one to the other and has as few
    /// insertions and deletions as any such list, which is the two numbers
    /// of lines less twice the length of their longest common subsequence.
    pub fn diff(self) -> (edits: Vec<Edit>)
        requires
            self.wf(),
            self.fits(),
        ensures
            is_script(edits_view(edits@), self.a_lines(), self.b_lines()),
            changes(edits_view(edits@)) == self.a_lines().len() + self.b_lines().len() - 2
                * lcs_len(self.a_lines(), self.b_lines()),
            edits@.len() <= self.a_lines().len() + self.b_lines().len(),
    {
        let ghost a = self.a_lines();
        let ghost b = self.b_lines();
        let ts = self.backtrack();
        proof {
            reveal(chain_ok);
        }
        let rev = edits_for(&self.a, &self.b, &ts);
        let out = turn_round(rev);
        proof {
            let ov = edits_view(out@);
            assert(turned(a, b, ts@, ov)) by {
                assert forall|i: int| 0 <= i < ov.len() implies #[trigger] ov[i] == edit_of(
                    a,
                    b,
                    ts@[ts@.len() - 1 - i],
                ) by {
                    assert(out@[i]@ == rev@[rev@.len() - 1 - i]@);
                }
            }
            lemma_script(a, b, ts@, ov);
            lemma_dist_lcs(a, b, a.len() as int, b.len() as int);
            crate::diff::edit::lemma_walk_len(ov, ov.len() as int);
        }
        out
    }

    /// The run of equal lines from `(x, y)`: where it ends.
    fn follow(&self, x: isize, y: isize) -> (end: isize)
        requires
            self.wf(),
            self.fits(),
            0 <= x <= 2 * (self.a_lines().len() + self.b_lines().len()),
            0 <= y,
        ensures
            end == snake(self.a_lines(), self.b_lines(), x as int, y as int),
    {
        let ghost a = self.a_lines();
        let ghost b = self.b_lines();
        let n: isize = self.a.len() as isize;
        let m: isize = self.b.len() as isize;
        let mut x = x;
        let mut y = y;
        let ghost s = x as int;
        let ghost sy = y as int;
        while x < n && y < m && bytes_eq(
            self.a.at(x).text().as_slice(),
            self.b.at(y).text().as_slice(),
        )
            invariant
                self.wf(),
                a == self.a_lines(),
                b == self.b_lines(),
                n == a.len(),
                m == b.len(),
                4 * (n + m) + 4 <= isize::MAX,
                0 <= x <= 2 * (n + m),
                0 <= y,
                y - x == sy - s,
                snake(a, b, x as int, y as int) == snake(a, b, s, sy),
            decreases n - x,
        {
            proof {
                lemma_wrap_small(x as int, n as int);
                lemma_wrap_small(y as int, m as int);
            }
            x += 1;
            y += 1;
        }
        proof {
            if x < n && y < m {
                lemma_wrap_small(x as int, n as int);
                lemma_wrap_small(y as int, m as int);
            }
            assert(!is_match(a, b, x as int, y as int));
        }
        x
    }

    /// The search: round after round, the furthest position on every
    /// diagonal, until one of them is the end of both texts. What comes
    /// back is the array with which each round began.
    fn shortest_edit(&self) -> (trace: Vec<WrappingVec<isize>>)
        requires
            self.wf(),
            self.fits(),
        ensures
            trace_ok(self.a_lines(), self.b_lines(), trace@),
    {
        let ghost a = self.a_lines();
        let ghost b = self.b_lines();
        let n: isize = self.a.len() as isize;
        let m: isize = self.b.len() as isize;
        let max: isize = n + m;
        let size: usize = (2 * max + 1) as usize;
        let mut v: WrappingVec<isize> = WrappingVec::new(size);
        v.set(1, 0);
        let mut trace: Vec<WrappingVec<isize>> = Vec::new();
        let mut d: isize = 0;
        proof {
            lemma_dist_bounds(a, b, n as int, m as int);
            reveal(rounds_ok);
        }
        while d <= max
            invariant
                self.wf(),
                a == self.a_lines(),
                b == self.b_lines(),
                n == a.len(),
                m == b.len(),
                max == n + m,
                size == 2 * max + 1,
                4 * max + 4 <= isize::MAX,
                0 <= d <= max + 1,
                v.wf(),
                v@.len() == size,
                trace@.len() == d,
                rounds_ok(a, b, trace@),
                d == 0 ==> vget(v@, 1) == 0,
                d >= 1 ==> round_ok(a, b, v@, d - 1),
                dist(a, b, n as int, m as int) >= d,
            decreases max + 1 - d,
        {
            let copy = v.duplicate();
            proof {
                lemma_rounds_push(a, b, trace@, copy);
            }
            trace.push(copy);
            proof {
                reveal(partial_ok);
            }
            let mut k: isize = -d;
            while k <= d
                invariant
                    self.wf(),
                    a == self.a_lines(),
                    b == self.b_lines(),
                    n == a.len(),
                    m == b.len(),
                    max == n + m,
                    size == 2 * max + 1,
                    4 * max + 4 <= isize::MAX,
                    0 <= d <= max,
                    -d <= k <= d + 2,
                    (k + d) % 2 == 0,
                    v.wf(),
                    v@.len() == size,
                    trace@.len() == d + 1,
                    rounds_ok(a, b, trace@),
                    d == 0 && k == 0 ==> vget(v@, 1) == 0,
                    d >= 1 ==> round_ok(a, b, v@, d - 1),
                    partial_ok(a, b, v@, d as int, k as int),
                    dist(a, b, n as int, m as int) >= d,
                decreases d + 2 - k,
            {
                proof {
                    if d >= 1 {
                        lemma_read(a, b, v@, d as int, k as int);
                        lemma_wrap_small(k - 1, size as int);
                        lemma_wrap_small(k + 1, size as int);
                    }
                }
                let start: isize = if k == -d || (k != d && *v.at(k - 1) < *v.at(k + 1)) {
                    *v.at(k + 1)
                } else {
                    *v.at(k - 1) + 1
                };
                proof {
                    if d >= 1 {
                        lemma_greedy(
                            a,
                            b,
                            d as int,
                            k as int,
                            vget(v@, k - 1),
                            vget(v@, k + 1),
                            start as int,
                        );
                    } else {
                        lemma_greedy_first(a, b);
                    }
                    lemma_snake(a, b, start as int, start - k);
                }
                let x: isize = self.follow(start, start - k);
                let y: isize = x - k;
                let ghost before = v@;
                v.set(k, x);
                if x >= n && y >= m {
                    proof {
                        lemma_reached(a, b, d as int, k as int, x as int);
                    }
                    return trace;
                }
                proof {
                    lemma_write(a, b, before, v@, d as int, k as int, x);
                }
                k += 2;
            }
            proof {
                lemma_round_done(a, b, v@, d as int, k as int);
            }
            d += 1;
        }
        proof {
            assert(false);
        }
        trace
    }

    /// One round of the way back: from the furthest position `(x, y)` of
    /// round `d`, up its run of equal lines and over the one insertion or
    /// deletion of the round, to the furthest position of round `d - 1` from
    /// which the search came. The steps are added to `ret`.
    fn back_round(&self, v: &WrappingVec<isize>, d: isize, x: isize, y: isize, ret: &mut Vec<Trace>) -> (p: (
        isize,
        isize,
    ))
        requires
            self.wf(),
            self.fits(),
            0 <= d <= self.a_lines().len() + self.b_lines().len(),
            v.wf(),
            v@.len() == 2 * (self.a_lines().len() + self.b_lines().len()) + 1,
            d >= 1 ==> round_ok(self.a_lines(), self.b_lines(), v@, d - 1),
            d == 0 ==> vget(v@, 1) == 0,
            0 <= x <= self.a_lines().len(),
            0 <= y <= self.b_lines().len(),
            is_furthest(self.a_lines(), self.b_lines(), d as int, x - y, x as int),
            -d <= x - y <= d,
            (x - y + d) % 2 == 0,
            chain_ok(
                self.a_lines(),
                self.b_lines(),
                old(ret)@,
                self.a_lines().len() as int,
                self.b_lines().len() as int,
                x as int,
                y as int,
            ),
        ensures
            chain_ok(
                self.a_lines(),
                self.b_lines(),
                final(ret)@,
                self.a_lines().len() as int,
                self.b_lines().len() as int,
                p.0 as int,
                p.1 as int,
            ),
            nondiag(final(ret)@) == nondiag(old(ret)@) + (if d >= 1 {
                1int
            } else {
                0int
            }),
            0 <= p.0 <= self.a_lines().len(),
            0 <= p.1 <= self.b_lines().len(),
            d == 0 ==> p.0 == 0 && p.1 == 0,
            d >= 1 ==> is_furthest(self.a_lines(), self.b_lines(), d - 1, p.0 - p.1, p.0 as int)
                && -(d - 1) <= p.0 - p.1 <= d - 1 && (p.0 - p.1 + d - 1) % 2 == 0,
    {
        let ghost a = self.a_lines();
        let ghost b = self.b_lines();
        let n: isize = self.a.len() as isize;
        let m: isize = self.b.len() as isize;
        let ghost size = 2 * (n + m) + 1;
        let mut x = x;
        let mut y = y;
        let k: isize = x - y;
        proof {
            if d >= 1 {
                lemma_read(a, b, v@, d as int, k as int);
                lemma_wrap_small(k - 1, size);
                lemma_wrap_small(k + 1, size);
            }
        }
        let prev_k: isize = if k == -d || (k != d && *v.at(k - 1) < *v.at(k + 1)) {
            k + 1
        } else {
            k - 1
        };
        let prev_x: isize = *v.at(prev_k);
        let prev_y: isize = prev_x - prev_k;
        let ghost s: int = if prev_k == k + 1 {
            prev_x as int
        } else {
            prev_x + 1
        };
        let ghost top = x as int;
        proof {
            if d >= 1 {
                lemma_back(a, b, d as int, k as int, vget(v@, k - 1), vget(v@, k + 1), x as int, s);
            } else {
                lemma_back_first(a, b, x as int);
            }
        }
        let ghost count = nondiag(ret@);
        while x > prev_x && y > prev_y
            invariant
                n == a.len(),
                m == b.len(),
                s <= x <= top,
                top <= n,
                y == x - k,
                0 <= y <= m,
                0 <= s,
                0 <= s - k,
                s == (if prev_k == k + 1 {
                    prev_x as int
                } else {
                    prev_x + 1
                }),
                prev_y == prev_x - prev_k,
                prev_k == k + 1 || prev_k == k - 1,
                forall|i: int| s <= i < top ==> #[trigger] diag_match(a, b, k as int, i),
                chain_ok(a, b, ret@, n as int, m as int, x as int, y as int),
                nondiag(ret@) == count,
            decreases x - s,
        {
            let t = Trace::new(x - 1, y - 1, x, y);
            proof {
                assert(diag_match(a, b, k as int, x - 1));
                lemma_chain_push(a, b, ret@, t, n as int, m as int);
            }
            ret.push(t);
            x -= 1;
            y -= 1;
        }
        assert(x == s);
        if d > 0 {
            let t = Trace::new(prev_x, prev_y, x, y);
            proof {
                assert(step_ok(a, b, t));
                lemma_chain_push(a, b, ret@, t, n as int, m as int);
                assert((prev_k + (d - 1)) % 2 == 0);
            }
            ret.push(t);
            x = prev_x;
            y = prev_y;
        }
        (x, y)
    }

    /// The way back from the end of both texts to their beginning, through
    /// the arrays of the search: the steps of a shortest path, the last
    /// one first.
    fn backtrack(&self) -> (ret: Vec<Trace>)
        requires
            self.wf(),
            self.fits(),
        ensures
            chain_ok(
                self.a_lines(),
                self.b_lines(),
                ret@,
                self.a_lines().len() as int,
                self.b_lines().len() as int,
                0,
                0,
            ),
            nondiag(ret@) == dist(
                self.a_lines(),
                self.b_lines(),
                self.a_lines().len() as int,
                self.b_lines().len() as int,
            ),
    {
        let ghost a = self.a_lines();
        let ghost b = self.b_lines();
        let trace = self.shortest_edit();
        let n: isize = self.a.len() as isize;
        let m: isize = self.b.len() as isize;
        let mut x: isize = n;
        let mut y: isize = m;
        let mut ret: Vec<Trace> = Vec::new();
        let mut d: isize = trace.len() as isize;
        let ghost total = d - 1;
        proof {
            lemma_dist_bounds(a, b, n as int, m as int);
            lemma_beyond_end(a, b, n + 1, m + 1);
            assert((n - m + total) == (n + m - total) + 2 * (total - m));
            reveal(chain_ok);
        }
        while d > 0
            invariant
                self.wf(),
                self.fits(),
                a == self.a_lines(),
                b == self.b_lines(),
                n == a.len(),
                m == b.len(),
                rounds_ok(a, b, trace@),
                total == trace@.len() - 1,
                total <= n + m,
                0 <= d <= trace@.len(),
                0 <= x <= n,
                0 <= y <= m,
                d >= 1 ==> is_furthest(a, b, d - 1, x - y, x as int) && -(d - 1) <= x - y <= d - 1
                    && (x - y + d - 1) % 2 == 0,
                d == 0 ==> x == 0 && y == 0,
                chain_ok(a, b, ret@, n as int, m as int, x as int, y as int),
                nondiag(ret@) + (if d >= 1 {
                    d - 1
                } else {
                    0
                }) == total,
            decreases d,
        {
            d = d - 1;
            proof {
                reveal(rounds_ok);
                assert(trace@[d as int].wf());
                if d >= 1 {
                    assert(round_ok(a, b, trace@[d as int]@, d - 1));
                }
            }
            let p = self.back_round(&trace[d as usize], d, x, y, &mut ret);
            x = p.0;
            y = p.1;
        }
        ret
    }
}

/// The first `k` edits of a script hold at least as many insertions and
/// deletions as it takes to come to where they lead.
proof fn lemma_no_shorter_upto(edits: Seq<EditView>, a: Lines, b: Lines, k: int)
    requires
        is_script(edits, a, b),
        0 <= k <= edits.len(),
    ensures
        changes(edits.subrange(0, k)) >= crate::diff::lcs::dist(
            a,
            b,
            walk_x(edits, k),
            walk_y(edits, k),
        ),
    decreases k,
{
    if k == 0 {
        assert(edits.subrange(0, 0) =~= Seq::<EditView>::empty());
    } else {
        lemma_no_shorter_upto(edits, a, b, k - 1);
        crate::diff::edit::lemma_walk_len(edits, k - 1);
        let x = walk_x(edits, k - 1);
        let y = walk_y(edits, k - 1);
        let e = edits[k - 1];
        assert(edit_ok(e, a, b, x, y));
        assert(edits.subrange(0, k).drop_last() =~= edits.subrange(0, k - 1));
        assert(edits.subrange(0, k).last() == e);
        crate::diff::lcs::lemma_dist_step(a, b, x, y);
        if e.kind == DiffType::Eql {
            assert(crate::diff::lcs::is_match(a, b, x, y));
        }
    }
}

/// No script is shorter. Every list of edits that leads from `a` to `b`
/// holds at least as many insertions and deletions as the two numbers of
/// lines less twice the length of their longest common subsequence, which
/// is the number that `Myers::diff` gives.
pub proof fn lemma_no_shorter(edits: Seq<EditView>, a: Lines, b: Lines)
    requires
        is_script(edits, a, b),
    ensures
        changes(edits) >= a.len() + b.len() - 2 * lcs_len(a, b),
{
    lemma_no_shorter_upto(edits, a, b, edits.len() as int);
    assert(edits.subrange(0, edits.len() as int) =~= edits);
    lemma_dist_lcs(a, b, a.len() as int, b.len() as int);
}

/// The lines that the first `k` edits pass: one for each insertion and
/// deletion, two for each equality.
proof fn lemma_passed_upto(edits: Seq<EditView>, k: int)
    requires
        0 <= k <= edits.len(),
    ensures
        walk_x(edits, k) + walk_y(edits, k) == 2 * k - changes(edits.subrange(0, k)),
    decreases k,
{
    if k == 0 {
        assert(edits.subrange(0, 0) =~= Seq::<EditView>::empty());
    } else {
        lemma_passed_upto(edits, k - 1);
        assert(edits.subrange(0, k).drop_last() =~= edits.subrange(0, k - 1));
        assert(edits.subrange(0, k).last() == edits[k - 1]);
    }
}

/// The equalities of a shortest script are as many as the longest common
/// subsequence is long: the edits that are no insertions and no deletions
/// number `lcs_len`.
pub proof fn lemma_equal_edits(edits: Seq<EditView>, a: Lines, b: Lines)
    requires
        is_script(edits, a, b),
        changes(edits) == a.len() + b.len() - 2 * lcs_len(a, b),
    ensures
        edits.len() - changes(edits) == lcs_len(a, b),
{
    lemma_passed_upto(edits, edits.len() as int);
    assert(edits.subrange(0, edits.len() as int) =~= edits);
}

} // verus!
