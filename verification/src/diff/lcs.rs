//! The edit distance between two sequences of lines, and the facts about
//! it on which the Myers algorithm rests.
//!
//! Positions are pairs `(x, y)`: `x` lines of the first sequence and `y`
//! lines of the second have been passed. A step to the right passes a line
//! of the first sequence (a deletion), a step down passes a line of the
//! second (an insertion), and a diagonal step passes one of each, which is
//! free where the two lines are equal. Beyond the end of either sequence
//! there are no equal lines, but positions go on.

use vstd::prelude::*;

verus! {

pub type Lines = Seq<Seq<u8>>;

/// Line `x` of `a` and line `y` of `b` are there and equal.
pub open spec fn is_match(a: Lines, b: Lines, x: int, y: int) -> bool {
    0 <= x < a.len() && 0 <= y < b.len() && a[x] == b[y]
}

pub open spec fn max2(p: int, q: int) -> int {
    if p >= q {
        p
    } else {
        q
    }
}

pub open spec fn min2(p: int, q: int) -> int {
    if p <= q {
        p
    } else {
        q
    }
}

pub open spec fn nonneg(x: int) -> nat {
    if x >= 0 {
        x as nat
    } else {
        0
    }
}

/// The length of the longest common subsequence of the first `x` lines of
/// `a` and the first `y` lines of `b`.
pub open spec fn lcs(a: Lines, b: Lines, x: int, y: int) -> int
    decreases nonneg(x) + nonneg(y),
{
    if x <= 0 || y <= 0 {
        0
    } else if is_match(a, b, x - 1, y - 1) {
        1 + lcs(a, b, x - 1, y - 1)
    } else {
        max2(lcs(a, b, x - 1, y), lcs(a, b, x, y - 1))
    }
}

/// The length of the longest common subsequence of `a` and `b`.
pub open spec fn lcs_len(a: Lines, b: Lines) -> int {
    lcs(a, b, a.len() as int, b.len() as int)
}

/// The least number of insertions and deletions that lead to `(x, y)`.
pub open spec fn dist(a: Lines, b: Lines, x: int, y: int) -> int
    decreases nonneg(x) + nonneg(y),
{
    if x <= 0 {
        nonneg(y) as int
    } else if y <= 0 {
        x
    } else if is_match(a, b, x - 1, y - 1) {
        dist(a, b, x - 1, y - 1)
    } else {
        1 + min2(dist(a, b, x - 1, y), dist(a, b, x, y - 1))
    }
}

/// The position with first coordinate `v` on diagonal `k` is the furthest
/// on that diagonal that `d` insertions and deletions reach.
pub open spec fn is_furthest(a: Lines, b: Lines, d: int, k: int, v: int) -> bool {
    &&& v >= 0
    &&& v - k >= 0
    &&& dist(a, b, v, v - k) <= d
    &&& dist(a, b, v + 1, v + 1 - k) > d
}

/// Where the run of equal lines that begins at `(x, y)` ends.
pub open spec fn snake(a: Lines, b: Lines, x: int, y: int) -> int
    decreases a.len() - x,
{
    if is_match(a, b, x, y) {
        snake(a, b, x + 1, y + 1)
    } else {
        x
    }
}

/// Within the two sequences the distance is the two lengths less twice the
/// longest common subsequence.
pub proof fn lemma_dist_lcs(a: Lines, b: Lines, x: int, y: int)
    requires
        0 <= x <= a.len(),
        0 <= y <= b.len(),
    ensures
        dist(a, b, x, y) == x + y - 2 * lcs(a, b, x, y),
    decreases x + y,
{
    if x > 0 && y > 0 {
        if is_match(a, b, x - 1, y - 1) {
            lemma_dist_lcs(a, b, x - 1, y - 1);
        } else {
            lemma_dist_lcs(a, b, x - 1, y);
            lemma_dist_lcs(a, b, x, y - 1);
        }
    }
}

/// The distance is at least the distance between the coordinates, at most
/// their sum, and as even or odd as their sum.
pub proof fn lemma_dist_bounds(a: Lines, b: Lines, x: int, y: int)
    requires
        0 <= x,
        0 <= y,
    ensures
        dist(a, b, x, y) >= x - y,
        dist(a, b, x, y) >= y - x,
        dist(a, b, x, y) <= x + y,
        (x + y - dist(a, b, x, y)) % 2 == 0,
    decreases x + y,
{
    if x > 0 && y > 0 {
        if is_match(a, b, x - 1, y - 1) {
            lemma_dist_bounds(a, b, x - 1, y - 1);
        } else {
            lemma_dist_bounds(a, b, x - 1, y);
            lemma_dist_bounds(a, b, x, y - 1);
        }
    }
}

/// One step to the right or down changes the distance by at most one, and
/// a diagonal step does not lower it.
pub proof fn lemma_dist_step(a: Lines, b: Lines, x: int, y: int)
    requires
        0 <= x,
        0 <= y,
    ensures
        dist(a, b, x + 1, y) <= dist(a, b, x, y) + 1,
        dist(a, b, x, y) <= dist(a, b, x + 1, y) + 1,
        dist(a, b, x, y + 1) <= dist(a, b, x, y) + 1,
        dist(a, b, x, y) <= dist(a, b, x, y + 1) + 1,
        dist(a, b, x + 1, y + 1) >= dist(a, b, x, y),
    decreases x + y,
{
    if y > 0 {
        lemma_dist_step(a, b, x, y - 1);
    }
    if x > 0 {
        lemma_dist_step(a, b, x - 1, y);
    }
}

/// Along a diagonal the distance does not fall.
pub proof fn lemma_diag_monotone(a: Lines, b: Lines, x: int, y: int, j: int)
    requires
        0 <= x,
        0 <= y,
        0 <= j,
    ensures
        dist(a, b, x + j, y + j) >= dist(a, b, x, y),
    decreases j,
{
    if j > 0 {
        lemma_diag_monotone(a, b, x, y, j - 1);
        lemma_dist_step(a, b, x + j - 1, y + j - 1);
    }
}

/// Below the last line of `b` every step down costs one.
pub proof fn lemma_beyond_b(a: Lines, b: Lines, x: int, y: int)
    requires
        0 <= x,
        b.len() <= y,
    ensures
        dist(a, b, x, y) == dist(a, b, x, b.len() as int) + (y - b.len()),
    decreases y - b.len(), x,
{
    if y > b.len() {
        if x > 0 {
            lemma_beyond_b(a, b, x - 1, y);
            lemma_beyond_b(a, b, x, y - 1);
            lemma_dist_step(a, b, x - 1, b.len() as int);
        } else {
            lemma_beyond_b(a, b, x, y - 1);
        }
    }
}

/// To the right of the last line of `a` every step to the right costs one.
pub proof fn lemma_beyond_a(a: Lines, b: Lines, x: int, y: int)
    requires
        a.len() <= x,
        0 <= y,
    ensures
        dist(a, b, x, y) == dist(a, b, a.len() as int, y) + (x - a.len()),
    decreases x - a.len(), y,
{
    if x > a.len() {
        if y > 0 {
            lemma_beyond_a(a, b, x, y - 1);
            lemma_beyond_a(a, b, x - 1, y);
            lemma_dist_step(a, b, a.len() as int, y - 1);
        } else {
            lemma_beyond_a(a, b, x - 1, y);
        }
    }
}

/// A position at or beyond the end of both sequences lies as far from the
/// end as it lies beyond it.
pub proof fn lemma_beyond_end(a: Lines, b: Lines, x: int, y: int)
    requires
        a.len() <= x,
        b.len() <= y,
    ensures
        dist(a, b, x, y) == dist(a, b, a.len() as int, b.len() as int) + (x - a.len()) + (y
            - b.len()),
{
    lemma_beyond_b(a, b, x, y);
    lemma_beyond_a(a, b, x, b.len() as int);
}

/// The run of equal lines from `(x, y)`: it ends at or after `x`, every
/// line of it is equal, the line after it is not, and the distance does
/// not change along it.
pub proof fn lemma_snake(a: Lines, b: Lines, x: int, y: int)
    requires
        0 <= x,
        0 <= y,
    ensures
        x <= snake(a, b, x, y),
        snake(a, b, x, y) <= max2(x, a.len() as int),
        forall|i: int| x <= i < snake(a, b, x, y) ==> #[trigger] is_match(a, b, i, i - x + y),
        !is_match(a, b, snake(a, b, x, y), snake(a, b, x, y) - x + y),
        dist(a, b, snake(a, b, x, y), snake(a, b, x, y) - x + y) == dist(a, b, x, y),
    decreases a.len() - x,
{
    if is_match(a, b, x, y) {
        lemma_snake(a, b, x + 1, y + 1);
        let e = snake(a, b, x + 1, y + 1);
        assert forall|i: int| x <= i < e implies #[trigger] is_match(a, b, i, i - x + y) by {
            if i > x {
                assert(is_match(a, b, i, i - (x + 1) + (y + 1)));
            }
        }
    }
}

/// There is one furthest position on a diagonal.
pub proof fn lemma_furthest_unique(a: Lines, b: Lines, d: int, k: int, v: int, w: int)
    requires
        is_furthest(a, b, d, k, v),
        is_furthest(a, b, d, k, w),
    ensures
        v == w,
{
    if v < w {
        lemma_diag_monotone(a, b, v + 1, v + 1 - k, w - v - 1);
    } else if w < v {
        lemma_diag_monotone(a, b, w + 1, w + 1 - k, v - w - 1);
    }
}

/// Beyond the furthest position of a diagonal the distance is greater.
pub proof fn lemma_past_furthest(a: Lines, b: Lines, d: int, k: int, v: int, x: int)
    requires
        is_furthest(a, b, d, k, v),
        x > v,
    ensures
        dist(a, b, x, x - k) > d,
{
    lemma_diag_monotone(a, b, v + 1, v + 1 - k, x - v - 1);
}

/// The first round: the run of equal lines from the origin ends at the
/// furthest position that no insertion or deletion reaches.
pub proof fn lemma_greedy_first(a: Lines, b: Lines)
    ensures
        is_furthest(a, b, 0, 0, snake(a, b, 0, 0)),
{
    lemma_snake(a, b, 0, 0);
    let e = snake(a, b, 0, 0);
    lemma_dist_bounds(a, b, e, e + 1);
    lemma_dist_bounds(a, b, e + 1, e);
}

/// The step of the algorithm: from the furthest positions of the two
/// neighbouring diagonals after `d - 1` insertions and deletions, the
/// better start on diagonal `k`, followed by its run of equal lines, is the
/// furthest position of diagonal `k` after `d`.
pub proof fn lemma_greedy(a: Lines, b: Lines, d: int, k: int, p: int, q: int, s: int)
    requires
        d >= 1,
        -d <= k <= d,
        k > -d ==> is_furthest(a, b, d - 1, k - 1, p),
        k < d ==> is_furthest(a, b, d - 1, k + 1, q),
        s == (if k == -d || (k != d && p < q) {
            q
        } else {
            p + 1
        }),
    ensures
        s >= 0,
        s - k >= 0,
        is_furthest(a, b, d, k, snake(a, b, s, s - k)),
{
    let e = snake(a, b, s, s - k);
    if k == -d || (k != d && p < q) {
        lemma_dist_step(a, b, q, q - k - 1);
    } else {
        lemma_dist_step(a, b, p, p - k + 1);
    }
    lemma_snake(a, b, s, s - k);
    assert(dist(a, b, e, e - k) <= d);
    // The position after the run is reached from the two neighbouring
    // diagonals only, and both lie beyond what `d - 1` reaches there.
    if k > -d {
        lemma_past_furthest(a, b, d - 1, k - 1, p, e);
    } else {
        lemma_dist_bounds(a, b, e, e + 1 - k);
    }
    if k < d {
        lemma_past_furthest(a, b, d - 1, k + 1, q, e + 1);
    } else {
        lemma_dist_bounds(a, b, e + 1, e - k);
    }
    assert(dist(a, b, e, e + 1 - k) >= d);
    assert(dist(a, b, e + 1, e - k) >= d);
    assert(!is_match(a, b, e, e - k));
}

/// A round that has the furthest position of the diagonal of the end, and
/// does not have the end, has not enough insertions and deletions to reach
/// it.
pub proof fn lemma_not_reached(a: Lines, b: Lines, d: int, v: int)
    requires
        is_furthest(a, b, d, a.len() - b.len(), v),
        !(v >= a.len() && v - (a.len() - b.len()) >= b.len()),
    ensures
        dist(a, b, a.len() as int, b.len() as int) > d,
{
    let k = a.len() - b.len();
    assert(v < a.len());
    lemma_past_furthest(a, b, d, k, v, a.len() as int);
}

/// A furthest position at or beyond the end of both sequences is the end,
/// where the end takes at least `d` insertions and deletions.
pub proof fn lemma_reached(a: Lines, b: Lines, d: int, k: int, v: int)
    requires
        is_furthest(a, b, d, k, v),
        v >= a.len(),
        v - k >= b.len(),
        dist(a, b, a.len() as int, b.len() as int) >= d,
    ensures
        v == a.len(),
        v - k == b.len(),
        dist(a, b, a.len() as int, b.len() as int) == d,
{
    lemma_beyond_end(a, b, v, v - k);
}

} // verus!
