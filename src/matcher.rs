//! Matcher: aligns two feature sequences, allowing sub-strokes on either side
//! to be skipped, and turns the least alignment cost into a similarity.
use vstd::prelude::*;
use vstd::arithmetic::div_mod::lemma_fundamental_div_mod;
use crate::entities::SubStroke;
use crate::analyzer::{
    abs, direction_distance, sqrt_floor, lemma_sqrt_floor, lemma_root_exists, turn, euclidean,
    ROOT_BOUND,
};

verus! {

/// Cost of one bucket of turn between two matched sub-strokes.
pub const DIRECTION_WEIGHT: u64 = 96;

/// Cost of leaving one sub-stroke unmatched. Two skips cost less than a
/// match of opposite directions (four buckets of turn), and more than a
/// match one bucket apart whose lengths and centres differ by little.
pub const SKIP_COST: u64 = 160;

/// The similarity of two identical sequences.
pub const SCORE_SCALE: u32 = 1000000;

/// Cost of matching sub-stroke `a` with sub-stroke `b`: the weighted turn
/// between their directions, plus the difference of their lengths, plus the
/// Euclidean distance of their centres. Each term is zero exactly when the
/// fields it compares are equal.
pub open spec fn pair_cost(a: SubStroke, b: SubStroke) -> int {
    let dx = b.center_x - a.center_x;
    let dy = b.center_y - a.center_y;
    DIRECTION_WEIGHT * direction_distance(a.direction as int, b.direction as int)
        + abs(a.length - b.length)
        + sqrt_floor(dx * dx + dy * dy)
}

pub open spec fn min3(a: int, b: int, c: int) -> int {
    if a <= b && a <= c { a } else if b <= c { b } else { c }
}

/// Least cost of aligning the first `i` sub-strokes of `a` with the first
/// `j` of `b`.
pub open spec fn align(a: Seq<SubStroke>, b: Seq<SubStroke>, i: int, j: int) -> int
    decreases i + j,
{
    if i <= 0 {
        j * SKIP_COST
    } else if j <= 0 {
        i * SKIP_COST
    } else {
        min3(
            align(a, b, i - 1, j) + SKIP_COST,
            align(a, b, i, j - 1) + SKIP_COST,
            align(a, b, i - 1, j - 1) + pair_cost(a[i - 1], b[j - 1]),
        )
    }
}

/// Least cost of aligning `a` with `b`.
pub open spec fn alignment_cost(a: Seq<SubStroke>, b: Seq<SubStroke>) -> int {
    align(a, b, a.len() as int, b.len() as int)
}

/// Cost of skipping every sub-stroke of both sequences.
pub open spec fn worst_cost(a: Seq<SubStroke>, b: Seq<SubStroke>) -> int {
    (a.len() + b.len()) * SKIP_COST
}

/// `SCORE_SCALE` times one minus the share of the worst cost that the
/// alignment costs, where the share is rounded up, so that only a cost of
/// zero scores `SCORE_SCALE`; two empty sequences are identical.
pub open spec fn similarity(a: Seq<SubStroke>, b: Seq<SubStroke>) -> int {
    let w = worst_cost(a, b);
    if w == 0 {
        SCORE_SCALE as int
    } else {
        SCORE_SCALE - (alignment_cost(a, b) * SCORE_SCALE + w - 1) / w
    }
}

pub proof fn lemma_pair_cost_bounds(a: SubStroke, b: SubStroke)
    ensures
        0 <= pair_cost(a, b) <= 255 * DIRECTION_WEIGHT + 255 + ROOT_BOUND,
        pair_cost(a, b) == 0 ==> a == b,
{
    let dx = b.center_x - a.center_x;
    let dy = b.center_y - a.center_y;
    let q = dx * dx + dy * dy;
    assert(0 <= dx * dx && 0 <= dy * dy && q <= 130050) by (nonlinear_arith)
        requires
            -255 <= dx <= 255,
            -255 <= dy <= 255,
            q == dx * dx + dy * dy,
    ;
    lemma_root_exists(q);
    let s = sqrt_floor(q);
    assert(s < ROOT_BOUND) by (nonlinear_arith)
        requires
            0 <= s,
            s * s <= q,
            q <= 130050,
    ;
    if pair_cost(a, b) == 0 {
        assert(q < 1);
        assert(dx == 0) by (nonlinear_arith)
            requires
                dx * dx <= q,
                q < 1,
        ;
        assert(dy == 0) by (nonlinear_arith)
            requires
                dy * dy <= q,
                q < 1,
        ;
    }
}

/// Cost of matching two sub-strokes.
pub fn pair_cost_of(a: SubStroke, b: SubStroke) -> (r: u64)
    ensures
        r == pair_cost(a, b),
{
    let d = turn(a.direction, b.direction) as u64;
    let l = if a.length >= b.length { a.length - b.length } else { b.length - a.length };
    let c = euclidean(
        crate::entities::Point { x: a.center_x, y: a.center_y },
        crate::entities::Point { x: b.center_x, y: b.center_y },
    ) as u64;
    DIRECTION_WEIGHT * d + (l as u64) + c
}

pub proof fn lemma_align_bounds(a: Seq<SubStroke>, b: Seq<SubStroke>, i: int, j: int)
    requires
        0 <= i,
        0 <= j,
    ensures
        0 <= align(a, b, i, j) <= (i + j) * SKIP_COST,
    decreases i + j,
{
    if i > 0 && j > 0 {
        lemma_align_bounds(a, b, i - 1, j);
        lemma_align_bounds(a, b, i, j - 1);
        lemma_align_bounds(a, b, i - 1, j - 1);
        lemma_pair_cost_bounds(a[i - 1], b[j - 1]);
    }
}

/// Least alignment cost of `a` and `b`, by dynamic programming over rows
/// of the table of prefix costs.
pub fn alignment(a: &Vec<SubStroke>, b: &Vec<SubStroke>) -> (r: u128)
    ensures
        r == alignment_cost(a@, b@),
{
    let n = a.len();
    let m = b.len();
    let mut prev: Vec<u128> = Vec::new();
    let mut j: usize = 0;
    while j < m
        invariant
            m == b@.len(),
            j <= m,
            prev@.len() == j,
            forall|k: int| 0 <= k < j ==> prev@[k] == align(a@, b@, 0, k),
        decreases m - j,
    {
        prev.push((j as u128) * (SKIP_COST as u128));
        j = j + 1;
    }
    prev.push((m as u128) * (SKIP_COST as u128));
    let mut i: usize = 0;
    while i < n
        invariant
            n == a@.len(),
            m == b@.len(),
            i <= n,
            prev@.len() == m + 1,
            forall|k: int| 0 <= k <= m ==> prev@[k] == align(a@, b@, i as int, k),
        decreases n - i,
    {
        let mut cur: Vec<u128> = Vec::new();
        cur.push((i as u128 + 1) * (SKIP_COST as u128));
        let mut j: usize = 0;
        while j < m
            invariant
                n == a@.len(),
                m == b@.len(),
                i < n,
                j <= m,
                prev@.len() == m + 1,
                cur@.len() == j + 1,
                forall|k: int| 0 <= k <= m ==> prev@[k] == align(a@, b@, i as int, k),
                forall|k: int| 0 <= k <= j ==> cur@[k] == align(a@, b@, i + 1, k),
            decreases m - j,
        {
            proof {
                lemma_align_bounds(a@, b@, i as int, j + 1);
                lemma_align_bounds(a@, b@, i + 1, j as int);
                lemma_align_bounds(a@, b@, i as int, j as int);
            }
            let up = prev[j + 1] + SKIP_COST as u128;
            let left = cur[j] + SKIP_COST as u128;
            let diag = prev[j] + pair_cost_of(a[i], b[j]) as u128;
            let best = if up <= left && up <= diag {
                up
            } else if left <= diag {
                left
            } else {
                diag
            };
            cur.push(best);
            j = j + 1;
        }
        prev = cur;
        i = i + 1;
    }
    prev[m]
}

/// Similarity of `a` and `b`, between 0 and `SCORE_SCALE`.
pub fn similarity_of(a: &Vec<SubStroke>, b: &Vec<SubStroke>) -> (r: u32)
    ensures
        r == similarity(a@, b@),
        0 <= r <= SCORE_SCALE,
{
    let cost = alignment(a, b);
    let worst = (a.len() as u128 + b.len() as u128) * (SKIP_COST as u128);
    if worst == 0 {
        return SCORE_SCALE;
    }
    proof {
        lemma_align_bounds(a@, b@, a@.len() as int, b@.len() as int);
        lemma_share(cost as int, worst as int);
        let sc = SCORE_SCALE as int;
        assert(cost * sc <= worst * sc) by (nonlinear_arith)
            requires
                cost <= worst,
                sc >= 0,
        ;
    }
    let share = (cost * (SCORE_SCALE as u128) + worst - 1) / worst;
    SCORE_SCALE - share as u32
}

/// The share of `w` that `c` is, out of `SCORE_SCALE`, rounded up.
proof fn lemma_share(c: int, w: int)
    requires
        0 <= c <= w,
        0 < w,
    ensures
        0 <= (c * SCORE_SCALE + w - 1) / w <= SCORE_SCALE,
        c == 0 <==> (c * SCORE_SCALE + w - 1) / w == 0,
{
    let sc = SCORE_SCALE as int;
    let x = c * sc + w - 1;
    assert(0 <= c * sc <= w * sc) by (nonlinear_arith)
        requires
            0 <= c <= w,
            sc >= 0,
    ;
    lemma_fundamental_div_mod(x, w);
    let q = x / w;
    let r = x % w;
    assert(0 <= r < w);
    assert(x == w * q + r);
    assert(q <= sc) by (nonlinear_arith)
        requires
            x == w * q + r,
            0 <= r,
            x <= w * sc + w - 1,
            w > 0,
    ;
    assert(q >= 0) by (nonlinear_arith)
        requires
            x == w * q + r,
            r < w,
            x >= 0,
            w > 0,
    ;
    if c > 0 {
        assert(c * sc >= sc) by (nonlinear_arith)
            requires
                c >= 1,
                sc >= 0,
        ;
        assert(q >= 1) by (nonlinear_arith)
            requires
                x == w * q + r,
                r < w,
                x >= w,
                w > 0,
        ;
    } else {
        assert(q == 0) by (nonlinear_arith)
            requires
                x == w * q + r,
                0 <= r,
                x == w - 1,
                w > 0,
                q >= 0,
        ;
    }
}

/// A similarity lies between 0 and `SCORE_SCALE`, and is `SCORE_SCALE`
/// exactly when the alignment costs nothing.
pub proof fn lemma_similarity_bounds(a: Seq<SubStroke>, b: Seq<SubStroke>)
    ensures
        0 <= similarity(a, b) <= SCORE_SCALE,
        similarity(a, b) == SCORE_SCALE <==> alignment_cost(a, b) == 0,
{
    lemma_align_bounds(a, b, a.len() as int, b.len() as int);
    let w = worst_cost(a, b);
    if w != 0 {
        lemma_share(alignment_cost(a, b), w);
    }
}

proof fn lemma_pair_cost_self(x: SubStroke)
    ensures
        pair_cost(x, x) == 0,
{
    lemma_sqrt_floor(0, 0);
}

proof fn lemma_align_diagonal(a: Seq<SubStroke>, i: int)
    requires
        0 <= i <= a.len(),
    ensures
        align(a, a, i, i) == 0,
    decreases i,
{
    if i > 0 {
        lemma_align_diagonal(a, i - 1);
        lemma_pair_cost_self(a[i - 1]);
        lemma_align_bounds(a, a, i - 1, i);
        lemma_align_bounds(a, a, i, i - 1);
        lemma_align_bounds(a, a, i, i);
    }
}

/// A feature sequence aligned with itself costs nothing, and its
/// similarity to itself is perfect.
pub proof fn lemma_self_match(a: Seq<SubStroke>)
    ensures
        alignment_cost(a, a) == 0,
        similarity(a, a) == SCORE_SCALE,
{
    lemma_align_diagonal(a, a.len() as int);
    lemma_similarity_bounds(a, a);
}

proof fn lemma_align_zero(a: Seq<SubStroke>, b: Seq<SubStroke>, i: int, j: int)
    requires
        0 <= i <= a.len(),
        0 <= j <= b.len(),
        align(a, b, i, j) == 0,
    ensures
        i == j,
        a.take(i) == b.take(j),
    decreases i + j,
{
    if i > 0 && j > 0 {
        lemma_align_bounds(a, b, i - 1, j);
        lemma_align_bounds(a, b, i, j - 1);
        lemma_align_bounds(a, b, i - 1, j - 1);
        lemma_pair_cost_bounds(a[i - 1], b[j - 1]);
        lemma_align_zero(a, b, i - 1, j - 1);
        assert(a.take(i) =~= a.take(i - 1).push(a[i - 1]));
        assert(b.take(j) =~= b.take(j - 1).push(b[j - 1]));
    } else {
        assert(a.take(i) =~= b.take(j));
    }
}

/// Only identical feature sequences have the perfect similarity.
pub proof fn lemma_perfect_similarity_identical(a: Seq<SubStroke>, b: Seq<SubStroke>)
    requires
        similarity(a, b) == SCORE_SCALE,
    ensures
        a == b,
{
    lemma_similarity_bounds(a, b);
    lemma_align_zero(a, b, a.len() as int, b.len() as int);
    assert(a.take(a.len() as int) =~= a);
    assert(b.take(b.len() as int) =~= b);
}

} // verus!
