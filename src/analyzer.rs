//! Stroke Analyzer and Character Analyzer: a smoothed stroke is cut into
//! sub-strokes wherever its direction turns, and a character's strokes are
//! analyzed in drawing order.
use vstd::prelude::*;
use crate::entities::{Point, Stroke, SubStroke, strokes_view};
use crate::curve::{smoothed, smooth};

verus! {

/// Number of direction buckets over a full turn.
pub const NUM_DIRECTIONS: u8 = 8;

/// Largest turn, in buckets, that does not end a sub-stroke.
pub const TURN_TOLERANCE: u8 = 1;

pub open spec fn abs(v: int) -> int {
    if v < 0 { -v } else { v }
}

/// `r` is the integer square root of `n`.
pub open spec fn is_root(n: int, r: int) -> bool {
    0 <= r && r * r <= n && n < (r + 1) * (r + 1)
}

pub open spec fn sqrt_floor(n: int) -> int {
    choose|r: int| is_root(n, r)
}

proof fn lemma_root_unique(n: int, a: int, b: int)
    requires
        is_root(n, a),
        is_root(n, b),
    ensures
        a == b,
{
    if a < b {
        assert((a + 1) * (a + 1) <= b * b) by (nonlinear_arith)
            requires
                0 <= a + 1 <= b,
        ;
    } else if b < a {
        assert((b + 1) * (b + 1) <= a * a) by (nonlinear_arith)
            requires
                0 <= b + 1 <= a,
        ;
    }
}

pub proof fn lemma_sqrt_floor(n: int, r: int)
    requires
        is_root(n, r),
    ensures
        sqrt_floor(n) == r,
{
    let s = sqrt_floor(n);
    assert(is_root(n, s));
    lemma_root_unique(n, r, s);
}

proof fn choose_root_below(q: int, h: int) -> (k: int)
    requires
        0 < h,
        0 <= q < h * h,
    ensures
        is_root(q, k),
    decreases h,
{
    if (h - 1) * (h - 1) <= q {
        h - 1
    } else {
        if h == 1 {
            assert((h - 1) * (h - 1) == 0) by (nonlinear_arith)
                requires
                    h == 1,
            ;
        }
        choose_root_below(q, h - 1)
    }
}

/// Every value below `ROOT_BOUND * ROOT_BOUND` has an integer square root.
pub proof fn lemma_root_exists(q: int)
    requires
        0 <= q < ROOT_BOUND * ROOT_BOUND,
    ensures
        is_root(q, sqrt_floor(q)),
{
    let k = choose_root_below(q, ROOT_BOUND as int);
    lemma_sqrt_floor(q, k);
}

/// Square roots are taken of values below the square of this bound.
pub const ROOT_BOUND: u32 = 363;

/// Integer square root, by bisection.
pub fn isqrt(n: u32) -> (r: u16)
    requires
        n < ROOT_BOUND * ROOT_BOUND,
    ensures
        r == sqrt_floor(n as int),
        is_root(n as int, r as int),
        r < ROOT_BOUND,
{
    let mut lo: u32 = 0;
    let mut hi: u32 = ROOT_BOUND;
    while lo + 1 < hi
        invariant
            lo < hi <= ROOT_BOUND,
            n < ROOT_BOUND * ROOT_BOUND,
            lo * lo <= n,
            n < hi * hi,
        decreases hi - lo,
    {
        let mid: u32 = lo + (hi - lo) / 2;
        assert(mid * mid <= ROOT_BOUND * ROOT_BOUND) by (nonlinear_arith)
            requires
                mid <= ROOT_BOUND,
        ;
        if mid * mid <= n {
            lo = mid;
        } else {
            hi = mid;
        }
    }
    proof {
        lemma_sqrt_floor(n as int, lo as int);
    }
    lo as u16
}

/// The direction bucket of the vector `(dx, dy)`: bucket `k` is centred on
/// the angle `k * 45` degrees, measured from the x axis towards the y axis.
/// The slope 12/29 stands for the tangent of 22.5 degrees.
pub open spec fn direction_of(dx: int, dy: int) -> u8 {
    let ax = abs(dx);
    let ay = abs(dy);
    if dx == 0 && dy == 0 {
        0
    } else if 29 * ay <= 12 * ax {
        if dx > 0 { 0 } else { 4 }
    } else if 29 * ax <= 12 * ay {
        if dy > 0 { 2 } else { 6 }
    } else if dx > 0 {
        if dy > 0 { 1 } else { 7 }
    } else {
        if dy > 0 { 3 } else { 5 }
    }
}

/// Distance between two direction buckets around the circle. Numbers that
/// are no bucket (`NUM_DIRECTIONS` and above) are compared as plain numbers,
/// so the distance is zero exactly when the two are equal.
pub open spec fn direction_distance(a: int, b: int) -> int {
    let d = abs(a - b);
    if NUM_DIRECTIONS / 2 < d < NUM_DIRECTIONS { NUM_DIRECTIONS - d } else { d }
}

/// The sub-stroke running from `pts[s]` to `pts[e]`.
pub open spec fn sub_stroke_of(pts: Seq<Point>, s: int, e: int) -> SubStroke {
    let dx = pts[e].x - pts[s].x;
    let dy = pts[e].y - pts[s].y;
    SubStroke {
        direction: direction_of(dx, dy),
        length: sqrt_floor((dx * dx + dy * dy) / 2) as u8,
        center_x: ((pts[s].x + pts[e].x) / 2) as u8,
        center_y: ((pts[s].y + pts[e].y) / 2) as u8,
    }
}

/// Whether the step into `pts[i]` turns away from the chord of the current
/// sub-stroke, which starts at `pts[s]` and has reached `pts[i - 1]`.
/// Steps and chords of zero length have no direction and never turn.
pub open spec fn turns(pts: Seq<Point>, s: int, i: int) -> bool {
    let sx = pts[i].x - pts[i - 1].x;
    let sy = pts[i].y - pts[i - 1].y;
    let cx = pts[i - 1].x - pts[s].x;
    let cy = pts[i - 1].y - pts[s].y;
    (sx != 0 || sy != 0) && (cx != 0 || cy != 0) && direction_distance(
        direction_of(sx, sy) as int,
        direction_of(cx, cy) as int,
    ) > TURN_TOLERANCE
}

/// The sub-strokes of `pts` from a sub-stroke starting at `s`, with the
/// points before `i` already walked.
pub open spec fn segments(pts: Seq<Point>, s: int, i: int) -> Seq<SubStroke>
    decreases pts.len() - i,
{
    if i >= pts.len() {
        seq![sub_stroke_of(pts, s, pts.len() - 1)]
    } else if i < 1 {
        seq![]
    } else if turns(pts, s, i) {
        seq![sub_stroke_of(pts, s, i - 1)] + segments(pts, i - 1, i + 1)
    } else {
        segments(pts, s, i + 1)
    }
}

/// The sub-strokes of one raw stroke.
pub open spec fn stroke_features(pts: Seq<Point>) -> Seq<SubStroke> {
    segments(smoothed(pts), 0, 1)
}

/// The feature sequence of a character: its strokes' sub-strokes, in order.
pub open spec fn char_features(strokes: Seq<Seq<Point>>) -> Seq<SubStroke>
    decreases strokes.len(),
{
    if strokes.len() == 0 {
        seq![]
    } else {
        char_features(strokes.drop_last()) + stroke_features(strokes.last())
    }
}

fn abs_diff(a: u8, b: u8) -> (r: u8)
    ensures
        r == abs(a - b),
{
    if a >= b { a - b } else { b - a }
}

/// The direction bucket of the vector from `p` to `q`.
pub fn direction(p: Point, q: Point) -> (r: u8)
    ensures
        r == direction_of(q.x - p.x, q.y - p.y),
        r < NUM_DIRECTIONS,
{
    let ax = abs_diff(q.x, p.x) as u32;
    let ay = abs_diff(q.y, p.y) as u32;
    let right = q.x > p.x;
    let down = q.y > p.y;
    if ax == 0 && ay == 0 {
        0
    } else if 29 * ay <= 12 * ax {
        if right { 0 } else { 4 }
    } else if 29 * ax <= 12 * ay {
        if down { 2 } else { 6 }
    } else if right {
        if down { 1 } else { 7 }
    } else {
        if down { 3 } else { 5 }
    }
}

/// Circular distance between two direction buckets.
pub fn turn(a: u8, b: u8) -> (r: u8)
    ensures
        r == direction_distance(a as int, b as int),
{
    let d = abs_diff(a, b);
    if NUM_DIRECTIONS / 2 < d && d < NUM_DIRECTIONS { NUM_DIRECTIONS - d } else { d }
}

proof fn lemma_square_bound(d: int)
    requires
        abs(d) <= 255,
    ensures
        0 <= d * d <= 65025,
{
    assert(0 <= d * d <= 65025) by (nonlinear_arith)
        requires
            -255 <= d <= 255,
    ;
}

proof fn lemma_squares(p: Point, q: Point, dx: u32, dy: u32)
    requires
        dx == abs(q.x - p.x),
        dy == abs(q.y - p.y),
    ensures
        dx * dx == (q.x - p.x) * (q.x - p.x),
        dy * dy == (q.y - p.y) * (q.y - p.y),
        0 <= dx * dx + dy * dy <= 130050,
{
    lemma_square_bound(q.x - p.x);
    lemma_square_bound(q.y - p.y);
    assert(dx * dx == (q.x - p.x) * (q.x - p.x)) by (nonlinear_arith)
        requires
            dx == abs(q.x - p.x),
    ;
    assert(dy * dy == (q.y - p.y) * (q.y - p.y)) by (nonlinear_arith)
        requires
            dy == abs(q.y - p.y),
    ;
}

/// Normalized distance between two points: the root of half the squared
/// Euclidean distance, so that the diagonal of the surface stays below 256.
pub fn distance(p: Point, q: Point) -> (r: u8)
    ensures
        r == sqrt_floor(((q.x - p.x) * (q.x - p.x) + (q.y - p.y) * (q.y - p.y)) / 2),
{
    let dx = abs_diff(q.x, p.x) as u32;
    let dy = abs_diff(q.y, p.y) as u32;
    proof {
        lemma_squares(p, q, dx, dy);
    }
    let n = (dx * dx + dy * dy) / 2;
    let r = isqrt(n);
    assert(r <= 255) by (nonlinear_arith)
        requires
            0 <= r,
            r * r <= n,
            n <= 65025,
    ;
    r as u8
}

/// Euclidean distance between two points, rounded down.
pub fn euclidean(p: Point, q: Point) -> (r: u16)
    ensures
        r == sqrt_floor((q.x - p.x) * (q.x - p.x) + (q.y - p.y) * (q.y - p.y)),
{
    let dx = abs_diff(q.x, p.x) as u32;
    let dy = abs_diff(q.y, p.y) as u32;
    proof {
        lemma_squares(p, q, dx, dy);
    }
    isqrt(dx * dx + dy * dy)
}

fn midpoint(a: u8, b: u8) -> (r: u8)
    ensures
        r == (a + b) / 2,
{
    ((a as u16 + b as u16) / 2) as u8
}

fn sub_stroke(pts: &Vec<Point>, s: usize, e: usize) -> (r: SubStroke)
    requires
        s < pts@.len(),
        e < pts@.len(),
    ensures
        r == sub_stroke_of(pts@, s as int, e as int),
{
    let p = pts[s];
    let q = pts[e];
    SubStroke {
        direction: direction(p, q),
        length: distance(p, q),
        center_x: midpoint(p.x, q.x),
        center_y: midpoint(p.y, q.y),
    }
}

fn turns_at(pts: &Vec<Point>, s: usize, i: usize) -> (r: bool)
    requires
        s < i < pts@.len(),
    ensures
        r == turns(pts@, s as int, i as int),
{
    let a = pts[s];
    let b = pts[i - 1];
    let c = pts[i];
    if b == c || a == b {
        false
    } else {
        turn(direction(b, c), direction(a, b)) > TURN_TOLERANCE
    }
}

/// Cuts a smoothed stroke into sub-strokes.
pub fn segment(pts: &Vec<Point>) -> (r: Vec<SubStroke>)
    requires
        pts@.len() >= 1,
    ensures
        r@ == segments(pts@, 0, 1),
{
    let n = pts.len();
    let mut out: Vec<SubStroke> = Vec::new();
    let mut s: usize = 0;
    let mut i: usize = 1;
    while i < n
        invariant
            n == pts@.len() >= 1,
            s < i <= n,
            out@ + segments(pts@, s as int, i as int) == segments(pts@, 0, 1),
        decreases n - i,
    {
        if turns_at(pts, s, i) {
            out.push(sub_stroke(pts, s, i - 1));
            assert(out@ + segments(pts@, (i - 1) as int, (i + 1) as int) =~= segments(pts@, 0, 1));
            s = i - 1;
        }
        i = i + 1;
    }
    out.push(sub_stroke(pts, s, n - 1));
    assert(out@ =~= segments(pts@, 0, 1));
    out
}

/// The sub-strokes of one raw stroke.
pub fn analyze_stroke(stroke: &Stroke) -> (r: Vec<SubStroke>)
    requires
        stroke@.len() >= 1,
    ensures
        r@ == stroke_features(stroke@),
{
    let sm = smooth(&stroke.points);
    segment(&sm)
}

/// The feature sequence of a character whose strokes all have points.
pub fn analyze_character(strokes: &Vec<Stroke>) -> (r: Vec<SubStroke>)
    requires
        forall|i: int| 0 <= i < strokes@.len() ==> (#[trigger] strokes@[i])@.len() >= 1,
    ensures
        r@ == char_features(strokes_view(strokes@)),
{
    let mut out: Vec<SubStroke> = Vec::new();
    let mut i: usize = 0;
    while i < strokes.len()
        invariant
            i <= strokes@.len(),
            forall|k: int| 0 <= k < strokes@.len() ==> (#[trigger] strokes@[k])@.len() >= 1,
            out@ == char_features(strokes_view(strokes@.take(i as int))),
        decreases strokes@.len() - i,
    {
        let mut part = analyze_stroke(&strokes[i]);
        proof {
            let v = strokes_view(strokes@.take(i + 1));
            assert(v.drop_last() =~= strokes_view(strokes@.take(i as int)));
            assert(v.last() == strokes@[i as int]@);
        }
        out.append(&mut part);
        i = i + 1;
    }
    assert(strokes@.take(i as int) =~= strokes@);
    out
}

} // verus!
