//! Curve Smoother: one round of corner cutting, which places the points on
//! the quadratic B-spline whose control points are the raw samples.
use vstd::prelude::*;
use crate::entities::Point;

verus! {

/// The point a quarter of the way from `p` towards `q`.
pub open spec fn quarter_towards(p: Point, q: Point) -> Point {
    Point {
        x: ((3 * p.x + q.x) / 4) as u8,
        y: ((3 * p.y + q.y) / 4) as u8,
    }
}

/// The smoothed point sequence: the endpoints are kept, and each segment
/// `p[i]..p[i+1]` is replaced by its points at one quarter and three quarters.
/// Fewer than two points pass through unchanged.
pub open spec fn smoothed(pts: Seq<Point>) -> Seq<Point> {
    if pts.len() < 2 {
        pts
    } else {
        Seq::new(
            2 * pts.len(),
            |k: int|
                if k == 0 {
                    pts[0]
                } else if k == 2 * pts.len() - 1 {
                    pts[pts.len() - 1]
                } else if k % 2 == 1 {
                    quarter_towards(pts[(k - 1) / 2], pts[(k + 1) / 2])
                } else {
                    quarter_towards(pts[k / 2], pts[k / 2 - 1])
                },
        )
    }
}

fn cut(a: u8, b: u8) -> (r: u8)
    ensures
        r == (3 * a + b) / 4,
{
    ((3 * (a as u16) + (b as u16)) / 4) as u8
}

fn quarter(p: Point, q: Point) -> (r: Point)
    ensures
        r == quarter_towards(p, q),
{
    Point { x: cut(p.x, q.x), y: cut(p.y, q.y) }
}

/// Smooths the raw points of one stroke.
pub fn smooth(pts: &Vec<Point>) -> (r: Vec<Point>)
    ensures
        r@ == smoothed(pts@),
{
    let n = pts.len();
    if n < 2 {
        return pts.clone();
    }
    let mut out: Vec<Point> = Vec::new();
    out.push(pts[0]);
    let mut i: usize = 0;
    while i + 1 < n
        invariant
            2 <= n == pts@.len(),
            i + 1 <= n,
            out@.len() == 2 * i + 1,
            forall|k: int| 0 <= k < out@.len() ==> out@[k] == #[trigger] smoothed(pts@)[k],
        decreases n - i,
    {
        out.push(quarter(pts[i], pts[i + 1]));
        out.push(quarter(pts[i + 1], pts[i]));
        i = i + 1;
    }
    out.push(pts[n - 1]);
    assert(out@ =~= smoothed(pts@));
    out
}

} // verus!
