//! Drawn characters as recorded samples: JSON arrays of strokes of points,
//! and the replay of a character stroke by stroke.
use vstd::prelude::*;
use crate::entities::{Point, Stroke, strokes_view};

verus! {

/// What serde_json decodes from the text `s` as an array of arrays of arrays
/// of bytes, if it decodes.
pub uninterp spec fn json_coordinates(s: Seq<char>) -> Option<Seq<Seq<Seq<u8>>>>;

pub open spec fn coords_view(c: Seq<Vec<Vec<u8>>>) -> Seq<Seq<Seq<u8>>> {
    c.map_values(|st: Vec<Vec<u8>>| st@.map_values(|p: Vec<u8>| p@))
}

/// Relies on serde_json::from_str, used to decode nested arrays of bytes;
/// its outcome depends on the text alone.
#[verifier::external_body]
fn decode_coordinates(s: &str) -> (r: Option<Vec<Vec<Vec<u8>>>>)
    ensures
        match r {
            Some(v) => json_coordinates(s@) == Some(coords_view(v@)),
            None => json_coordinates(s@) is None,
        },
{
    serde_json::from_str(s).ok()
}

/// Every point has at least the two coordinates.
pub open spec fn all_points_complete(c: Seq<Seq<Seq<u8>>>) -> bool {
    forall|i: int, j: int| 0 <= i < c.len() && 0 <= j < c[i].len() ==> (#[trigger] c[i][j]).len() >= 2
}

/// The strokes that coordinate lists stand for: each point is its first two
/// entries, further entries are ignored; a point with fewer is invalid.
pub open spec fn strokes_of(c: Seq<Seq<Seq<u8>>>) -> Option<Seq<Seq<Point>>> {
    if all_points_complete(c) {
        Some(
            Seq::new(
                c.len(),
                |i: int| Seq::new(c[i].len(), |j: int| Point { x: c[i][j][0], y: c[i][j][1] }),
            ),
        )
    } else {
        None
    }
}

pub open spec fn option_strokes_view(r: Option<Vec<Stroke>>) -> Option<Seq<Seq<Point>>> {
    match r {
        Some(v) => Some(strokes_view(v@)),
        None => None,
    }
}

/// The strokes that the text of a sample stands for.
pub open spec fn sample_of(s: Seq<char>) -> Option<Seq<Seq<Point>>> {
    match json_coordinates(s) {
        Some(c) => strokes_of(c),
        None => None,
    }
}

/// Builds the strokes that coordinate lists stand for.
pub fn strokes_from_coords(coords: &Vec<Vec<Vec<u8>>>) -> (r: Option<Vec<Stroke>>)
    ensures
        option_strokes_view(r) == strokes_of(coords_view(coords@)),
{
    let ghost c = coords_view(coords@);
    let mut strokes: Vec<Stroke> = Vec::new();
    let mut i: usize = 0;
    while i < coords.len()
        invariant
            i <= coords@.len(),
            c == coords_view(coords@),
            strokes@.len() == i,
            forall|a: int, b: int| 0 <= a < i && 0 <= b < c[a].len() ==> (#[trigger] c[a][b]).len() >= 2,
            forall|a: int| 0 <= a < i ==> (#[trigger] strokes@[a])@ == Seq::new(
                c[a].len(),
                |b: int| Point { x: c[a][b][0], y: c[a][b][1] },
            ),
        decreases coords@.len() - i,
    {
        let st = &coords[i];
        let mut points: Vec<Point> = Vec::new();
        let mut j: usize = 0;
        while j < st.len()
            invariant
                i < coords@.len(),
                st == coords@[i as int],
                c == coords_view(coords@),
                j <= st@.len(),
                points@.len() == j,
                forall|b: int| 0 <= b < j ==> (#[trigger] c[i as int][b]).len() >= 2,
                forall|b: int| 0 <= b < j ==> (#[trigger] points@[b]) == (Point {
                    x: c[i as int][b][0],
                    y: c[i as int][b][1],
                }),
            decreases st@.len() - j,
        {
            let p = &st[j];
            if p.len() < 2 {
                assert(c[i as int][j as int].len() < 2);
                return None;
            }
            points.push(Point { x: p[0], y: p[1] });
            j = j + 1;
        }
        strokes.push(Stroke { points });
        assert(strokes@[i as int]@ =~= Seq::new(
            c[i as int].len(),
            |b: int| Point { x: c[i as int][b][0], y: c[i as int][b][1] },
        ));
        i = i + 1;
    }
    assert(strokes_view(strokes@) =~= strokes_of(c).unwrap());
    Some(strokes)
}

/// Decodes a recorded sample: a JSON array of strokes, each an array of
/// points, each an array whose first two numbers are the coordinates.
pub fn parse_sample(s: &str) -> (r: Option<Vec<Stroke>>)
    ensures
        option_strokes_view(r) == sample_of(s@),
{
    match decode_coordinates(s) {
        Some(c) => strokes_from_coords(&c),
        None => None,
    }
}

/// A copy of a stroke.
pub fn clone_stroke(stroke: &Stroke) -> (r: Stroke)
    ensures
        r@ == stroke@,
{
    let mut points: Vec<Point> = Vec::new();
    let mut i: usize = 0;
    while i < stroke.points.len()
        invariant
            i <= stroke@.len(),
            points@ == stroke@.take(i as int),
        decreases stroke@.len() - i,
    {
        points.push(stroke.points[i]);
        i = i + 1;
        assert(points@ =~= stroke@.take(i as int));
    }
    assert(stroke@.take(i as int) =~= stroke@);
    Stroke { points }
}

/// The partial drawings of one character: its first stroke, its first two,
/// and so on, short of the whole character.
pub open spec fn prefixes(c: Seq<Seq<Point>>) -> Seq<Seq<Seq<Point>>> {
    if c.len() <= 1 {
        seq![]
    } else {
        Seq::new((c.len() - 1) as nat, |j: int| c.take(j + 1))
    }
}

/// The partial drawings of each character, character after character.
pub open spec fn replayed(chars: Seq<Seq<Seq<Point>>>) -> Seq<Seq<Seq<Point>>>
    decreases chars.len(),
{
    if chars.len() == 0 {
        seq![]
    } else {
        replayed(chars.drop_last()) + prefixes(chars.last())
    }
}

pub open spec fn characters_view(chars: Seq<Vec<Stroke>>) -> Seq<Seq<Seq<Point>>> {
    chars.map_values(|c: Vec<Stroke>| strokes_view(c@))
}

/// The first `j` strokes of `c`, copied.
fn copy_prefix(c: &Vec<Stroke>, j: usize) -> (r: Vec<Stroke>)
    requires
        j <= c@.len(),
    ensures
        strokes_view(r@) == strokes_view(c@).take(j as int),
{
    let mut out: Vec<Stroke> = Vec::new();
    let mut k: usize = 0;
    while k < j
        invariant
            j <= c@.len(),
            k <= j,
            out@.len() == k,
            strokes_view(out@) == strokes_view(c@).take(k as int),
        decreases j - k,
    {
        let ghost prev = out@;
        out.push(clone_stroke(&c[k]));
        proof {
            assert forall|t: int| 0 <= t < k + 1 implies #[trigger] strokes_view(out@)[t]
                == strokes_view(c@).take(k + 1)[t] by {
                if t < k {
                    assert(out@[t] == prev[t]);
                    assert(strokes_view(prev)[t] == strokes_view(c@).take(k as int)[t]);
                }
            }
        }
        k = k + 1;
        assert(strokes_view(out@) =~= strokes_view(c@).take(k as int));
    }
    out
}

/// Replays recorded characters stroke by stroke, as they were being drawn.
pub fn incremental_replay(chars: &Vec<Vec<Stroke>>) -> (r: Vec<Vec<Stroke>>)
    ensures
        characters_view(r@) == replayed(characters_view(chars@)),
{
    let ghost cv = characters_view(chars@);
    let mut res: Vec<Vec<Stroke>> = Vec::new();
    let mut i: usize = 0;
    while i < chars.len()
        invariant
            i <= chars@.len(),
            cv == characters_view(chars@),
            characters_view(res@) == replayed(cv.take(i as int)),
        decreases chars@.len() - i,
    {
        let this_char = &chars[i];
        let ghost before = characters_view(res@);
        let mut j: usize = 1;
        while j < this_char.len()
            invariant
                i < chars@.len(),
                this_char == chars@[i as int],
                1 <= j,
                j <= this_char@.len() || j == 1,
                characters_view(res@) == before + Seq::new(
                    (j - 1) as nat,
                    |k: int| strokes_view(this_char@).take(k + 1),
                ),
            decreases this_char@.len() - j,
        {
            let prefix = copy_prefix(this_char, j);
            let ghost prev = res@;
            res.push(prefix);
            proof {
                let want = before + Seq::new(j as nat, |k: int| strokes_view(this_char@).take(k + 1));
                assert(characters_view(prev).len() == prev.len());
                assert(prev.len() == before.len() + j - 1);
                assert(want.len() == res@.len());
                assert forall|t: int| 0 <= t < res@.len() implies #[trigger] characters_view(res@)[t]
                    == want[t] by {
                    if t < prev.len() {
                        assert(res@[t] == prev[t]);
                        assert(characters_view(prev)[t] == characters_view(res@)[t]);
                    } else {
                        assert(res@[t] == prefix);
                        assert(t - before.len() == j - 1);
                    }
                }
                assert(characters_view(res@) =~= want);
            }
            j = j + 1;
            assert(characters_view(res@) =~= before + Seq::new(
                (j - 1) as nat,
                |k: int| strokes_view(this_char@).take(k + 1),
            ));
        }
        proof {
            let t = cv.take(i + 1);
            assert(t.drop_last() =~= cv.take(i as int));
            assert(t.last() == strokes_view(this_char@));
            let sv = strokes_view(this_char@);
            if sv.len() > 1 {
                assert(j == sv.len());
                assert(prefixes(sv) =~= Seq::new((j - 1) as nat, |k: int| sv.take(k + 1)));
            } else {
                assert(j == 1);
                assert(prefixes(sv) =~= Seq::new((j - 1) as nat, |k: int| sv.take(k + 1)));
            }
            assert(characters_view(res@) =~= replayed(t));
        }
        i = i + 1;
    }
    assert(cv.take(i as int) =~= cv);
    res
}

} // verus!
