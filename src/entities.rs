use vstd::prelude::*;

verus! {

/// A position on the normalized drawing surface.
#[derive(Clone, Copy, PartialEq, Eq, Structural, Debug)]
pub struct Point {
    pub x: u8,
    pub y: u8,
}

/// The points of one continuous drawing gesture, in drawing order.
#[derive(Debug)]
pub struct Stroke {
    pub points: Vec<Point>,
}

impl View for Stroke {
    type V = Seq<Point>;

    open spec fn view(&self) -> Seq<Point> {
        self.points@
    }
}

/// The atomic unit of comparison: one straight-ish piece of a stroke.
#[derive(Clone, Copy, PartialEq, Eq, Structural, Debug)]
pub struct SubStroke {
    /// Quantized direction, below `NUM_DIRECTIONS`.
    pub direction: u8,
    /// Normalized distance between the endpoints.
    pub length: u8,
    /// Midpoint of the endpoints.
    pub center_x: u8,
    pub center_y: u8,
}

/// A known character of the database and its analyzed form.
#[derive(Debug)]
pub struct ReferenceCharacter {
    pub hanzi: char,
    pub stroke_count: usize,
    pub features: Vec<SubStroke>,
}

/// A candidate character and its similarity, scaled so that
/// `SCORE_SCALE` stands for a perfect match.
#[derive(Clone, Copy, PartialEq, Eq, Structural, Debug)]
pub struct Match {
    pub hanzi: char,
    pub score: u32,
}

/// Why a character cannot be looked up.
#[derive(Clone, Copy, PartialEq, Eq, Structural, Debug)]
pub enum LookupError {
    /// The character has no strokes.
    NoStrokes,
    /// One of the strokes has no points.
    EmptyStroke,
}

/// The view of a drawn character: its strokes' point sequences.
pub open spec fn strokes_view(strokes: Seq<Stroke>) -> Seq<Seq<Point>> {
    strokes.map_values(|s: Stroke| s@)
}

} // verus!
