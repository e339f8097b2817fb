//! Recognition of hand-drawn ideographic characters: strokes are smoothed,
//! cut into sub-strokes, and scored by sequence alignment against a fixed
//! database of reference characters; the best matches are kept in a bounded,
//! sorted collector.
use vstd::prelude::*;

pub mod entities;
pub mod curve;
pub mod analyzer;
pub mod matcher;
pub mod collector;
pub mod sample;

use crate::entities::{Point, Stroke, SubStroke, ReferenceCharacter, Match, LookupError, strokes_view};
use crate::analyzer::{abs, char_features, analyze_character};
use crate::matcher::{
    similarity, similarity_of, lemma_similarity_bounds, lemma_self_match,
    lemma_perfect_similarity_identical, SCORE_SCALE,
};
use crate::collector::{
    collected, lemma_collected, lemma_collected_is_top, is_top, ranks_above, MatchCollector,
};

verus! {

/// Largest difference of stroke counts for which a reference is scored.
pub const STROKE_COUNT_TOLERANCE: usize = 2;

/// Whether a reference drawn with `count` strokes is scored against a query
/// drawn with `query` strokes.
pub open spec fn within_tolerance(count: int, query: int) -> bool {
    abs(count - query) <= STROKE_COUNT_TOLERANCE
}

/// The matches handed to the collector, in database order: one for each
/// reference within the stroke-count tolerance whose similarity to the
/// query features `q` is positive.
pub open spec fn offered(db: Seq<ReferenceCharacter>, q: Seq<SubStroke>, strokes: int) -> Seq<Match>
    decreases db.len(),
{
    if db.len() == 0 {
        seq![]
    } else {
        let prev = offered(db.drop_last(), q, strokes);
        let c = db.last();
        let s = similarity(q, c.features@);
        if within_tolerance(c.stroke_count as int, strokes) && s > 0 {
            prev.push(Match { hanzi: c.hanzi, score: s as u32 })
        } else {
            prev
        }
    }
}

pub open spec fn has_empty_stroke(strokes: Seq<Seq<Point>>) -> bool {
    exists|i: int| 0 <= i < strokes.len() && #[trigger] strokes[i].len() == 0
}

/// The outcome of looking up a character drawn as `strokes`.
pub open spec fn lookup_result(db: Seq<ReferenceCharacter>, strokes: Seq<Seq<Point>>, limit: nat) -> Result<
    Seq<Match>,
    LookupError,
> {
    if strokes.len() == 0 {
        Err(LookupError::NoStrokes)
    } else if has_empty_stroke(strokes) {
        Err(LookupError::EmptyStroke)
    } else {
        Ok(collected(offered(db, char_features(strokes), strokes.len() as int), limit))
    }
}

pub open spec fn result_view(r: Result<Vec<Match>, LookupError>) -> Result<Seq<Match>, LookupError> {
    match r {
        Ok(v) => Ok(v@),
        Err(e) => Err(e),
    }
}

proof fn lemma_offered_positive(db: Seq<ReferenceCharacter>, q: Seq<SubStroke>, strokes: int)
    ensures
        forall|x: Match| #[trigger] offered(db, q, strokes).contains(x) ==> x.score > 0,
    decreases db.len(),
{
    if db.len() > 0 {
        let prev = offered(db.drop_last(), q, strokes);
        lemma_offered_positive(db.drop_last(), q, strokes);
        assert forall|x: Match| #[trigger] offered(db, q, strokes).contains(x) implies x.score > 0 by {
            let o = offered(db, q, strokes);
            let k = choose|k: int| 0 <= k < o.len() && o[k] == x;
            if k < prev.len() {
                assert(prev.contains(x));
            } else {
                lemma_similarity_bounds(q, db.last().features@);
            }
        }
    }
}

/// Looks up the character drawn as `character` in `db`, returning at most
/// `limit` matches, best first.
pub fn lookup(db: &Vec<ReferenceCharacter>, character: &Vec<Stroke>, limit: usize) -> (r: Result<
    Vec<Match>,
    LookupError,
>)
    ensures
        result_view(r) == lookup_result(db@, strokes_view(character@), limit as nat),
        r matches Ok(v) ==> v@.len() <= limit && forall|k: int|
            0 <= k < v@.len() ==> (#[trigger] v@[k]).score > 0,
{
    let ghost sv = strokes_view(character@);
    if character.len() == 0 {
        return Err(LookupError::NoStrokes);
    }
    let mut i: usize = 0;
    while i < character.len()
        invariant
            i <= character@.len(),
            sv == strokes_view(character@),
            forall|k: int| 0 <= k < i ==> (#[trigger] character@[k])@.len() >= 1,
        decreases character@.len() - i,
    {
        if character[i].points.len() == 0 {
            assert(sv[i as int].len() == 0);
            return Err(LookupError::EmptyStroke);
        }
        i = i + 1;
    }
    assert(!has_empty_stroke(sv));
    let q = analyze_character(character);
    let n = character.len();
    let mut collector = MatchCollector::new(limit);
    let mut j: usize = 0;
    while j < db.len()
        invariant
            j <= db@.len(),
            n == character@.len(),
            q@ == char_features(sv),
            collector.wf(),
            collector.capacity() == limit,
            collector.offered() == offered(db@.take(j as int), q@, n as int),
        decreases db@.len() - j,
    {
        let c = &db[j];
        proof {
            assert(db@.take(j + 1).drop_last() =~= db@.take(j as int));
        }
        let diff = if c.stroke_count >= n { c.stroke_count - n } else { n - c.stroke_count };
        if diff <= STROKE_COUNT_TOLERANCE {
            let s = similarity_of(&q, &c.features);
            if s > 0 {
                collector.offer(Match { hanzi: c.hanzi, score: s });
            }
        }
        j = j + 1;
    }
    assert(db@.take(j as int) =~= db@);
    proof {
        lemma_collected(collector.offered(), limit as nat);
        lemma_offered_positive(db@, q@, n as int);
    }
    let v = collector.into_vec();
    assert forall|k: int| 0 <= k < v@.len() implies (#[trigger] v@[k]).score > 0 by {
        assert(v@.contains(v@[k]));
    }
    Ok(v)
}

/// The references of `db` within the stroke-count tolerance of a query
/// drawn with `strokes` strokes, in database order.
pub open spec fn scored_references(db: Seq<ReferenceCharacter>, strokes: int) -> Seq<ReferenceCharacter>
    decreases db.len(),
{
    if db.len() == 0 {
        seq![]
    } else if within_tolerance(db.last().stroke_count as int, strokes) {
        scored_references(db.drop_last(), strokes).push(db.last())
    } else {
        scored_references(db.drop_last(), strokes)
    }
}

proof fn lemma_offered_scored_only(db: Seq<ReferenceCharacter>, q: Seq<SubStroke>, strokes: int)
    ensures
        offered(db, q, strokes) == offered(scored_references(db, strokes), q, strokes),
    decreases db.len(),
{
    if db.len() > 0 {
        lemma_offered_scored_only(db.drop_last(), q, strokes);
        let k = scored_references(db, strokes);
        if within_tolerance(db.last().stroke_count as int, strokes) {
            assert(k.drop_last() =~= scored_references(db.drop_last(), strokes));
        }
    }
}

/// References outside the stroke-count tolerance of the query have no
/// effect: two databases that hold the same references within it, in the
/// same order, give the same outcome, whatever else they hold.
pub proof fn lemma_pruned_references_ignored(
    db1: Seq<ReferenceCharacter>,
    db2: Seq<ReferenceCharacter>,
    strokes: Seq<Seq<Point>>,
    limit: nat,
)
    requires
        scored_references(db1, strokes.len() as int) == scored_references(db2, strokes.len() as int),
    ensures
        lookup_result(db1, strokes, limit) == lookup_result(db2, strokes, limit),
{
    let q = char_features(strokes);
    lemma_offered_scored_only(db1, q, strokes.len() as int);
    lemma_offered_scored_only(db2, q, strokes.len() as int);
}

/// A character with at least one stroke, each with at least one point.
pub open spec fn well_formed(strokes: Seq<Seq<Point>>) -> bool {
    strokes.len() > 0 && !has_empty_stroke(strokes)
}

/// Some reference of `db` has the name `hanzi` and features whose
/// similarity to `q` is perfect.
pub open spec fn perfect_reference(db: Seq<ReferenceCharacter>, q: Seq<SubStroke>, hanzi: char) -> bool {
    exists|j: int|
        0 <= j < db.len() && db[j].hanzi == hanzi && #[trigger] similarity(q, db[j].features@)
            == SCORE_SCALE
}

proof fn lemma_offered_origin(db: Seq<ReferenceCharacter>, q: Seq<SubStroke>, strokes: int)
    ensures
        forall|x: Match| #[trigger] offered(db, q, strokes).contains(x) ==> x.score <= SCORE_SCALE
            && (x.score == SCORE_SCALE ==> perfect_reference(db, q, x.hanzi)),
    decreases db.len(),
{
    if db.len() > 0 {
        let d = db.drop_last();
        let prev = offered(d, q, strokes);
        lemma_offered_origin(d, q, strokes);
        lemma_similarity_bounds(q, db.last().features@);
        assert forall|x: Match| #[trigger] offered(db, q, strokes).contains(x) implies x.score
            <= SCORE_SCALE && (x.score == SCORE_SCALE ==> perfect_reference(db, q, x.hanzi)) by {
            let o = offered(db, q, strokes);
            let k = choose|k: int| 0 <= k < o.len() && o[k] == x;
            if k < prev.len() {
                assert(prev.contains(x));
                if x.score == SCORE_SCALE {
                    let j = choose|j: int|
                        0 <= j < d.len() && d[j].hanzi == x.hanzi && #[trigger] similarity(q, d[j].features@)
                            == SCORE_SCALE;
                    assert(db[j] == d[j]);
                }
            } else {
                let j = db.len() - 1;
                assert(db[j] == db.last());
            }
        }
    }
}

proof fn lemma_offered_includes(db: Seq<ReferenceCharacter>, q: Seq<SubStroke>, strokes: int, i: int)
    requires
        0 <= i < db.len(),
        within_tolerance(db[i].stroke_count as int, strokes),
        similarity(q, db[i].features@) > 0,
    ensures
        offered(db, q, strokes).contains(
            Match { hanzi: db[i].hanzi, score: similarity(q, db[i].features@) as u32 },
        ),
    decreases db.len(),
{
    let o = offered(db, q, strokes);
    let x = Match { hanzi: db[i].hanzi, score: similarity(q, db[i].features@) as u32 };
    if i == db.len() - 1 {
        assert(o[o.len() - 1] == x);
    } else {
        let d = db.drop_last();
        assert(d[i] == db[i]);
        lemma_offered_includes(d, q, strokes, i);
        let prev = offered(d, q, strokes);
        let k = choose|k: int| 0 <= k < prev.len() && prev[k] == x;
        assert(o[k] == x);
    }
}

/// A reference whose features are the query's own, within the stroke-count
/// tolerance, makes the best match score `SCORE_SCALE`; where no other
/// reference has those features, the best match is that reference.
pub proof fn lemma_identical_ranks_first(
    db: Seq<ReferenceCharacter>,
    strokes: Seq<Seq<Point>>,
    limit: nat,
    i: int,
)
    requires
        well_formed(strokes),
        limit >= 1,
        0 <= i < db.len(),
        db[i].features@ == char_features(strokes),
        within_tolerance(db[i].stroke_count as int, strokes.len() as int),
    ensures
        lookup_result(db, strokes, limit) is Ok,
        lookup_result(db, strokes, limit)->Ok_0.len() >= 1,
        lookup_result(db, strokes, limit)->Ok_0[0].score == SCORE_SCALE,
        (forall|j: int| 0 <= j < db.len() && j != i ==> (#[trigger] db[j]).features@ != char_features(strokes))
            ==> lookup_result(db, strokes, limit)->Ok_0[0].hanzi == db[i].hanzi,
{
    let q = char_features(strokes);
    let sc = strokes.len() as int;
    let o = offered(db, q, sc);
    let h = collected(o, limit);
    lemma_self_match(q);
    lemma_offered_includes(db, q, sc, i);
    lemma_offered_origin(db, q, sc);
    lemma_collected(o, limit);
    lemma_collected_is_top(o, limit);
    let m = Match { hanzi: db[i].hanzi, score: SCORE_SCALE };
    let t = choose|t: int| 0 <= t < o.len() && o[t] == m;
    let idx = choose|idx: Seq<int>| is_top(o, limit, h, idx);
    assert(h.len() >= 1);
    if idx.contains(t) {
        let k = choose|k: int| 0 <= k < idx.len() && idx[k] == t;
        if k > 0 {
            assert(ranks_above(o, idx[0], idx[k]));
        }
    } else {
        assert(ranks_above(o, idx[0], t));
    }
    assert(o.contains(h[0])) by {
        assert(h.contains(h[0]));
    }
    assert(h[0].score == SCORE_SCALE);
    if forall|j: int| 0 <= j < db.len() && j != i ==> (#[trigger] db[j]).features@ != q {
        assert(perfect_reference(db, q, h[0].hanzi));
        let j = choose|j: int|
            0 <= j < db.len() && db[j].hanzi == h[0].hanzi && #[trigger] similarity(q, db[j].features@)
                == SCORE_SCALE;
        lemma_perfect_similarity_identical(q, db[j].features@);
    }
}

/// The matches of a lookup are the `limit` best-ranked of the matches
/// offered (all of them if fewer were offered), best first: a higher score
/// ranks above a lower one, and among equal scores the reference that
/// stands earlier in the database ranks above.
pub proof fn lemma_lookup_is_top(db: Seq<ReferenceCharacter>, strokes: Seq<Seq<Point>>, limit: nat)
    requires
        well_formed(strokes),
    ensures
        lookup_result(db, strokes, limit) is Ok,
        exists|idx: Seq<int>|
            is_top(
                offered(db, char_features(strokes), strokes.len() as int),
                limit,
                lookup_result(db, strokes, limit)->Ok_0,
                idx,
            ),
{
    let o = offered(db, char_features(strokes), strokes.len() as int);
    lemma_collected_is_top(o, limit);
    let idx = choose|idx: Seq<int>| is_top(o, limit, collected(o, limit), idx);
    assert(lookup_result(db, strokes, limit)->Ok_0 == collected(o, limit));
    assert(is_top(o, limit, lookup_result(db, strokes, limit)->Ok_0, idx));
}

/// Looking up any well-formed character in an empty database gives an
/// empty list.
pub proof fn lemma_empty_database(strokes: Seq<Seq<Point>>, limit: nat)
    requires
        well_formed(strokes),
    ensures
        lookup_result(Seq::empty(), strokes, limit) == Ok::<Seq<Match>, LookupError>(Seq::empty()),
{
    assert(collected(Seq::<Match>::empty(), limit) =~= Seq::<Match>::empty());
}

/// Two lookups of the same character in the same database, with the same
/// limit, give the same outcome.
pub proof fn lemma_lookup_deterministic(
    db: Seq<ReferenceCharacter>,
    strokes: Seq<Seq<Point>>,
    limit: nat,
    r1: Result<Vec<Match>, LookupError>,
    r2: Result<Vec<Match>, LookupError>,
)
    requires
        result_view(r1) == lookup_result(db, strokes, limit),
        result_view(r2) == lookup_result(db, strokes, limit),
    ensures
        result_view(r1) == result_view(r2),
{
}

} // verus!
