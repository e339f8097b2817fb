use hanzi_lookup::analyzer::{analyze_character, analyze_stroke, direction, distance, isqrt, turn};
use hanzi_lookup::collector::MatchCollector;
use hanzi_lookup::curve::smooth;
use hanzi_lookup::entities::{LookupError, Match, Point, ReferenceCharacter, Stroke, SubStroke};
use hanzi_lookup::matcher::{alignment, pair_cost_of, similarity_of, SCORE_SCALE};
use hanzi_lookup::sample::{clone_stroke, incremental_replay, parse_sample, strokes_from_coords};
use hanzi_lookup::{lookup, STROKE_COUNT_TOLERANCE};

fn pt(x: u8, y: u8) -> Point {
    Point { x, y }
}

fn stroke(points: &[(u8, u8)]) -> Stroke {
    Stroke { points: points.iter().map(|&(x, y)| pt(x, y)).collect() }
}

fn character(strokes: &[&[(u8, u8)]]) -> Vec<Stroke> {
    strokes.iter().map(|s| stroke(s)).collect()
}

fn reference(hanzi: char, strokes: &[&[(u8, u8)]]) -> ReferenceCharacter {
    let c = character(strokes);
    ReferenceCharacter { hanzi, stroke_count: c.len(), features: analyze_character(&c) }
}

fn sub(direction: u8, length: u8, center_x: u8, center_y: u8) -> SubStroke {
    SubStroke { direction, length, center_x, center_y }
}

fn m(hanzi: char, score: u32) -> Match {
    Match { hanzi, score }
}

const THREE: [&[(u8, u8)]; 3] = [
    &[(20, 30), (230, 30)],
    &[(128, 10), (128, 245)],
    &[(30, 200), (120, 120), (220, 220)],
];

#[test]
fn smooth_cuts_corners() {
    let r = smooth(&vec![pt(0, 0), pt(8, 4)]);
    assert_eq!(r, vec![pt(0, 0), pt(2, 1), pt(6, 3), pt(8, 4)]);
}

#[test]
fn smooth_keeps_single_point() {
    assert_eq!(smooth(&vec![pt(7, 9)]), vec![pt(7, 9)]);
}

#[test]
fn isqrt_exact_values() {
    assert_eq!(isqrt(0), 0);
    assert_eq!(isqrt(24), 4);
    assert_eq!(isqrt(25), 5);
    assert_eq!(isqrt(5000), 70);
    assert_eq!(isqrt(65025), 255);
    assert_eq!(isqrt(130050), 360);
}

#[test]
fn direction_buckets() {
    assert_eq!(direction(pt(0, 0), pt(10, 0)), 0);
    assert_eq!(direction(pt(0, 0), pt(10, 10)), 1);
    assert_eq!(direction(pt(0, 0), pt(0, 10)), 2);
    assert_eq!(direction(pt(10, 10), pt(0, 0)), 5);
    assert_eq!(direction(pt(10, 0), pt(0, 0)), 4);
    assert_eq!(direction(pt(0, 10), pt(10, 0)), 7);
    assert_eq!(direction(pt(0, 0), pt(0, 0)), 0);
}

#[test]
fn turn_wraps_around() {
    assert_eq!(turn(0, 7), 1);
    assert_eq!(turn(1, 5), 4);
    assert_eq!(turn(6, 2), 4);
    assert_eq!(turn(3, 3), 0);
    assert_eq!(turn(0, 9), 9);
}

#[test]
fn distance_is_normalized() {
    assert_eq!(distance(pt(0, 0), pt(100, 0)), 70);
    assert_eq!(distance(pt(0, 0), pt(255, 255)), 255);
}

#[test]
fn straight_stroke_is_one_sub_stroke() {
    let r = analyze_stroke(&stroke(&[(0, 0), (100, 0)]));
    assert_eq!(r, vec![sub(0, 70, 50, 0)]);
}

#[test]
fn corner_splits_stroke() {
    let r = analyze_stroke(&stroke(&[(0, 0), (100, 0), (100, 100)]));
    assert_eq!(r, vec![sub(0, 72, 50, 12), sub(2, 53, 100, 62)]);
}

#[test]
fn character_features_keep_stroke_order() {
    let c = character(&[&[(0, 0), (100, 0)], &[(0, 0), (0, 100)]]);
    let r = analyze_character(&c);
    assert_eq!(r, vec![sub(0, 70, 50, 0), sub(2, 70, 0, 50)]);
}

#[test]
fn single_tap_is_one_degenerate_sub_stroke() {
    let r = analyze_stroke(&stroke(&[(10, 10), (10, 10)]));
    assert_eq!(r.len(), 1);
    assert_eq!(r[0].length, 0);
    let db = vec![reference('一', &[&[(20, 128), (230, 128)]])];
    let res = lookup(&db, &character(&[&[(10, 10), (10, 10)]]), 5).unwrap();
    assert!(res.len() <= 1);
}

#[test]
fn pair_cost_formula() {
    assert_eq!(pair_cost_of(sub(0, 40, 10, 10), sub(2, 20, 10, 10)), 212);
    assert_eq!(pair_cost_of(sub(0, 40, 0, 0), sub(0, 40, 100, 0)), 100);
    assert_eq!(pair_cost_of(sub(3, 9, 9, 9), sub(3, 9, 9, 9)), 0);
    assert_eq!(pair_cost_of(sub(0, 0, 0, 0), sub(0, 1, 0, 0)), 1);
    assert_eq!(pair_cost_of(sub(0, 0, 0, 0), sub(0, 0, 1, 0)), 1);
}

#[test]
fn alignment_prefers_match_or_skip() {
    let a = vec![sub(0, 40, 10, 10)];
    let b = vec![sub(2, 20, 10, 10)];
    assert_eq!(alignment(&a, &vec![]), 160);
    assert_eq!(alignment(&a, &b), 212);
    let far = vec![sub(4, 255, 250, 250)];
    assert_eq!(pair_cost_of(sub(0, 0, 0, 0), far[0]), 992);
    assert_eq!(alignment(&vec![sub(0, 0, 0, 0)], &far), 320);
    assert_eq!(similarity_of(&a, &b), 337500);
    assert_eq!(similarity_of(&vec![sub(0, 0, 0, 0)], &far), 0);
}

#[test]
fn self_match_is_perfect() {
    let f = analyze_character(&character(&THREE));
    assert_eq!(alignment(&f, &f), 0);
    assert_eq!(similarity_of(&f, &f), SCORE_SCALE);
    assert_eq!(similarity_of(&vec![], &vec![]), SCORE_SCALE);
}

#[test]
fn collector_keeps_best_in_order() {
    let mut c = MatchCollector::new(3);
    for x in [m('a', 5), m('b', 9), m('c', 5), m('d', 7), m('e', 1), m('f', 9)] {
        c.offer(x);
        assert!(c.held().len() <= 3);
    }
    assert_eq!(c.into_vec(), vec![m('b', 9), m('f', 9), m('d', 7)]);
}

#[test]
fn collector_ties_first_offered_wins() {
    let mut c = MatchCollector::new(2);
    c.offer(m('a', 4));
    c.offer(m('b', 4));
    c.offer(m('c', 4));
    assert_eq!(c.held(), &vec![m('a', 4), m('b', 4)]);
}

#[test]
fn collector_of_capacity_zero_holds_nothing() {
    let mut c = MatchCollector::new(0);
    c.offer(m('a', 4));
    assert!(c.held().is_empty());
}

fn scenario_db() -> Vec<ReferenceCharacter> {
    vec![
        reference('二', &[&[(60, 80), (190, 80)], &[(20, 200), (230, 200)]]),
        reference('大', &[&[(20, 100), (230, 100)], &[(128, 20), (40, 240)], &[(128, 100), (230, 240)]]),
        reference('千', &THREE),
        reference('王', &[&[(40, 40), (210, 40)], &[(50, 128), (200, 128)], &[(128, 40), (128, 220)], &[(20, 220), (230, 220)]]),
        reference('口', &[&[(50, 50), (50, 200)], &[(50, 50), (200, 50), (200, 200)], &[(50, 200), (200, 200)]]),
    ]
}

#[test]
fn identical_reference_ranks_first() {
    let res = lookup(&scenario_db(), &character(&THREE), 10).unwrap();
    assert_eq!(res[0], m('千', SCORE_SCALE));
    for k in 1..res.len() {
        assert!(res[k].score < SCORE_SCALE);
        assert!(res[k - 1].score >= res[k].score);
    }
}

#[test]
fn small_difference_is_not_perfect() {
    let q = vec![sub(0, 0, 0, 0), sub(0, 0, 0, 0), sub(0, 0, 0, 0)];
    let near = vec![sub(0, 1, 0, 0), sub(0, 0, 0, 0), sub(0, 0, 0, 0)];
    assert_eq!(alignment(&q, &near), 1);
    let s = similarity_of(&q, &near);
    assert!(s < SCORE_SCALE);
    assert!(s > 0);
}

#[test]
fn identical_reference_beats_earlier_near_one() {
    let tap: &[(u8, u8)] = &[(0, 0)];
    let query = character(&[tap, tap, tap]);
    let exact = analyze_character(&query);
    assert_eq!(exact, vec![sub(0, 0, 0, 0), sub(0, 0, 0, 0), sub(0, 0, 0, 0)]);
    let near = vec![sub(0, 1, 0, 0), sub(0, 0, 0, 0), sub(0, 0, 0, 0)];
    let db = vec![
        ReferenceCharacter { hanzi: 'b', stroke_count: 3, features: near },
        ReferenceCharacter { hanzi: 'a', stroke_count: 3, features: exact },
    ];
    let res = lookup(&db, &query, 1).unwrap();
    assert_eq!(res, vec![m('a', SCORE_SCALE)]);
    let res = lookup(&db, &query, 2).unwrap();
    assert_eq!(res[0], m('a', SCORE_SCALE));
    assert_eq!(res[1].hanzi, 'b');
    assert!(res[1].score < SCORE_SCALE);
}

#[test]
fn results_bounded_by_limit_and_positive() {
    for limit in 0..6 {
        let res = lookup(&scenario_db(), &character(&THREE), limit).unwrap();
        assert!(res.len() <= limit);
        assert!(res.iter().all(|x| x.score > 0));
    }
}

#[test]
fn limit_zero_gives_empty_list() {
    let res = lookup(&scenario_db(), &character(&THREE), 0).unwrap();
    assert!(res.is_empty());
}

#[test]
fn empty_database_gives_empty_list() {
    let res = lookup(&vec![], &character(&THREE), 10).unwrap();
    assert!(res.is_empty());
}

#[test]
fn far_stroke_count_is_pruned() {
    let mut far = reference('千', &THREE);
    far.stroke_count = 3 + STROKE_COUNT_TOLERANCE + 1;
    let near = reference('十', &[&[(20, 30), (230, 30)], &[(128, 10), (128, 245)]]);
    let res = lookup(&vec![far, near], &character(&THREE), 10).unwrap();
    assert!(res.iter().all(|x| x.hanzi != '千'));
    assert_eq!(res.len(), 1);
}

#[test]
fn lookup_is_deterministic() {
    let db = scenario_db();
    let q = character(&THREE);
    assert_eq!(lookup(&db, &q, 4), lookup(&db, &q, 4));
}

#[test]
fn no_strokes_is_rejected() {
    assert_eq!(lookup(&scenario_db(), &vec![], 5), Err(LookupError::NoStrokes));
}

#[test]
fn empty_stroke_is_rejected() {
    let q = vec![stroke(&[(1, 1), (9, 9)]), Stroke { points: vec![] }];
    assert_eq!(lookup(&scenario_db(), &q, 5), Err(LookupError::EmptyStroke));
}

#[test]
fn parse_sample_reads_coordinates() {
    let r = parse_sample("[[[1,2],[3,4,5]],[[250,0]]]").unwrap();
    assert_eq!(r.len(), 2);
    assert_eq!(r[0].points, vec![pt(1, 2), pt(3, 4)]);
    assert_eq!(r[1].points, vec![pt(250, 0)]);
}

#[test]
fn parse_sample_rejects_bad_input() {
    assert!(parse_sample("not json").is_none());
    assert!(parse_sample("[[[1]]]").is_none());
    assert!(parse_sample("[[[1,300]]]").is_none());
}

#[test]
fn strokes_from_coords_takes_first_two() {
    let r = strokes_from_coords(&vec![vec![vec![5, 6, 7]]]).unwrap();
    assert_eq!(r[0].points, vec![pt(5, 6)]);
    assert!(strokes_from_coords(&vec![vec![vec![5]]]).is_none());
}

#[test]
fn clone_stroke_copies_points() {
    let s = stroke(&[(1, 2), (3, 4)]);
    assert_eq!(clone_stroke(&s).points, s.points);
}

#[test]
fn incremental_replay_lists_prefixes() {
    let a = character(&[&[(1, 1)], &[(2, 2)], &[(3, 3)]]);
    let b = character(&[&[(4, 4)]]);
    let r = incremental_replay(&vec![a, b]);
    assert_eq!(r.len(), 2);
    assert_eq!(r[0].len(), 1);
    assert_eq!(r[0][0].points, vec![pt(1, 1)]);
    assert_eq!(r[1].len(), 2);
    assert_eq!(r[1][1].points, vec![pt(2, 2)]);
}
