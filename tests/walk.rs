use gibberish::ranking::{determine_highest_usage, RankedNeighbors};
use gibberish::stats::Stats;
use gibberish::walker::{
    candidate_index, draw_accepted, effective_threshold, seed_position, Pick, Usage, DEFAULT_THRESHOLD,
    MAX_DRAW_RETRIES, MAX_PICK_ATTEMPTS, MIN_PICK_ATTEMPTS, THRESHOLD_ONE,
};

fn ranked(lines: &[&str]) -> RankedNeighbors {
    let mut stats = Stats::new();
    for line in lines {
        stats.add_line(line);
    }
    determine_highest_usage(&stats)
}

fn taken(p: Pick) -> Option<String> {
    match p {
        Pick::Take(t) => Some(t),
        _ => None,
    }
}

#[test]
fn threshold_beyond_one_falls_back() {
    assert_eq!(effective_threshold(0), 0);
    assert_eq!(effective_threshold(THRESHOLD_ONE), THRESHOLD_ONE);
    assert_eq!(effective_threshold(THRESHOLD_ONE + 1), DEFAULT_THRESHOLD);
    assert_eq!(DEFAULT_THRESHOLD, THRESHOLD_ONE / 4 * 3);
}

#[test]
fn draws_below_threshold_are_redrawn() {
    assert!(!draw_accepted(10, 11, 0));
    assert!(draw_accepted(11, 11, 0));
    assert!(draw_accepted(10, 11, MAX_DRAW_RETRIES));
    assert!(!draw_accepted(u32::MAX, THRESHOLD_ONE, 3));
}

#[test]
fn candidate_index_scales_the_draw() {
    assert_eq!(candidate_index(0, 5), 0);
    assert_eq!(candidate_index(1 << 31, 4), 2);
    assert_eq!(candidate_index(u32::MAX, 3), 2);
    assert_eq!(candidate_index(u32::MAX, 1), 0);
}

#[test]
fn seed_position_follows_threshold() {
    assert_eq!(seed_position(DEFAULT_THRESHOLD, 10), Some(6));
    assert_eq!(seed_position(DEFAULT_THRESHOLD, 3), Some(2));
    assert_eq!(seed_position(THRESHOLD_ONE, 20), Some(9));
    assert_eq!(seed_position(0, 5), None);
    assert_eq!(seed_position(DEFAULT_THRESHOLD, 0), None);
}

#[test]
fn new_walk_without_tokens_starts_at_folded_a() {
    let r = ranked(&[]);
    let mut w = Usage::new(DEFAULT_THRESHOLD, &r);
    assert_eq!(w.current(), "a");
    assert!(w.next().is_none());
}

#[test]
fn new_walk_starts_at_a_table_token() {
    let r = ranked(&["a b a c"]);
    let w = Usage::new(DEFAULT_THRESHOLD, &r);
    assert_eq!(w.current(), "c");
}

#[test]
fn pick_turns_down_early_attempts() {
    let r = ranked(&["a b a c"]);
    let w = Usage::seeded(0, &r, "A");
    assert!(matches!(w.pick(0, 0), Pick::Again));
    assert!(matches!(w.pick(u32::MAX, MIN_PICK_ATTEMPTS - 1), Pick::Again));
    assert_eq!(taken(w.pick(0, MIN_PICK_ATTEMPTS)), Some("b".to_string()));
    assert_eq!(taken(w.pick(u32::MAX, MIN_PICK_ATTEMPTS)), Some("c".to_string()));
}

#[test]
fn pick_refuses_self_and_falls_back_at_the_ceiling() {
    let r = ranked(&["x x y"]);
    let w = Usage::seeded(0, &r, "x");
    assert!(matches!(w.pick(0, MIN_PICK_ATTEMPTS), Pick::Again));
    assert_eq!(taken(w.pick(0, MAX_PICK_ATTEMPTS - 1)), Some("y".to_string()));
}

#[test]
fn pick_stops_when_only_self_follows() {
    let r = ranked(&["x"]);
    let w = Usage::seeded(0, &r, "x");
    assert!(matches!(w.pick(0, MIN_PICK_ATTEMPTS), Pick::Again));
    assert!(matches!(w.pick(0, MAX_PICK_ATTEMPTS - 1), Pick::Stop));
}

#[test]
fn pick_stops_on_absent_token() {
    let r = ranked(&["a b"]);
    let w = Usage::seeded(0, &r, "q");
    assert!(matches!(w.pick(0, MIN_PICK_ATTEMPTS), Pick::Stop));
}

#[test]
fn walk_never_repeats_current() {
    let r = ranked(&["x x y", "y y x"]);
    for t in [0, DEFAULT_THRESHOLD, THRESHOLD_ONE] {
        let mut w = Usage::seeded(t, &r, "x");
        let mut prev = w.current().clone();
        let out = w.take_words(50);
        assert_eq!(out.len(), 50);
        for tok in out {
            assert_ne!(tok, prev);
            prev = tok;
        }
    }
}

#[test]
fn walk_stops_on_self_loop_only() {
    let r = ranked(&["x"]);
    let mut w = Usage::seeded(0, &r, "x");
    assert!(w.next().is_none());
    assert_eq!(w.current(), "x");
    assert!(w.take_words(5).is_empty());
}

#[test]
fn walk_from_absent_seed_yields_nothing() {
    let r = ranked(&["a b a c"]);
    let mut w = Usage::seeded(DEFAULT_THRESHOLD, &r, "zzz");
    assert!(w.take_words(10).is_empty());
    assert!(w.next().is_none());
}

#[test]
fn end_to_end_one_token_from_a() {
    let r = ranked(&["a b a c"]);
    for _ in 0..20 {
        let mut w = Usage::seeded(0, &r, "a");
        let out = w.take_words(1);
        assert_eq!(out.len(), 1);
        assert!(out[0] == "b" || out[0] == "c");
    }
}

#[test]
fn zero_words_yields_nothing() {
    let r = ranked(&["a b a c"]);
    let mut w = Usage::seeded(DEFAULT_THRESHOLD, &r, "a");
    assert!(w.take_words(0).is_empty());
    assert_eq!(w.current(), "a");
}

#[test]
fn walk_follows_ranked_neighbors() {
    let r = ranked(&["a b c", "c a"]);
    let mut w = Usage::seeded(DEFAULT_THRESHOLD, &r, "a");
    let mut prev = "a".to_string();
    for tok in w.take_words(30) {
        let i = r.find(&prev).unwrap();
        assert!(r.neighbors_at(i).contains(&tok));
        prev = tok;
    }
}
