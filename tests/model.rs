use gibberish::normalize::{normalize, normalize_token};
use gibberish::ranking::{determine_highest_usage, RankedNeighbors};
use gibberish::stats::{split_words, Stat, Stats};

fn table(lines: &[&str]) -> Stats {
    let mut stats = Stats::new();
    for line in lines {
        stats.add_line(line);
    }
    stats
}

fn counts_of(stats: &Stats, token: &str) -> Vec<(String, u32)> {
    for i in 0..stats.len() {
        let (t, stat) = stats.entry_at(i);
        if t == token {
            let (words, counts) = stat.parts();
            let mut pairs: Vec<(String, u32)> = words.into_iter().zip(counts).collect();
            pairs.sort();
            return pairs;
        }
    }
    Vec::new()
}

fn ranked_of(ranked: &RankedNeighbors, token: &str) -> Option<Vec<String>> {
    let i = ranked.find(&token.to_string())?;
    Some(ranked.neighbors_at(i).clone())
}

fn pairs(items: &[(&str, u32)]) -> Vec<(String, u32)> {
    items.iter().map(|(w, c)| (w.to_string(), *c)).collect()
}

#[test]
fn normalize_folds_case() {
    assert_eq!(normalize('A'), 'a');
    assert_eq!(normalize('z'), 'z');
}

#[test]
fn normalize_folds_full_width_and_accents() {
    assert_eq!(normalize('\u{FF21}'), 'a');
    assert_eq!(normalize('é'), 'e');
    assert_eq!(normalize('É'), 'e');
    assert_eq!(normalize('\u{FB01}'), 'f');
}

#[test]
fn normalize_is_idempotent() {
    for c in ['A', 'é', '\u{FF21}', '\u{FB01}', 'ß', '1', ' ', 'Ω', '\u{212B}', '\u{AC00}'] {
        let once = normalize(c);
        assert_eq!(normalize(once), once);
    }
}

#[test]
fn normalize_token_folds_each_char() {
    assert_eq!(normalize_token("ÉCOLE"), "ecole");
    assert_eq!(normalize_token(""), "");
    assert_eq!(normalize_token(&normalize_token("ÉCOLE")), "ecole");
}

#[test]
fn split_words_on_whitespace() {
    assert_eq!(split_words("  a b\tc  "), vec!["a", "b", "c"]);
    assert_eq!(split_words("Hello  WORLD"), vec!["hello", "world"]);
    assert!(split_words("").is_empty());
    assert!(split_words(" \t ").is_empty());
}

#[test]
fn stat_counts_followers() {
    let mut stat = Stat::new();
    assert_eq!(stat.len(), 0);
    stat.record("b".to_string());
    stat.record("c".to_string());
    stat.record("b".to_string());
    let (words, counts) = stat.parts();
    assert_eq!(words, vec!["b", "c"]);
    assert_eq!(counts, vec![2, 1]);
    assert_eq!(stat.len(), 2);
}

#[test]
fn update_creates_and_increments() {
    let mut stats = Stats::new();
    assert_eq!(stats.len(), 0);
    stats.update("a".to_string(), "b".to_string());
    stats.update("a".to_string(), "b".to_string());
    stats.update("a".to_string(), "c".to_string());
    stats.update("b".to_string(), "a".to_string());
    assert_eq!(stats.len(), 2);
    assert_eq!(counts_of(&stats, "a"), pairs(&[("b", 2), ("c", 1)]));
    assert_eq!(counts_of(&stats, "b"), pairs(&[("a", 1)]));
}

#[test]
fn update_order_does_not_matter() {
    let list = [("a", "b"), ("b", "a"), ("a", "c"), ("a", "b"), ("c", "c")];
    let mut forward = Stats::new();
    for (w, n) in list.iter() {
        forward.update(w.to_string(), n.to_string());
    }
    let mut backward = Stats::new();
    for (w, n) in list.iter().rev() {
        backward.update(w.to_string(), n.to_string());
    }
    for token in ["a", "b", "c"] {
        assert_eq!(counts_of(&forward, token), counts_of(&backward, token));
    }
    assert_eq!(forward.len(), backward.len());
}

#[test]
fn add_line_pairs_cyclically() {
    let stats = table(&["a b a c"]);
    assert_eq!(counts_of(&stats, "a"), pairs(&[("b", 1), ("c", 1)]));
    assert_eq!(counts_of(&stats, "b"), pairs(&[("a", 1)]));
    assert_eq!(counts_of(&stats, "c"), pairs(&[("a", 1)]));
}

#[test]
fn add_line_never_pairs_across_lines() {
    let stats = table(&["a b", "c d"]);
    assert_eq!(counts_of(&stats, "a"), pairs(&[("b", 1)]));
    assert_eq!(counts_of(&stats, "b"), pairs(&[("a", 1)]));
    assert_eq!(counts_of(&stats, "c"), pairs(&[("d", 1)]));
    assert_eq!(counts_of(&stats, "d"), pairs(&[("c", 1)]));
}

#[test]
fn add_line_single_word_pairs_with_itself() {
    let stats = table(&["x", ""]);
    assert_eq!(stats.len(), 1);
    assert_eq!(counts_of(&stats, "x"), pairs(&[("x", 1)]));
}

#[test]
fn add_line_folds_words() {
    let stats = table(&["Foo FOO"]);
    assert_eq!(counts_of(&stats, "foo"), pairs(&[("foo", 2)]));
}

#[test]
fn ranking_is_ascending_by_count() {
    let stats = table(&["a b a b a c"]);
    let ranked = determine_highest_usage(&stats);
    assert_eq!(ranked_of(&ranked, "a").unwrap(), vec!["c", "b"]);
    assert_eq!(ranked_of(&ranked, "b").unwrap(), vec!["a"]);
    assert_eq!(ranked_of(&ranked, "c").unwrap(), vec!["a"]);
}

#[test]
fn ranking_lists_each_neighbor_once() {
    let stats = table(&["a b a b a c a d a b"]);
    let ranked = determine_highest_usage(&stats);
    let row = ranked_of(&ranked, "a").unwrap();
    assert_eq!(row, vec!["c", "d", "b"]);
    let counts = counts_of(&stats, "a");
    let count = |w: &String| counts.iter().find(|(x, _)| x == w).unwrap().1;
    for k in 1..row.len() {
        assert!(count(&row[k - 1]) <= count(&row[k]));
    }
}

#[test]
fn ranking_of_tie_is_one_of_the_orders() {
    let stats = table(&["a b a c"]);
    let ranked = determine_highest_usage(&stats);
    let row = ranked_of(&ranked, "a").unwrap();
    assert!(row == vec!["b", "c"] || row == vec!["c", "b"]);
    assert_eq!(ranked.len(), 3);
}

#[test]
fn ranking_keeps_table_tokens() {
    let stats = table(&["a b a c"]);
    let ranked = determine_highest_usage(&stats);
    for i in 0..stats.len() {
        let (t, _) = stats.entry_at(i);
        assert_eq!(ranked.token_at(i), &t);
    }
    assert!(ranked.find(&"zzz".to_string()).is_none());
}

#[test]
fn dump_matches_ranking() {
    let stats = table(&["a b a b a c", "d e"]);
    let ranked = determine_highest_usage(&stats);
    let dump = ranked.entries();
    assert_eq!(dump.len(), ranked.len());
    for (i, (token, row)) in dump.iter().enumerate() {
        assert_eq!(token, ranked.token_at(i));
        assert_eq!(row, ranked.neighbors_at(i));
    }
    assert_eq!(dump[0], ("a".to_string(), vec!["c".to_string(), "b".to_string()]));
}
