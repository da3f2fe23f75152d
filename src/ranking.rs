//! The ranked view of a transition table: for every token, its followers from
//! the least to the most often seen.

use vstd::prelude::*;
use vstd::set_lib::{lemma_int_range, set_int_range};
use permutation::Permutation;
use crate::stats::{Stat, Stats};

verus! {

#[verifier::external_type_specification]
#[verifier::external_body]
pub struct ExPermutation(Permutation);

/// For each position of what `Permutation::apply_slice` returns, the position
/// of the input element that it holds there.
pub uninterp spec fn order_of(p: Permutation) -> Seq<int>;

/// `order` lists each position of `keys` once, from the smallest key to the
/// largest, with equal keys in the order of their positions.
pub open spec fn is_stable_order(keys: Seq<u32>, order: Seq<int>) -> bool {
    &&& order.len() == keys.len()
    &&& forall|k: int| 0 <= k < order.len() ==> 0 <= #[trigger] order[k] < keys.len()
    &&& forall|a: int, b: int| 0 <= a < b < order.len() ==> {
        ||| keys[order[a]] < keys[order[b]]
        ||| (keys[order[a]] == keys[order[b]] && order[a] < order[b])
    }
}

/// Relies on `permutation::sort`: it starts from the identity and sorts the
/// positions by their key with the stable `slice::sort_by_key`, so that
/// `apply_slice` reads the elements in that order.
#[verifier::external_body]
fn sort_order(keys: &Vec<u32>) -> (p: Permutation)
    ensures
        is_stable_order(keys@, order_of(p)),
{
    permutation::sort(keys)
}

/// Relies on `Permutation::apply_slice`: a clone of each element, placed as
/// the permutation orders; it panics unless the lengths agree.
#[verifier::external_body]
fn apply_order(p: &Permutation, items: &Vec<String>) -> (r: Vec<String>)
    requires
        order_of(*p).len() == items.len(),
        forall|k: int| 0 <= k < items.len() ==> 0 <= #[trigger] order_of(*p)[k] < items.len(),
    ensures
        r.len() == items.len(),
        forall|k: int| 0 <= k < r.len() ==> (#[trigger] r@[k])@ == items@[order_of(*p)[k]]@,
{
    p.apply_slice(items)
}

/// `ranked` holds the followers `words` ordered by their `counts`, from the
/// smallest count to the largest, ties in the order of `words`.
pub open spec fn ranked_by_count(words: Seq<Seq<char>>, counts: Seq<u32>, ranked: Seq<Seq<char>>) -> bool {
    exists|order: Seq<int>| {
        &&& is_stable_order(counts, order)
        &&& ranked.len() == order.len()
        &&& forall|k: int| 0 <= k < ranked.len() ==> #[trigger] ranked[k] == words[order[k]]
    }
}

/// A stable order lists every position exactly once.
proof fn lemma_order_covers(keys: Seq<u32>, order: Seq<int>, m: int)
    requires
        is_stable_order(keys, order),
        0 <= m < keys.len(),
    ensures
        order.contains(m),
{
    let n = keys.len() as int;
    assert(order.no_duplicates()) by {
        assert forall|a: int, b: int| 0 <= a < order.len() && 0 <= b < order.len() && a != b implies order[a] != order[b] by {
            if a > b {
                assert(keys[order[b]] < keys[order[a]] || order[b] < order[a]);
            }
        }
    }
    if !order.contains(m) {
        order.unique_seq_to_set();
        lemma_int_range(0, n);
        assert(order.to_set().subset_of(set_int_range(0, n))) by {
            assert forall|v: int| order.to_set().contains(v) implies set_int_range(0, n).contains(v) by {
                let k = choose|k: int| 0 <= k < order.len() && order[k] == v;
                assert(0 <= order[k] < n);
            }
        }
        order.to_set().lemma_subset_not_in_lt(set_int_range(0, n), m);
    }
}

/// The ranked followers of a table entry hold each follower exactly once, and
/// their counts never fall along the list.
pub proof fn lemma_ranked_order(stat: Stat, ranked: Seq<Seq<char>>)
    requires
        stat.wf(),
        ranked_by_count(stat.followers(), stat.tallies(), ranked),
    ensures
        ranked.no_duplicates(),
        ranked.to_set() == stat@.dom(),
        forall|a: int, b: int| 0 <= a < b < ranked.len() ==> stat@[ranked[a]] <= stat@[ranked[b]],
{
    stat.lemma_layout();
    let words = stat.followers();
    let counts = stat.tallies();
    let order = choose|order: Seq<int>| {
        &&& is_stable_order(counts, order)
        &&& ranked.len() == order.len()
        &&& forall|k: int| 0 <= k < ranked.len() ==> #[trigger] ranked[k] == words[order[k]]
    };
    assert forall|a: int, b: int| 0 <= a < b < ranked.len() implies ranked[a] != ranked[b] && stat@[ranked[a]] <= stat@[ranked[b]] by {
        assert(counts[order[a]] < counts[order[b]] || order[a] < order[b]);
        assert(0 <= order[a] < words.len());
        assert(0 <= order[b] < words.len());
        assert(stat@[words[order[a]]] == counts[order[a]]);
        assert(stat@[words[order[b]]] == counts[order[b]]);
    }
    assert(ranked.to_set() =~= stat@.dom()) by {
        assert forall|w: Seq<char>| ranked.to_set().contains(w) implies stat@.dom().contains(w) by {
            let k = choose|k: int| 0 <= k < ranked.len() && ranked[k] == w;
            assert(0 <= order[k] < words.len());
            assert(words.to_set().contains(words[order[k]]));
        }
        assert forall|w: Seq<char>| stat@.dom().contains(w) implies ranked.to_set().contains(w) by {
            assert(words.contains(w));
            let m = choose|m: int| 0 <= m < words.len() && words[m] == w;
            lemma_order_covers(counts, order, m);
            let k = choose|k: int| 0 <= k < order.len() && order[k] == m;
            assert(ranked[k] == w);
        }
    }
}

/// For every token of a table, its followers from the least to the most often
/// seen.
pub struct RankedNeighbors {
    words: Vec<String>,
    ranked: Vec<Vec<String>>,
}

impl RankedNeighbors {
    /// The tokens with an entry, in the order of the table they came from.
    pub closed spec fn tokens(&self) -> Seq<Seq<char>> {
        self.words@.map_values(|w: String| w@)
    }

    /// The ranked followers of the token at position `i` of `tokens`.
    pub closed spec fn neighbors(&self, i: int) -> Seq<Seq<char>> {
        self.ranked@[i]@.map_values(|w: String| w@)
    }

    pub closed spec fn wf(&self) -> bool {
        &&& self.words.len() == self.ranked.len()
        &&& self.tokens().no_duplicates()
        &&& forall|i: int| 0 <= i < self.ranked.len() ==> (#[trigger] self.ranked@[i]).len() > 0
    }

    /// A token's position is the one that `index_of` names, and its followers
    /// are never empty.
    pub proof fn lemma_index_of(&self, i: int)
        requires
            self.wf(),
            0 <= i < self.tokens().len(),
        ensures
            self.tokens().index_of(self.tokens()[i]) == i,
            self.neighbors(i).len() > 0,
    {
        let t = self.tokens();
        assert(t.contains(t[i]));
        let j = t.index_of(t[i]);
        assert(0 <= j < t.len() && t[j] == t[i]);
    }

    /// The number of tokens with an entry.
    pub fn len(&self) -> (r: usize)
        ensures
            r == self.tokens().len(),
    {
        self.words.len()
    }

    /// The token at position `i`.
    pub fn token_at(&self, i: usize) -> (r: &String)
        requires
            i < self.tokens().len(),
        ensures
            r@ == self.tokens()[i as int],
    {
        &self.words[i]
    }

    /// The ranked followers of the token at position `i`; never empty.
    pub fn neighbors_at(&self, i: usize) -> (r: &Vec<String>)
        requires
            self.wf(),
            i < self.tokens().len(),
        ensures
            r@.map_values(|w: String| w@) == self.neighbors(i as int),
            r.len() > 0,
    {
        &self.ranked[i]
    }

    /// Every token with its ranked followers, in the order of `tokens`.
    pub fn entries(&self) -> (r: Vec<(String, Vec<String>)>)
        requires
            self.wf(),
        ensures
            r.len() == self.tokens().len(),
            forall|i: int| 0 <= i < r.len() ==> {
                &&& (#[trigger] r@[i]).0@ == self.tokens()[i]
                &&& r@[i].1@.map_values(|w: String| w@) == self.neighbors(i)
            },
    {
        let mut r: Vec<(String, Vec<String>)> = Vec::new();
        for i in 0..self.words.len()
            invariant
                self.wf(),
                r.len() == i,
                forall|j: int| 0 <= j < i ==> {
                    &&& (#[trigger] r@[j]).0@ == self.tokens()[j]
                    &&& r@[j].1@.map_values(|w: String| w@) == self.neighbors(j)
                },
        {
            let row = &self.ranked[i];
            let mut copy: Vec<String> = Vec::new();
            for k in 0..row.len()
                invariant
                    copy.len() == k,
                    forall|m: int| 0 <= m < k ==> (#[trigger] copy@[m])@ == row@[m]@,
            {
                copy.push(row[k].clone());
            }
            proof {
                assert(copy@.map_values(|w: String| w@) =~= row@.map_values(|w: String| w@));
            }
            r.push((self.words[i].clone(), copy));
        }
        r
    }

    /// The position of `token` among the tokens, if it has an entry.
    pub fn find(&self, token: &String) -> (r: Option<usize>)
        requires
            self.wf(),
        ensures
            match r {
                Some(i) => i < self.tokens().len() && self.tokens()[i as int] == token@,
                None => !self.tokens().contains(token@),
            },
    {
        match crate::stats::position(&self.words, token) {
            Some(i) => {
                proof {
                    assert(self.tokens()[i as int] == self.words@[i as int]@);
                }
                Some(i)
            },
            None => {
                proof {
                    if self.tokens().contains(token@) {
                        let j = choose|j: int| 0 <= j < self.tokens().len() && self.tokens()[j] == token@;
                        assert(self.words@[j]@ == token@);
                    }
                }
                None
            },
        }
    }
}

/// The followers of one table entry, from the least to the most often seen.
fn rank_entry(stat: &Stat) -> (r: Vec<String>)
    requires
        stat.wf(),
    ensures
        ranked_by_count(stat.followers(), stat.tallies(), r@.map_values(|w: String| w@)),
{
    let (words, counts) = stat.parts();
    proof {
        stat.lemma_layout();
        assert(words@.len() == words@.map_values(|w: String| w@).len());
    }
    let order = sort_order(&counts);
    let r = apply_order(&order, &words);
    proof {
        let rv = r@.map_values(|w: String| w@);
        let o = order_of(order);
        assert forall|k: int| 0 <= k < rv.len() implies #[trigger] rv[k] == stat.followers()[o[k]] by {
            assert(rv[k] == r@[k]@);
            assert(stat.followers()[o[k]] == words@[o[k]]@);
        }
        assert(is_stable_order(stat.tallies(), o));
    }
    r
}

/// Builds the ranked view of a table: for each of its tokens, in the table's
/// order, the followers sorted by count from the smallest to the largest,
/// ties in the order in which they were first seen.
pub fn determine_highest_usage(stats: &Stats) -> (r: RankedNeighbors)
    requires
        stats.wf(),
    ensures
        r.wf(),
        r.tokens() == stats.tokens(),
        forall|i: int| 0 <= i < r.tokens().len() ==> ranked_by_count(
            (#[trigger] stats.entry(i)).followers(),
            stats.entry(i).tallies(),
            r.neighbors(i),
        ),
{
    let mut words: Vec<String> = Vec::new();
    let mut ranked: Vec<Vec<String>> = Vec::new();
    let n = stats.len();
    for i in 0..n
        invariant
            n == stats.tokens().len(),
            stats.wf(),
            words.len() == i,
            ranked.len() == i,
            forall|j: int| 0 <= j < i ==> (#[trigger] words@[j])@ == stats.tokens()[j],
            forall|j: int| 0 <= j < i ==> ranked_by_count(
                (#[trigger] stats.entry(j)).followers(),
                stats.entry(j).tallies(),
                ranked@[j]@.map_values(|w: String| w@),
            ),
            forall|j: int| 0 <= j < i ==> (#[trigger] ranked@[j]).len() > 0,
    {
        let (token, stat) = stats.entry_at(i);
        proof {
            stats.lemma_layout();
        }
        let row = rank_entry(stat);
        proof {
            let rv = row@.map_values(|w: String| w@);
            let order = choose|order: Seq<int>| {
                &&& is_stable_order(stat.tallies(), order)
                &&& rv.len() == order.len()
                &&& forall|k: int| 0 <= k < rv.len() ==> #[trigger] rv[k] == stat.followers()[order[k]]
            };
            stat.lemma_layout();
            assert(row.len() > 0);
        }
        words.push(token);
        ranked.push(row);
    }
    let r = RankedNeighbors { words, ranked };
    proof {
        stats.lemma_layout();
        assert(r.tokens() =~= stats.tokens());
    }
    r
}

} // verus!
