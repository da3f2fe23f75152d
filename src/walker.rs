//! The random walk over ranked followers that produces the output tokens.
//!
//! Draws are 32-bit integers read as fractions of 2^32; a threshold is such a
//! fraction too, held in a `u64` so that it can reach one.

use vstd::prelude::*;
use crate::normalize::{normal_token, normalize_token};
use crate::ranking::RankedNeighbors;

verus! {

/// Relies on `rand::random`: a value from the thread-local generator, of which
/// nothing is promised.
pub assume_specification<T>[ rand::random::<T> ]() -> (r: T)
    where
        rand::distributions::Standard: rand::distributions::Distribution<T>,
;

/// The fraction one, the largest threshold.
pub const THRESHOLD_ONE: u64 = 4294967296;

/// The threshold used when the one asked for lies beyond one: three quarters.
pub const DEFAULT_THRESHOLD: u64 = 3221225472;

/// How many draws below the threshold are thrown away before a draw is taken
/// whatever its value.
pub const MAX_DRAW_RETRIES: u32 = 30;

/// How many picks are turned down, whatever they are, before one is taken.
pub const MIN_PICK_ATTEMPTS: u32 = 30;

/// How many picks one step makes at most; the last one, if turned down, takes
/// the most frequent follower other than the current token, or stops the walk
/// where there is none.
pub const MAX_PICK_ATTEMPTS: u32 = 60;

/// The threshold in force: the one asked for if it is at most one, else the
/// default.
pub open spec fn threshold_in_force(t: u64) -> u64 {
    if t <= THRESHOLD_ONE { t } else { DEFAULT_THRESHOLD }
}

/// Clamps a requested threshold.
pub fn effective_threshold(t: u64) -> (r: u64)
    ensures
        r == threshold_in_force(t),
{
    if t <= THRESHOLD_ONE { t } else { DEFAULT_THRESHOLD }
}

/// Whether a draw ends the redrawing: it reaches the threshold, or the retries
/// are spent.
pub fn draw_accepted(x: u32, threshold: u64, retries: u32) -> (r: bool)
    ensures
        r == (x as u64 >= threshold || retries >= MAX_DRAW_RETRIES),
{
    x as u64 >= threshold || retries >= MAX_DRAW_RETRIES
}

/// The position that a draw picks in a list of `len` items.
pub open spec fn index_for(x: u32, len: nat) -> int {
    (x as int * len as int) / (THRESHOLD_ONE as int)
}

/// Maps a draw, read as a fraction of 2^32, to a position in a list of `len`
/// items: the fraction times `len`, rounded down.
pub fn candidate_index(x: u32, len: usize) -> (r: usize)
    requires
        len > 0,
    ensures
        r as int == index_for(x, len as nat),
        r < len,
{
    proof {
        assert((x as int) * (len as int) <= u128::MAX) by (nonlinear_arith)
            requires
                x < 4294967296,
                len < 18446744073709551616int,
        ;
    }
    let p: u128 = (x as u128) * (len as u128);
    let q: u128 = p / 4294967296u128;
    proof {
        assert(q < len) by (nonlinear_arith)
            requires
                p == x as int * len as int,
                q == p / 4294967296,
                x < 4294967296,
                len > 0,
        ;
    }
    q as usize
}

/// Which of `n` tokens seeds a walk for a threshold: `None` where the threshold
/// is under a tenth or there is no token, else the `k`-th, where `k` is ten
/// times the threshold rounded down, or the last if there are fewer.
pub open spec fn seed_index(threshold: u64, n: nat) -> Option<int> {
    let rounds = (threshold as int * 10) / (THRESHOLD_ONE as int);
    if rounds == 0 || n == 0 {
        None
    } else if rounds <= n {
        Some(rounds - 1)
    } else {
        Some(n - 1)
    }
}

/// Computes `seed_index`.
pub fn seed_position(threshold: u64, n: usize) -> (r: Option<usize>)
    requires
        threshold <= THRESHOLD_ONE,
    ensures
        r matches Some(i) ==> i < n,
        match (r, seed_index(threshold, n as nat)) {
            (Some(i), Some(j)) => i as int == j,
            (None, None) => true,
            _ => false,
        },
{
    let rounds: u64 = (threshold * 10) / THRESHOLD_ONE;
    if rounds == 0 || n == 0 {
        None
    } else if rounds <= n as u64 {
        Some((rounds - 1) as usize)
    } else {
        Some(n - 1)
    }
}

/// The last position of `s` whose item is not `t`.
pub open spec fn last_other(s: Seq<Seq<char>>, t: Seq<char>) -> Option<int>
    decreases s.len(),
{
    if s.len() == 0 {
        None
    } else if s.last() != t {
        Some(s.len() - 1)
    } else {
        last_other(s.drop_last(), t)
    }
}

/// A draw picks a position inside a non-empty list.
pub proof fn lemma_index_for(x: u32, len: nat)
    requires
        len > 0,
    ensures
        0 <= index_for(x, len) < len,
{
    assert(0 <= (x as int * len as int) / 4294967296 < len) by (nonlinear_arith)
        requires
            0 <= x < 4294967296,
            len > 0,
    ;
}

/// `last_other` names a position whose item differs from `t`, and names none
/// only where every item is `t`.
pub proof fn lemma_last_other(s: Seq<Seq<char>>, t: Seq<char>)
    ensures
        last_other(s, t) matches Some(j) ==> 0 <= j < s.len() && s[j] != t,
        last_other(s, t) is None <==> forall|k: int| 0 <= k < s.len() ==> s[k] == t,
    decreases s.len(),
{
    if s.len() > 0 && s.last() == t {
        lemma_last_other(s.drop_last(), t);
        assert forall|k: int| 0 <= k < s.len() - 1 implies s.drop_last()[k] == s[k] by {}
    }
}

/// The outcome of one pick.
pub enum Pick {
    /// The current token has no followers to move to.
    Stop,
    /// The pick is turned down; draw again.
    Again,
    /// Move to this follower.
    Take(String),
}

/// The outcome of one pick, over the model: `x` is an accepted draw, `attempt`
/// the number of picks already turned down in this step.
pub enum PickSpec {
    Stop,
    Again,
    Take(Seq<char>),
}

/// What one pick decides for the walk at `current` over `ranked`.
pub open spec fn pick_outcome(ranked: RankedNeighbors, current: Seq<char>, x: u32, attempt: u32) -> PickSpec {
    if !ranked.tokens().contains(current) {
        PickSpec::Stop
    } else {
        let cands = ranked.neighbors(ranked.tokens().index_of(current));
        let c = cands[index_for(x, cands.len())];
        if c != current && attempt >= MIN_PICK_ATTEMPTS {
            PickSpec::Take(c)
        } else if attempt + 1 < MAX_PICK_ATTEMPTS {
            PickSpec::Again
        } else {
            match last_other(cands, current) {
                Some(j) => PickSpec::Take(cands[j]),
                None => PickSpec::Stop,
            }
        }
    }
}

/// The followers of `current` in `ranked`, if it has an entry.
pub open spec fn candidates_of(ranked: RankedNeighbors, current: Seq<char>) -> Option<Seq<Seq<char>>> {
    if ranked.tokens().contains(current) {
        Some(ranked.neighbors(ranked.tokens().index_of(current)))
    } else {
        None
    }
}

/// Whether `to` is among the ranked followers of `from`.
pub open spec fn follows(ranked: RankedNeighbors, from: Seq<char>, to: Seq<char>) -> bool {
    &&& candidates_of(ranked, from) is Some
    &&& candidates_of(ranked, from)->Some_0.contains(to)
}

/// Whether a walk at `current` can move on: `current` has an entry with a
/// follower other than itself.
pub open spec fn can_move(ranked: RankedNeighbors, current: Seq<char>) -> bool {
    match candidates_of(ranked, current) {
        Some(cands) => exists|k: int| 0 <= k < cands.len() && cands[k] != current,
        None => false,
    }
}

/// A walk that stands on a token without an entry cannot move, so it yields
/// nothing.
pub proof fn lemma_absent_token_stops(ranked: RankedNeighbors, t: Seq<char>)
    requires
        !ranked.tokens().contains(t),
    ensures
        !can_move(ranked, t),
{
}

/// A walk over ranked followers: the token it stands on and the threshold that
/// biases its draws toward the most frequent followers.
pub struct Usage<'a> {
    threshold: u64,
    current: String,
    usage: &'a RankedNeighbors,
}

impl<'a> Usage<'a> {
    pub closed spec fn wf(&self) -> bool {
        &&& self.usage.wf()
        &&& self.threshold <= THRESHOLD_ONE
    }

    /// The token the walk stands on.
    pub closed spec fn at(&self) -> Seq<char> {
        self.current@
    }

    /// The ranked followers the walk reads.
    pub closed spec fn ranked(&self) -> RankedNeighbors {
        *self.usage
    }

    /// The threshold of its draws.
    pub closed spec fn bias(&self) -> u64 {
        self.threshold
    }

    /// Starts a walk over `usage` at the token that `seed_index` names for
    /// the threshold, or at the folded "A" where it names none. A threshold
    /// beyond one gives way to the default.
    pub fn new(threshold: u64, usage: &'a RankedNeighbors) -> (r: Self)
        requires
            usage.wf(),
        ensures
            r.wf(),
            r.ranked() == *usage,
            r.bias() == threshold_in_force(threshold),
            r.at() == match seed_index(threshold_in_force(threshold), usage.tokens().len()) {
                Some(i) => normal_token(usage.tokens()[i]),
                None => normal_token(seq!['A']),
            },
    {
        let threshold = effective_threshold(threshold);
        let current = match seed_position(threshold, usage.len()) {
            Some(i) => {
                let t = usage.token_at(i);
                normalize_token(t.as_str())
            },
            None => {
                let a = "A";
                proof {
                    reveal_strlit("A");
                    assert(a@ =~= seq!['A']);
                }
                normalize_token(a)
            },
        };
        Usage { threshold, current, usage }
    }

    /// Starts a walk over `usage` at the folded `seed`. A threshold beyond one
    /// gives way to the default.
    pub fn seeded(threshold: u64, usage: &'a RankedNeighbors, seed: &str) -> (r: Self)
        requires
            usage.wf(),
        ensures
            r.wf(),
            r.ranked() == *usage,
            r.bias() == threshold_in_force(threshold),
            r.at() == normal_token(seed@),
    {
        let threshold = effective_threshold(threshold);
        Usage { threshold, current: normalize_token(seed), usage }
    }

    /// The token the walk stands on.
    pub fn current(&self) -> (r: &String)
        ensures
            r@ == self.at(),
    {
        &self.current
    }

    /// Decides one pick from an accepted draw `x`, after `attempt` picks of
    /// this step were turned down.
    pub fn pick(&self, x: u32, attempt: u32) -> (r: Pick)
        requires
            self.wf(),
        ensures
            match (r, pick_outcome(self.ranked(), self.at(), x, attempt)) {
                (Pick::Stop, PickSpec::Stop) => true,
                (Pick::Again, PickSpec::Again) => true,
                (Pick::Take(t), PickSpec::Take(u)) => t@ == u,
                _ => false,
            },
    {
        let pos = match self.usage.find(&self.current) {
            Some(p) => p,
            None => return Pick::Stop,
        };
        proof {
            self.usage.lemma_index_of(pos as int);
        }
        let cands = self.usage.neighbors_at(pos);
        let idx = candidate_index(x, cands.len());
        let c = &cands[idx];
        if *c != self.current && attempt >= MIN_PICK_ATTEMPTS {
            return Pick::Take(c.clone());
        }
        if attempt < MAX_PICK_ATTEMPTS - 1 {
            return Pick::Again;
        }
        let ghost cv = cands@.map_values(|w: String| w@);
        let mut k: usize = cands.len();
        proof {
            assert(cv.take(k as int) =~= cv);
            assert(cv[idx as int] == c@);
        }
        while k > 0
            invariant
                k <= cands.len(),
                cv == cands@.map_values(|w: String| w@),
                last_other(cv, self.current@) == last_other(cv.take(k as int), self.current@),
                pick_outcome(self.ranked(), self.at(), x, attempt) == match last_other(cv, self.current@) {
                    Some(j) => PickSpec::Take(cv[j]),
                    None => PickSpec::Stop,
                },
            decreases k,
        {
            proof {
                assert(cv.take(k as int).drop_last() =~= cv.take(k - 1));
                assert(cv.take(k as int).last() == cands@[k - 1]@);
            }
            if cands[k - 1] != self.current {
                proof {
                    assert(last_other(cv, self.current@) == Some(k - 1));
                    assert(cv[k - 1] == cands@[k - 1]@);
                }
                return Pick::Take(cands[k - 1].clone());
            }
            k = k - 1;
        }
        proof {
            assert(cv.take(0) =~= Seq::<Seq<char>>::empty());
        }
        Pick::Stop
    }

    /// Moves the walk one step: draws until a pick is taken, and returns the
    /// follower moved to. Returns `None`, and stays put, exactly where the
    /// current token has no follower other than itself; every follower
    /// returned differs from the token the walk stood on.
    pub fn next(&mut self) -> (r: Option<String>)
        requires
            old(self).wf(),
        ensures
            final(self).wf(),
            final(self).ranked() == old(self).ranked(),
            final(self).bias() == old(self).bias(),
            r is None <==> !can_move(old(self).ranked(), old(self).at()),
            r is None ==> final(self).at() == old(self).at(),
            r matches Some(t) ==> {
                &&& t@ != old(self).at()
                &&& final(self).at() == t@
                &&& follows(old(self).ranked(), old(self).at(), t@)
            },
    {
        let mut attempt: u32 = 0;
        loop
            invariant
                self.wf(),
                self.ranked() == old(self).ranked(),
                self.bias() == old(self).bias(),
                self.at() == old(self).at(),
                attempt < MAX_PICK_ATTEMPTS,
            decreases MAX_PICK_ATTEMPTS - attempt,
        {
            let mut retries: u32 = 0;
            let mut x: u32 = rand::random::<u32>();
            while !draw_accepted(x, self.threshold, retries)
                invariant
                    retries <= MAX_DRAW_RETRIES,
                decreases MAX_DRAW_RETRIES - retries,
            {
                retries = retries + 1;
                x = rand::random::<u32>();
            }
            let p = self.pick(x, attempt);
            proof {
                self.lemma_pick(x, attempt);
            }
            match p {
                Pick::Stop => return None,
                Pick::Again => {
                    attempt = attempt + 1;
                },
                Pick::Take(t) => {
                    self.current = t.clone();
                    return Some(t);
                },
            }
        }
    }

    /// What a pick's outcome says of the walk: it stops only where the walk
    /// cannot move, draws again only before the last attempt, and takes only
    /// another token among the current one's followers.
    proof fn lemma_pick(&self, x: u32, attempt: u32)
        requires
            self.wf(),
        ensures
            pick_outcome(self.ranked(), self.at(), x, attempt) is Stop ==> !can_move(self.ranked(), self.at()),
            pick_outcome(self.ranked(), self.at(), x, attempt) is Again ==> attempt + 1 < MAX_PICK_ATTEMPTS,
            pick_outcome(self.ranked(), self.at(), x, attempt) matches PickSpec::Take(u) ==> {
                &&& u != self.at()
                &&& candidates_of(self.ranked(), self.at()) matches Some(cands)
                &&& cands.contains(u)
            },
    {
        let ranked = self.ranked();
        let cur = self.at();
        if ranked.tokens().contains(cur) {
            let i = ranked.tokens().index_of(cur);
            ranked.lemma_index_of(i);
            let cands = ranked.neighbors(i);
            lemma_last_other(cands, cur);
            let out = pick_outcome(ranked, cur, x, attempt);
            lemma_index_for(x, cands.len());
        }
    }

    /// Takes up to `count` steps, stopping early where the walk cannot move.
    pub fn take_words(&mut self, count: usize) -> (r: Vec<String>)
        requires
            old(self).wf(),
        ensures
            final(self).wf(),
            final(self).ranked() == old(self).ranked(),
            r.len() <= count,
            r.len() < count ==> !can_move(final(self).ranked(), final(self).at()),
            r.len() > 0 ==> r@[r.len() - 1]@ == final(self).at(),
            r.len() == 0 ==> final(self).at() == old(self).at(),
            forall|k: int| 0 <= k < r.len() ==> (#[trigger] r@[k])@ != (if k == 0 { old(self).at() } else { r@[k - 1]@ }),
            forall|k: int| 0 <= k < r.len() ==> follows(
                old(self).ranked(),
                if k == 0 { old(self).at() } else { r@[k - 1]@ },
                (#[trigger] r@[k])@,
            ),
    {
        let mut out: Vec<String> = Vec::new();
        while out.len() < count
            invariant
                self.wf(),
                self.ranked() == old(self).ranked(),
                out.len() <= count,
                out.len() > 0 ==> out@[out.len() - 1]@ == self.at(),
                out.len() == 0 ==> self.at() == old(self).at(),
                forall|k: int| 0 <= k < out.len() ==> (#[trigger] out@[k])@ != (if k == 0 { old(self).at() } else { out@[k - 1]@ }),
                forall|k: int| 0 <= k < out.len() ==> follows(
                    old(self).ranked(),
                    if k == 0 { old(self).at() } else { out@[k - 1]@ },
                    (#[trigger] out@[k])@,
                ),
            decreases count - out.len(),
        {
            match self.next() {
                Some(t) => out.push(t),
                None => return out,
            }
        }
        out
    }
}

} // verus!
