//! The transition table: for every token, how many times each other token
//! immediately followed it.

use vstd::prelude::*;
use crate::normalize::{normal_token, normalize_token, push_char};
use vstd::arithmetic::div_mod::{lemma_mod_self_0, lemma_small_mod};

verus! {

/// One more observation of a count, held at the largest `u32` once it is there.
pub open spec fn incremented(c: u32) -> u32 {
    if c < u32::MAX { (c + 1) as u32 } else { c }
}

/// The followers' counts after one more observation of `neigh`: a new follower
/// starts at one.
pub open spec fn bumped(m: Map<Seq<char>, u32>, neigh: Seq<char>) -> Map<Seq<char>, u32> {
    if m.contains_key(neigh) {
        m.insert(neigh, incremented(m[neigh]))
    } else {
        m.insert(neigh, 1)
    }
}

/// The table after one more observation of `neigh` right after `word`.
pub open spec fn recorded(
    t: Map<Seq<char>, Map<Seq<char>, u32>>,
    word: Seq<char>,
    neigh: Seq<char>,
) -> Map<Seq<char>, Map<Seq<char>, u32>> {
    let inner = if t.contains_key(word) { t[word] } else { Map::empty() };
    t.insert(word, bumped(inner, neigh))
}

/// The first position in `v` of a string equal to `w`.
pub(crate) fn position(v: &Vec<String>, w: &String) -> (r: Option<usize>)
    ensures
        match r {
            Some(i) => i < v.len() && v@[i as int]@ == w@ && forall|j: int| 0 <= j < i ==> v@[j]@ != w@,
            None => forall|j: int| 0 <= j < v.len() ==> v@[j]@ != w@,
        },
{
    let mut i: usize = 0;
    while i < v.len()
        invariant
            i <= v.len(),
            forall|j: int| 0 <= j < i ==> v@[j]@ != w@,
        decreases v.len() - i,
    {
        if v[i] == *w {
            return Some(i);
        }
        i = i + 1;
    }
    None
}

/// The counts of the tokens seen right after one token.
pub struct Stat {
    words: Vec<String>,
    counts: Vec<u32>,
    model: Ghost<Map<Seq<char>, u32>>,
}

impl View for Stat {
    type V = Map<Seq<char>, u32>;

    closed spec fn view(&self) -> Map<Seq<char>, u32> {
        self.model@
    }
}

impl Stat {
    /// The followers in the order in which they were first seen.
    pub closed spec fn followers(&self) -> Seq<Seq<char>> {
        self.words@.map_values(|w: String| w@)
    }

    /// The counts, position for position with `followers`.
    pub closed spec fn tallies(&self) -> Seq<u32> {
        self.counts@
    }

    pub closed spec fn wf(&self) -> bool {
        &&& self.words.len() == self.counts.len()
        &&& self.followers().no_duplicates()
        &&& self.model@.dom() == self.followers().to_set()
        &&& forall|i: int| 0 <= i < self.words.len() ==> self.model@[#[trigger] self.words@[i]@] == self.counts@[i]
    }

    /// What the fields expose of a well-formed value: each follower once, with
    /// its count beside it.
    pub proof fn lemma_layout(&self)
        requires
            self.wf(),
        ensures
            self.followers().len() == self.tallies().len(),
            self.followers().no_duplicates(),
            self@.dom() == self.followers().to_set(),
            forall|i: int| 0 <= i < self.followers().len() ==> self@[#[trigger] self.followers()[i]] == self.tallies()[i],
    {
        assert forall|i: int| 0 <= i < self.followers().len() implies self@[#[trigger] self.followers()[i]] == self.tallies()[i] by {
            assert(self.followers()[i] == self.words@[i]@);
        }
    }

    pub fn new() -> (r: Self)
        ensures
            r.wf(),
            r@ == Map::<Seq<char>, u32>::empty(),
    {
        let r = Stat { words: Vec::new(), counts: Vec::new(), model: Ghost(Map::empty()) };
        proof {
            assert(r.followers() =~= Seq::<Seq<char>>::empty());
            assert(r.model@.dom() =~= r.followers().to_set());
        }
        r
    }

    /// The number of distinct followers.
    pub fn len(&self) -> (r: usize)
        requires
            self.wf(),
        ensures
            r == self@.dom().len(),
            r == self.followers().len(),
    {
        proof {
            self.followers().unique_seq_to_set();
        }
        self.words.len()
    }

    /// The followers and their counts, position for position.
    pub fn parts(&self) -> (r: (Vec<String>, Vec<u32>))
        ensures
            r.0@.map_values(|w: String| w@) == self.followers(),
            r.1@ == self.tallies(),
    {
        let mut words: Vec<String> = Vec::new();
        for i in 0..self.words.len()
            invariant
                words.len() == i,
                forall|j: int| 0 <= j < i ==> (#[trigger] words@[j])@ == self.words@[j]@,
        {
            words.push(self.words[i].clone());
        }
        proof {
            assert(words@.map_values(|w: String| w@) =~= self.followers());
        }
        (words, self.counts.clone())
    }

    /// Counts one more observation of `neigh`.
    pub fn record(&mut self, neigh: String)
        requires
            old(self).wf(),
        ensures
            final(self).wf(),
            final(self)@ == bumped(old(self)@, neigh@),
    {
        let ghost old_keys = self.followers();
        match position(&self.words, &neigh) {
            Some(i) => {
                let c = self.counts[i];
                let n: u32 = if c < u32::MAX { c + 1 } else { c };
                self.counts.set(i, n);
                proof {
                    assert(self.followers() =~= old_keys);
                    assert(old_keys[i as int] == neigh@);
                    self.model@ = self.model@.insert(neigh@, n);
                    assert forall|j: int| 0 <= j < self.words.len() implies
                        self.model@[#[trigger] self.words@[j]@] == self.counts@[j] by {
                        if j != i {
                            assert(old_keys[j] == self.words@[j]@);
                            assert(old_keys[i as int] == self.words@[i as int]@);
                        }
                    }
                    assert(self.model@.dom() =~= self.followers().to_set());
                }
                return;
            },
            None => {},
        }
        let i = self.words.len();
        proof {
            assert(!old_keys.contains(neigh@)) by {
                if old_keys.contains(neigh@) {
                    let j = choose|j: int| 0 <= j < old_keys.len() && old_keys[j] == neigh@;
                    assert(self.words@[j]@ == neigh@);
                }
            }
        }
        self.words.push(neigh);
        self.counts.push(1);
        proof {
            self.model@ = self.model@.insert(self.words@[i as int]@, 1);
            assert(self.followers() =~= old_keys.push(self.words@[i as int]@));
            assert forall|j: int| 0 <= j < self.words.len() implies
                self.model@[#[trigger] self.words@[j]@] == self.counts@[j] by {
                if j != i {
                    assert(old_keys[j] == self.words@[j]@);
                }
            }
            assert(self.model@.dom() =~= self.followers().to_set()) by {
                assert forall|k| self.model@.dom().contains(k) <==> self.followers().to_set().contains(k) by {
                    if k == neigh@ {
                        assert(self.followers()[i as int] == k);
                    } else if self.followers().contains(k) {
                        let j = choose|j: int| 0 <= j < self.followers().len() && self.followers()[j] == k;
                        assert(old_keys[j] == k);
                    } else if old_keys.contains(k) {
                        let j = choose|j: int| 0 <= j < old_keys.len() && old_keys[j] == k;
                        assert(self.followers()[j] == k);
                    }
                }
            }
        }
    }
}

} // verus!

verus! {

/// The transition table: for every token seen, the counts of the tokens seen
/// right after it.
pub struct Stats {
    words: Vec<String>,
    of: Vec<Stat>,
    model: Ghost<Map<Seq<char>, Map<Seq<char>, u32>>>,
}

impl View for Stats {
    type V = Map<Seq<char>, Map<Seq<char>, u32>>;

    closed spec fn view(&self) -> Map<Seq<char>, Map<Seq<char>, u32>> {
        self.model@
    }
}

impl Stats {
    /// The tokens with an entry, in the order in which they were first seen.
    pub closed spec fn tokens(&self) -> Seq<Seq<char>> {
        self.words@.map_values(|w: String| w@)
    }

    /// The entry of the token at position `i` of `tokens`.
    pub closed spec fn entry(&self, i: int) -> Stat {
        self.of@[i]
    }

    pub closed spec fn wf(&self) -> bool {
        &&& self.words.len() == self.of.len()
        &&& self.tokens().no_duplicates()
        &&& self.model@.dom() == self.tokens().to_set()
        &&& forall|i: int| 0 <= i < self.words.len() ==> {
            &&& (#[trigger] self.of@[i]).wf()
            &&& self.of@[i].followers().len() > 0
            &&& self.model@[self.words@[i]@] == self.of@[i]@
        }
    }

    /// What the fields expose of a well-formed table: each token once, with a
    /// non-empty entry beside it.
    pub proof fn lemma_layout(&self)
        requires
            self.wf(),
        ensures
            self.tokens().no_duplicates(),
            self@.dom() == self.tokens().to_set(),
            forall|i: int| 0 <= i < self.tokens().len() ==> {
                &&& (#[trigger] self.entry(i)).wf()
                &&& self.entry(i).followers().len() > 0
                &&& self@[self.tokens()[i]] == self.entry(i)@
            },
    {
        assert forall|i: int| 0 <= i < self.tokens().len() implies {
            &&& (#[trigger] self.entry(i)).wf()
            &&& self.entry(i).followers().len() > 0
            &&& self@[self.tokens()[i]] == self.entry(i)@
        } by {
            assert(self.tokens()[i] == self.words@[i]@);
        }
    }

    pub fn new() -> (r: Self)
        ensures
            r.wf(),
            r@ == Map::<Seq<char>, Map<Seq<char>, u32>>::empty(),
    {
        let r = Stats { words: Vec::new(), of: Vec::new(), model: Ghost(Map::empty()) };
        proof {
            assert(r.tokens() =~= Seq::<Seq<char>>::empty());
            assert(r.model@.dom() =~= r.tokens().to_set());
        }
        r
    }

    /// The number of tokens with an entry.
    pub fn len(&self) -> (r: usize)
        requires
            self.wf(),
        ensures
            r == self.tokens().len(),
    {
        self.words.len()
    }

    /// The token at position `i` and its entry.
    pub fn entry_at(&self, i: usize) -> (r: (String, &Stat))
        requires
            self.wf(),
            i < self.tokens().len(),
        ensures
            r.0@ == self.tokens()[i as int],
            *r.1 == self.entry(i as int),
    {
        (self.words[i].clone(), &self.of[i])
    }

    /// Counts one observation of `neigh` right after `word`.
    pub fn update(&mut self, word: String, neigh: String)
        requires
            old(self).wf(),
        ensures
            final(self).wf(),
            final(self)@ == recorded(old(self)@, word@, neigh@),
    {
        let ghost old_keys = self.tokens();
        match position(&self.words, &word) {
            Some(i) => {
                let mut entry = Stat::new();
                self.of.set_and_swap(i, &mut entry);
                proof {
                    assert(old_keys[i as int] == word@);
                    assert(old(self).of@[i as int].followers().len() > 0);
                }
                entry.record(neigh);
                proof {
                    assert(entry.followers().len() > 0) by {
                        entry.lemma_layout();
                        assert(entry@.contains_key(neigh@));
                        assert(entry.followers().to_set().contains(neigh@));
                    }
                }
                self.of.set(i, entry);
                proof {
                    assert(self.tokens() =~= old_keys);
                    self.model@ = self.model@.insert(word@, entry@);
                    assert forall|j: int| 0 <= j < self.words.len() implies {
                        &&& (#[trigger] self.of@[j]).wf()
                        &&& self.of@[j].followers().len() > 0
                        &&& self.model@[self.words@[j]@] == self.of@[j]@
                    } by {
                        if j != i {
                            assert(old_keys[j] == self.words@[j]@);
                            assert(old_keys[i as int] == self.words@[i as int]@);
                        }
                    }
                    assert(self.model@.dom() =~= self.tokens().to_set());
                }
            },
            None => {
                proof {
                    assert(!old_keys.contains(word@)) by {
                        if old_keys.contains(word@) {
                            let j = choose|j: int| 0 <= j < old_keys.len() && old_keys[j] == word@;
                            assert(self.words@[j]@ == word@);
                        }
                    }
                }
                let mut entry = Stat::new();
                entry.record(neigh);
                proof {
                    assert(entry.followers().len() > 0) by {
                        entry.lemma_layout();
                        assert(entry@.contains_key(neigh@));
                        assert(entry.followers().to_set().contains(neigh@));
                    }
                }
                let i = self.words.len();
                self.words.push(word);
                self.of.push(entry);
                proof {
                    let w = self.words@[i as int]@;
                    self.model@ = self.model@.insert(w, entry@);
                    assert(self.tokens() =~= old_keys.push(w));
                    assert forall|j: int| 0 <= j < self.words.len() implies {
                        &&& (#[trigger] self.of@[j]).wf()
                        &&& self.of@[j].followers().len() > 0
                        &&& self.model@[self.words@[j]@] == self.of@[j]@
                    } by {
                        if j != i {
                            assert(old_keys[j] == self.words@[j]@);
                        }
                    }
                    assert forall|k| self.model@.dom().contains(k) <==> self.tokens().to_set().contains(k) by {
                        if k == w {
                            assert(self.tokens()[i as int] == k);
                        } else if self.tokens().contains(k) {
                            let j = choose|j: int| 0 <= j < self.tokens().len() && self.tokens()[j] == k;
                            assert(old_keys[j] == k);
                        } else if old_keys.contains(k) {
                            let j = choose|j: int| 0 <= j < old_keys.len() && old_keys[j] == k;
                            assert(self.tokens()[j] == k);
                        }
                    }
                    assert(self.model@.dom() =~= self.tokens().to_set());
                }
            },
        }
    }
}

} // verus!

verus! {

/// What `char::is_whitespace` says of a character.
pub uninterp spec fn is_whitespace_char(c: char) -> bool;

/// Relies on `char::is_whitespace`: whether the character has the Unicode
/// `White_Space` property.
#[verifier::external_body]
fn is_space(c: char) -> (r: bool)
    ensures
        r == is_whitespace_char(c),
{
    c.is_whitespace()
}

/// The words finished so far and the word under way, after reading `s`
/// from the left.
pub open spec fn scan_words(s: Seq<char>) -> (Seq<Seq<char>>, Seq<char>)
    decreases s.len(),
{
    if s.len() == 0 {
        (Seq::empty(), Seq::empty())
    } else {
        let (done, cur) = scan_words(s.drop_last());
        let c = s.last();
        if !is_whitespace_char(c) {
            (done, cur.push(c))
        } else if cur.len() > 0 {
            (done.push(cur), Seq::empty())
        } else {
            (done, cur)
        }
    }
}

/// The maximal runs of non-whitespace characters of `s`, in order.
pub open spec fn words_of(s: Seq<char>) -> Seq<Seq<char>> {
    let (done, cur) = scan_words(s);
    if cur.len() > 0 { done.push(cur) } else { done }
}

/// Each word paired with the word after it, the last one with the first.
pub open spec fn cyclic_pairs(ws: Seq<Seq<char>>) -> Seq<(Seq<char>, Seq<char>)> {
    Seq::new(ws.len(), |k: int| (ws[k], ws[(k + 1) % (ws.len() as int)]))
}

/// The table after recording each pair of `ps` in turn.
pub open spec fn fed(
    t: Map<Seq<char>, Map<Seq<char>, u32>>,
    ps: Seq<(Seq<char>, Seq<char>)>,
) -> Map<Seq<char>, Map<Seq<char>, u32>>
    decreases ps.len(),
{
    if ps.len() == 0 {
        t
    } else {
        recorded(fed(t, ps.drop_last()), ps.last().0, ps.last().1)
    }
}

/// The pairs that one input line contributes: its folded words, each with the
/// next word of the same line, cyclically.
pub open spec fn line_pairs(line: Seq<char>) -> Seq<(Seq<char>, Seq<char>)> {
    cyclic_pairs(words_of(line).map_values(|w: Seq<char>| normal_token(w)))
}

/// Splits a line into its whitespace-separated words, each folded.
pub fn split_words(line: &str) -> (r: Vec<String>)
    ensures
        r@.map_values(|w: String| w@) == words_of(line@).map_values(|w: Seq<char>| normal_token(w)),
{
    let mut done: Vec<String> = Vec::new();
    let mut cur = String::new();
    let mut in_word = false;
    proof {
        broadcast use vstd::string::axiom_spec_iter;
    }
    for c in it: line.chars()
        invariant
            it.seq() == line@,
            ({
                let (d, w) = scan_words(it.seq().take(it.index() as int));
                &&& done@.map_values(|x: String| x@) == d.map_values(|x: Seq<char>| normal_token(x))
                &&& cur@ == w
                &&& in_word == (w.len() > 0)
            }),
    {
        let ghost pre = it.seq().take(it.index() as int);
        proof {
            assert(it.seq().take(it.index() + 1).drop_last() =~= pre);
        }
        if !is_space(c) {
            push_char(&mut cur, c);
            in_word = true;
        } else if in_word {
            let w = cur;
            cur = String::new();
            in_word = false;
            let folded = normalize_token(w.as_str());
            let ghost d0 = done@;
            done.push(folded);
            proof {
                assert(done@.map_values(|x: String| x@) =~= d0.map_values(|x: String| x@).push(normal_token(w@)));
                let (d, _) = scan_words(pre);
                assert(d.push(w@).map_values(|x: Seq<char>| normal_token(x)) =~= d.map_values(|x: Seq<char>| normal_token(x)).push(normal_token(w@)));
            }
        }
    }
    let ghost sc = scan_words(line@);
    proof {
        assert(line@.take(line@.len() as int) =~= line@);
        assert(done@.map_values(|x: String| x@) == sc.0.map_values(|x: Seq<char>| normal_token(x)));
        assert(cur@ == sc.1);
    }
    if in_word {
        let ghost d0 = done@;
        let folded = normalize_token(cur.as_str());
        done.push(folded);
        proof {
            assert(done@.map_values(|x: String| x@) =~= d0.map_values(|x: String| x@).push(normal_token(cur@)));
            let (d, _) = scan_words(line@);
            assert(d.push(cur@).map_values(|x: Seq<char>| normal_token(x)) =~= d.map_values(|x: Seq<char>| normal_token(x)).push(normal_token(cur@)));
        }
    }
    done
}

impl Stats {
    /// Records every pair of one input line: each word with the word after it,
    /// the last word with the first; pairs never cross lines.
    pub fn add_line(&mut self, line: &str)
        requires
            old(self).wf(),
        ensures
            final(self).wf(),
            final(self)@ == fed(old(self)@, line_pairs(line@)),
    {
        let ws = split_words(line);
        let n = ws.len();
        let ghost pairs = line_pairs(line@);
        let ghost start = self@;
        proof {
            assert(pairs.len() == n);
        }
        for k in 0..n
            invariant
                n == ws.len(),
                pairs == line_pairs(line@),
                pairs.len() == n,
                ws@.map_values(|w: String| w@) == words_of(line@).map_values(|w: Seq<char>| normal_token(w)),
                self.wf(),
                self@ == fed(start, pairs.take(k as int)),
        {
            let next = if k + 1 < n { k + 1 } else { 0 };
            let word = ws[k].clone();
            let neigh = ws[next].clone();
            self.update(word, neigh);
            proof {
                let ms = ws@.map_values(|w: String| w@);
                assert(ms[k as int] == ws@[k as int]@);
                assert(ms[next as int] == ws@[next as int]@);
                if k + 1 < n {
                    lemma_small_mod((k + 1) as nat, n as nat);
                } else {
                    lemma_mod_self_0(n as int);
                }
                assert((k + 1) % (n as int) == next as int);
                assert(pairs.take(k + 1).drop_last() =~= pairs.take(k as int));
                assert(pairs[k as int] == (word@, neigh@));
            }
        }
        proof {
            assert(pairs.take(n as int) =~= pairs);
        }
    }
}

} // verus!

verus! {

/// Two observations counted in either order leave the same followers' counts.
pub proof fn lemma_bumped_commutes(m: Map<Seq<char>, u32>, a: Seq<char>, b: Seq<char>)
    ensures
        bumped(bumped(m, a), b) == bumped(bumped(m, b), a),
{
    assert(bumped(bumped(m, a), b) =~= bumped(bumped(m, b), a));
}

/// Recording two pairs in either order leaves the same table.
pub proof fn lemma_recorded_commutes(
    t: Map<Seq<char>, Map<Seq<char>, u32>>,
    p: (Seq<char>, Seq<char>),
    q: (Seq<char>, Seq<char>),
)
    ensures
        recorded(recorded(t, p.0, p.1), q.0, q.1) == recorded(recorded(t, q.0, q.1), p.0, p.1),
{
    if p.0 == q.0 {
        let inner = if t.contains_key(p.0) { t[p.0] } else { Map::empty() };
        lemma_bumped_commutes(inner, p.1, q.1);
        assert(recorded(recorded(t, p.0, p.1), q.0, q.1) =~= recorded(recorded(t, q.0, q.1), p.0, p.1));
    } else {
        assert(recorded(recorded(t, p.0, p.1), q.0, q.1) =~= recorded(recorded(t, q.0, q.1), p.0, p.1));
    }
}

/// Taking any one pair out of a run and recording it last builds the same
/// table.
proof fn lemma_fed_take_out(t: Map<Seq<char>, Map<Seq<char>, u32>>, ps: Seq<(Seq<char>, Seq<char>)>, j: int)
    requires
        0 <= j < ps.len(),
    ensures
        fed(t, ps) == recorded(fed(t, ps.remove(j)), ps[j].0, ps[j].1),
    decreases ps.len(),
{
    if j == ps.len() - 1 {
        assert(ps.remove(j) =~= ps.drop_last());
    } else {
        let d = ps.drop_last();
        lemma_fed_take_out(t, d, j);
        assert(d.remove(j) =~= ps.remove(j).drop_last());
        assert(ps.remove(j).last() == ps.last());
        lemma_recorded_commutes(fed(t, d.remove(j)), ps[j], ps.last());
    }
}

/// The table that a run of pairs builds depends only on which pairs it holds
/// and how often, not on their order.
pub proof fn lemma_fed_order_free(
    t: Map<Seq<char>, Map<Seq<char>, u32>>,
    ps: Seq<(Seq<char>, Seq<char>)>,
    qs: Seq<(Seq<char>, Seq<char>)>,
)
    requires
        ps.to_multiset() == qs.to_multiset(),
    ensures
        fed(t, ps) == fed(t, qs),
    decreases ps.len(),
{
    broadcast use vstd::seq_lib::to_multiset_len, vstd::seq_lib::to_multiset_contains;

    if ps.len() == 0 {
        assert(ps.to_multiset().len() == 0);
        assert(qs.to_multiset().len() == 0);
        assert(qs.len() == 0);
        assert(qs =~= ps);
    } else {
        let e = ps.last();
        let n = ps.len() - 1;
        assert(ps.to_multiset().count(e) > 0) by {
            assert(ps[n] == e);
        }
        assert(qs.contains(e));
        let j = choose|j: int| 0 <= j < qs.len() && qs[j] == e;
        vstd::seq_lib::to_multiset_remove(ps, n);
        vstd::seq_lib::to_multiset_remove(qs, j);
        assert(ps.remove(n) =~= ps.drop_last());
        lemma_fed_order_free(t, ps.drop_last(), qs.remove(j));
        lemma_fed_take_out(t, qs, j);
    }
}

} // verus!
