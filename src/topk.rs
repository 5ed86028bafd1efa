//! A bounded collector that keeps the highest-scoring candidates seen.
use vstd::prelude::*;

verus! {

/// One scored decryption attempt: the key tried, the text it gave, and
/// the text's score.
pub struct Candidate {
    pub key: Vec<usize>,
    pub text: String,
    pub score: u128,
}

/// A candidate as plain values: key, text, score.
pub type Entry = (Seq<usize>, Seq<char>, u128);

impl View for Candidate {
    type V = Entry;

    open spec fn view(&self) -> Entry {
        (self.key@, self.text@, self.score)
    }
}

/// The entries of a vector of candidates.
pub open spec fn entries_of(v: Seq<Candidate>) -> Seq<Entry> {
    v.map_values(|c: Candidate| c@)
}

/// Scores never rise along `s`.
pub open spec fn is_ranked(s: Seq<Entry>) -> bool {
    forall|i: int, j: int| 0 <= i < j < s.len() ==> #[trigger] s[i].2 >= #[trigger] s[j].2
}

/// Every entry of `s` scores at least `sc`.
pub open spec fn all_at_least(s: Seq<Entry>, sc: u128) -> bool {
    forall|i: int| 0 <= i < s.len() ==> #[trigger] s[i].2 >= sc
}

/// Where an entry with `score` goes in `s`: after every leading entry that
/// scores at least as much.
pub open spec fn rank_slot(s: Seq<Entry>, score: u128) -> int
    decreases s.len(),
{
    if s.len() == 0 || s[0].2 < score {
        0
    } else {
        1 + rank_slot(s.skip(1), score)
    }
}

/// `s` with `e` put in its rank slot, cut back to `cap` entries: when it
/// overflows, the last (lowest-scoring) entry leaves.
pub open spec fn ranked_insert(s: Seq<Entry>, e: Entry, cap: nat) -> Seq<Entry> {
    let t = s.insert(rank_slot(s, e.2), e);
    if t.len() > cap {
        t.take(cap as int)
    } else {
        t
    }
}

/// `start` after inserting each of `es` in turn.
pub open spec fn ranked_extend(start: Seq<Entry>, es: Seq<Entry>, cap: nat) -> Seq<Entry>
    decreases es.len(),
{
    if es.len() == 0 {
        start
    } else {
        ranked_insert(ranked_extend(start, es.drop_last(), cap), es.last(), cap)
    }
}

proof fn lemma_rank_slot(s: Seq<Entry>, score: u128)
    requires
        is_ranked(s),
    ensures
        0 <= rank_slot(s, score) <= s.len(),
        forall|i: int| 0 <= i < rank_slot(s, score) ==> #[trigger] s[i].2 >= score,
        forall|i: int| rank_slot(s, score) <= i < s.len() ==> #[trigger] s[i].2 < score,
    decreases s.len(),
{
    if s.len() > 0 && s[0].2 >= score {
        let t = s.skip(1);
        assert(is_ranked(t)) by {
            assert forall|i: int, j: int| 0 <= i < j < t.len() implies #[trigger] t[i].2 >= #[trigger] t[j].2 by {
                assert(s[i + 1].2 >= s[j + 1].2);
            }
        }
        lemma_rank_slot(t, score);
        assert forall|i: int| 0 <= i < rank_slot(s, score) implies #[trigger] s[i].2 >= score by {
            if i > 0 {
                assert(s[i] == t[i - 1]);
            }
        }
        assert forall|i: int| rank_slot(s, score) <= i < s.len() implies #[trigger] s[i].2 < score by {
            assert(s[i] == t[i - 1]);
        }
    } else if s.len() > 0 {
        assert forall|i: int| 0 <= i < s.len() implies #[trigger] s[i].2 < score by {
            if i > 0 {
                assert(s[0].2 >= s[i].2);
            }
        }
    }
}

/// What one insertion keeps: the ranking, the length, and, for every entry
/// that is no longer there, a score no higher than any that stays.
proof fn lemma_ranked_insert(s: Seq<Entry>, e: Entry, cap: nat)
    requires
        cap > 0,
        is_ranked(s),
        s.len() <= cap,
    ensures
        is_ranked(ranked_insert(s, e, cap)),
        ranked_insert(s, e, cap).len() == if s.len() < cap { s.len() + 1 } else { cap },
        forall|i: int|
            0 <= i < ranked_insert(s, e, cap).len() ==> s.contains(#[trigger] ranked_insert(s, e, cap)[i])
                || ranked_insert(s, e, cap)[i] == e,
        s.len() < cap ==> ranked_insert(s, e, cap).contains(e),
        s.len() < cap ==> forall|x: Entry| s.contains(x) ==> #[trigger] ranked_insert(s, e, cap).contains(x),
        !ranked_insert(s, e, cap).contains(e) ==> forall|i: int|
            0 <= i < ranked_insert(s, e, cap).len() ==> #[trigger] ranked_insert(s, e, cap)[i].2 >= e.2,
        forall|x: Entry|
            #![trigger s.contains(x), ranked_insert(s, e, cap).contains(x)]
            s.contains(x) && !ranked_insert(s, e, cap).contains(x) ==> forall|i: int|
                0 <= i < ranked_insert(s, e, cap).len() ==> #[trigger] ranked_insert(s, e, cap)[i].2 >= x.2,
        forall|sc: u128|
            #[trigger] all_at_least(s, sc) && s.len() == cap ==> all_at_least(ranked_insert(s, e, cap), sc),
{
    lemma_rank_slot(s, e.2);
    let p = rank_slot(s, e.2);
    let t = s.insert(p, e);
    let r = ranked_insert(s, e, cap);
    assert(t.len() == s.len() + 1);
    assert forall|i: int| 0 <= i < t.len() implies #[trigger] t[i] == if i < p {
        s[i]
    } else if i == p {
        e
    } else {
        s[i - 1]
    } by {}
    assert(is_ranked(t)) by {
        assert forall|i: int, j: int| 0 <= i < j < t.len() implies #[trigger] t[i].2 >= #[trigger] t[j].2 by {
            if i < p && j > p {
                assert(s[i].2 >= s[j - 1].2);
            } else if i > p {
                assert(s[i - 1].2 >= s[j - 1].2);
            } else if i < p {
                assert(s[i].2 >= s[j].2 || j == p);
            }
        }
    }
    assert forall|i: int| 0 <= i < r.len() implies s.contains(#[trigger] r[i]) || r[i] == e by {
        if i < p {
            assert(s[i] == r[i]);
        } else if i > p {
            assert(s[i - 1] == r[i]);
        }
    }
    assert forall|x: Entry| s.contains(x) && !r.contains(x) implies forall|i: int|
        0 <= i < r.len() ==> #[trigger] r[i].2 >= x.2 by {
        let k = choose|k: int| 0 <= k < s.len() && s[k] == x;
        if k < p {
            assert(r[k] == x);
        } else if k + 1 < r.len() {
            assert(r[k + 1] == x);
        }
        assert(k + 1 == t.len() - 1);
        assert forall|i: int| 0 <= i < r.len() implies #[trigger] r[i].2 >= x.2 by {
            assert(t[i].2 >= t[k + 1].2);
        }
    }
    if s.len() < cap {
        assert(r[p] == e);
        assert forall|x: Entry| s.contains(x) implies #[trigger] r.contains(x) by {
            let k = choose|k: int| 0 <= k < s.len() && s[k] == x;
            if k < p {
                assert(r[k] == x);
            } else {
                assert(r[k + 1] == x);
            }
        }
    }
    if !r.contains(e) {
        if p < r.len() {
            assert(r[p] == e);
        }
        assert forall|i: int| 0 <= i < r.len() implies #[trigger] r[i].2 >= e.2 by {
            assert(i < p);
        }
    }
    assert forall|sc: u128| #[trigger] all_at_least(s, sc) && s.len() == cap implies all_at_least(r, sc) by {
        assert forall|i: int| 0 <= i < r.len() implies #[trigger] r[i].2 >= sc by {
            if i < p {
                assert(s[i].2 >= sc);
            } else if i == p {
                assert(s[s.len() - 1].2 >= sc);
                assert(s[s.len() - 1].2 < e.2);
            } else {
                assert(s[i - 1].2 >= sc);
            }
        }
    }
}

/// After any sequence of insertions into an empty collector of capacity
/// `cap`, it holds `min(cap, number of insertions)` entries, ranked by
/// score, each of them inserted; every inserted entry that is no longer
/// held scores no higher than every entry that is.
pub proof fn lemma_top_k(cap: nat, es: Seq<Entry>)
    requires
        cap > 0,
    ensures
        ranked_extend(seq![], es, cap).len() == if es.len() < cap { es.len() } else { cap },
        is_ranked(ranked_extend(seq![], es, cap)),
        forall|i: int|
            0 <= i < ranked_extend(seq![], es, cap).len() ==> es.contains(
                #[trigger] ranked_extend(seq![], es, cap)[i],
            ),
        forall|k: int|
            0 <= k < es.len() ==> ranked_extend(seq![], es, cap).contains(#[trigger] es[k])
                || all_at_least(ranked_extend(seq![], es, cap), es[k].2),
        es.len() <= cap ==> forall|k: int|
            0 <= k < es.len() ==> ranked_extend(seq![], es, cap).contains(#[trigger] es[k]),
    decreases es.len(),
{
    let r = ranked_extend(seq![], es, cap);
    if es.len() > 0 {
        let prev = es.drop_last();
        let e = es.last();
        let r0 = ranked_extend(seq![], prev, cap);
        lemma_top_k(cap, prev);
        lemma_ranked_insert(r0, e, cap);
        assert(r == ranked_insert(r0, e, cap));
        assert forall|i: int| 0 <= i < r.len() implies es.contains(#[trigger] r[i]) by {
            if r0.contains(r[i]) {
                let j = choose|j: int| 0 <= j < r0.len() && r0[j] == r[i];
                let k = choose|k: int| 0 <= k < prev.len() && prev[k] == r0[j];
                assert(es[k] == r[i]);
            } else {
                assert(es[es.len() - 1] == r[i]);
            }
        }
        assert forall|k: int| 0 <= k < es.len() implies r.contains(#[trigger] es[k]) || all_at_least(
            r,
            es[k].2,
        ) by {
            if k < es.len() - 1 {
                let x = es[k];
                assert(prev[k] == x);
                if r0.contains(x) {
                    if !r.contains(x) {
                        assert(all_at_least(r, x.2));
                    }
                } else {
                    assert(all_at_least(r0, x.2));
                    assert(r0.len() == cap);
                    assert(all_at_least(r, x.2));
                }
            } else if !r.contains(e) {
                assert(all_at_least(r, e.2));
            }
        }
        if es.len() <= cap {
            assert forall|k: int| 0 <= k < es.len() implies r.contains(#[trigger] es[k]) by {
                if k < es.len() - 1 {
                    assert(prev[k] == es[k]);
                    assert(r0.contains(prev[k]));
                }
            }
        }
    }
}

/// Keeps the `capacity` highest-scoring candidates inserted so far, best
/// first; among equal scores the earlier insertion ranks first.
pub struct TopK {
    capacity: usize,
    items: Vec<Candidate>,
}

impl TopK {
    /// The retained entries, best first.
    pub closed spec fn entries(&self) -> Seq<Entry> {
        entries_of(self.items@)
    }

    /// The most entries the collector holds.
    pub closed spec fn cap(&self) -> nat {
        self.capacity as nat
    }

    /// The capacity is positive, the entries ranked and within it.
    pub closed spec fn wf(&self) -> bool {
        &&& self.capacity > 0
        &&& self.items.len() <= self.capacity
        &&& is_ranked(entries_of(self.items@))
    }

    /// An empty collector that keeps at most `capacity` candidates.
    pub fn new(capacity: usize) -> (r: TopK)
        requires
            capacity > 0,
        ensures
            r.wf(),
            r.cap() == capacity,
            r.entries() == Seq::<Entry>::empty(),
    {
        let r = TopK { capacity, items: Vec::new() };
        assert(entries_of(r.items@) =~= Seq::<Entry>::empty());
        r
    }

    /// How many candidates are held.
    pub fn len(&self) -> (n: usize)
        ensures
            n == self.entries().len(),
    {
        self.items.len()
    }

    /// Offers `c`: it takes its rank slot, and when that overflows the
    /// capacity the lowest-ranked candidate leaves.
    pub fn insert(&mut self, c: Candidate)
        requires
            old(self).wf(),
        ensures
            final(self).wf(),
            final(self).cap() == old(self).cap(),
            final(self).entries() == ranked_insert(old(self).entries(), c@, old(self).cap()),
    {
        let ghost s = self.entries();
        let ghost e = c@;
        proof {
            lemma_rank_slot(s, e.2);
            lemma_ranked_insert(s, e, self.capacity as nat);
        }
        let mut pos: usize = 0;
        while pos < self.items.len() && self.items[pos].score >= c.score
            invariant
                s == entries_of(self.items@),
                e == c@,
                is_ranked(s),
                pos <= self.items.len(),
                forall|i: int| 0 <= i < pos ==> #[trigger] s[i].2 >= e.2,
            decreases self.items.len() - pos,
        {
            pos += 1;
        }
        proof {
            if pos < self.items.len() {
                assert(s[pos as int].2 < e.2);
            }
            lemma_rank_slot_at(s, e.2, pos as int);
        }
        self.items.insert(pos, c);
        if self.items.len() > self.capacity {
            self.items.pop();
        }
        proof {
            let t = s.insert(pos as int, e);
            assert(entries_of(self.items@) =~= if t.len() > self.capacity {
                t.take(self.capacity as int)
            } else {
                t
            });
        }
    }

    /// The retained candidates, best first.
    pub fn extract_ranked(self) -> (v: Vec<Candidate>)
        requires
            self.wf(),
        ensures
            entries_of(v@) == self.entries(),
            is_ranked(entries_of(v@)),
            v.len() <= self.cap(),
    {
        self.items
    }

    /// Moves every candidate of `other` in, in `other`'s order.
    pub fn absorb(&mut self, other: TopK)
        requires
            old(self).wf(),
        ensures
            final(self).wf(),
            final(self).cap() == old(self).cap(),
            final(self).entries() == ranked_extend(old(self).entries(), other.entries(), old(self).cap()),
    {
        let ghost start = self.entries();
        let ghost es = other.entries();
        let ghost cap = self.cap();
        let items = other.items;
        for c in it: items.into_iter()
            invariant
                self.wf(),
                self.cap() == cap,
                es == entries_of(it.seq()),
                self.entries() == ranked_extend(start, es.take(it.index() as int), cap),
        {
            let ghost k = it.index() as int;
            assert(es.take(k + 1).drop_last() =~= es.take(k));
            assert(es[k] == c@);
            self.insert(c);
        }
        assert(es.take(es.len() as int) =~= es);
    }
}

proof fn lemma_rank_slot_at(s: Seq<Entry>, score: u128, pos: int)
    requires
        is_ranked(s),
        0 <= pos <= s.len(),
        forall|i: int| 0 <= i < pos ==> #[trigger] s[i].2 >= score,
        pos < s.len() ==> s[pos].2 < score,
    ensures
        rank_slot(s, score) == pos,
{
    lemma_rank_slot(s, score);
    let r = rank_slot(s, score);
    if r < pos {
        assert(s[r].2 >= score);
    } else if r > pos {
        assert(s[pos].2 >= score);
    }
}

} // verus!
