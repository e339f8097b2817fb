//! Top-N Collector: keeps the best matches offered so far, sorted by
//! descending score; among equal scores the match offered first stays first.
use vstd::prelude::*;
use crate::entities::Match;

verus! {

/// Scores never rise along `h`.
pub open spec fn sorted_desc(h: Seq<Match>) -> bool {
    forall|i: int, j: int| 0 <= i < j < h.len() ==> h[i].score >= h[j].score
}

/// `p` is where a match of score `s` goes into `h`: after every held match of
/// at least that score, before every one of lower score.
pub open spec fn is_slot(h: Seq<Match>, s: u32, p: int) -> bool {
    &&& 0 <= p <= h.len()
    &&& forall|k: int| 0 <= k < p ==> h[k].score >= s
    &&& forall|k: int| p <= k < h.len() ==> h[k].score < s
}

pub open spec fn slot(h: Seq<Match>, s: u32) -> int {
    choose|p: int| is_slot(h, s, p)
}

/// The held matches after `m` is offered to a collector of capacity `cap`
/// holding `h`: below capacity `m` is inserted; at capacity it replaces the
/// last match if it scores strictly higher; otherwise it is dropped.
pub open spec fn offer_step(h: Seq<Match>, m: Match, cap: nat) -> Seq<Match> {
    if h.len() < cap {
        h.insert(slot(h, m.score), m)
    } else if h.len() > 0 && m.score > h.last().score {
        h.insert(slot(h, m.score), m).drop_last()
    } else {
        h
    }
}

/// The held matches after each match of `offered` was offered, in order, to
/// an empty collector of capacity `cap`.
pub open spec fn collected(offered: Seq<Match>, cap: nat) -> Seq<Match>
    decreases offered.len(),
{
    if offered.len() == 0 {
        seq![]
    } else {
        offer_step(collected(offered.drop_last(), cap), offered.last(), cap)
    }
}

proof fn find_slot(h: Seq<Match>, s: u32, p: int) -> (q: int)
    requires
        sorted_desc(h),
        0 <= p <= h.len(),
        forall|k: int| 0 <= k < p ==> h[k].score >= s,
    ensures
        is_slot(h, s, q),
    decreases h.len() - p,
{
    if p == h.len() || h[p].score < s {
        p
    } else {
        find_slot(h, s, p + 1)
    }
}

pub proof fn lemma_slot(h: Seq<Match>, s: u32, p: int)
    requires
        sorted_desc(h),
        is_slot(h, s, p),
    ensures
        slot(h, s) == p,
{
    assert(is_slot(h, s, p));
    let c = slot(h, s);
    assert(is_slot(h, s, c));
    if c < p {
        assert(h[c].score < s);
    } else if p < c {
        assert(h[p].score < s);
    }
}

proof fn lemma_offer_step(h: Seq<Match>, m: Match, cap: nat)
    requires
        sorted_desc(h),
        h.len() <= cap,
    ensures
        sorted_desc(offer_step(h, m, cap)),
        offer_step(h, m, cap).len() == if h.len() < cap { h.len() + 1 } else { h.len() as nat },
        forall|x: Match| #[trigger] offer_step(h, m, cap).contains(x) ==> h.contains(x) || x == m,
{
    let p = find_slot(h, m.score, 0);
    lemma_slot(h, m.score, p);
    let n = h.insert(p, m);
    assert forall|k: int| 0 <= k < n.len() implies #[trigger] n[k] == (if k < p {
        h[k]
    } else if k == p {
        m
    } else {
        h[k - 1]
    }) by {}
    assert(sorted_desc(n));
    assert forall|x: Match| #[trigger] n.contains(x) implies h.contains(x) || x == m by {
        let k = choose|k: int| 0 <= k < n.len() && n[k] == x;
        if k < p {
            assert(h[k] == x);
        } else if k > p {
            assert(h[k - 1] == x);
        }
    }
    if h.len() >= cap && h.len() > 0 && m.score > h.last().score {
        let d = n.drop_last();
        assert forall|x: Match| #[trigger] d.contains(x) implies n.contains(x) by {
            let k = choose|k: int| 0 <= k < d.len() && d[k] == x;
            assert(n[k] == x);
        }
    }
}

/// What a collector holds is sorted by descending score, holds at most
/// `cap` matches (exactly `cap` once that many were offered), and holds only
/// offered matches.
pub proof fn lemma_collected(offered: Seq<Match>, cap: nat)
    ensures
        sorted_desc(collected(offered, cap)),
        collected(offered, cap).len() == if offered.len() < cap { offered.len() } else { cap },
        forall|x: Match| #[trigger] collected(offered, cap).contains(x) ==> offered.contains(x),
    decreases offered.len(),
{
    if offered.len() > 0 {
        let o = offered.drop_last();
        lemma_collected(o, cap);
        lemma_offer_step(collected(o, cap), offered.last(), cap);
        assert forall|x: Match| #[trigger] collected(offered, cap).contains(x) implies offered.contains(x) by {
            if collected(o, cap).contains(x) {
                assert(o.contains(x));
                let k = choose|k: int| 0 <= k < o.len() && o[k] == x;
                assert(offered[k] == x);
            } else {
                assert(offered[offered.len() - 1] == x);
            }
        }
    }
}

/// Offered match `i` ranks above offered match `j`: it scores higher, or
/// scores the same and was offered first.
pub open spec fn ranks_above(offered: Seq<Match>, i: int, j: int) -> bool {
    offered[i].score > offered[j].score || (offered[i].score == offered[j].score && i < j)
}

/// `held` lists the offered matches at positions `idx`, which are the
/// `cap` best-ranked ones (all of them if fewer were offered), best first.
pub open spec fn is_top(offered: Seq<Match>, cap: nat, held: Seq<Match>, idx: Seq<int>) -> bool {
    &&& held.len() == idx.len()
    &&& held.len() == if offered.len() < cap { offered.len() } else { cap }
    &&& forall|k: int| 0 <= k < idx.len() ==> 0 <= #[trigger] idx[k] < offered.len()
    &&& forall|k: int| 0 <= k < idx.len() ==> held[k] == offered[#[trigger] idx[k]]
    &&& forall|k: int, l: int| 0 <= k < l < idx.len() ==> ranks_above(offered, #[trigger] idx[k], #[trigger] idx[l])
    &&& forall|j: int, k: int|
        0 <= j < offered.len() && !idx.contains(j) && 0 <= k < idx.len() ==> #[trigger] ranks_above(
            offered,
            idx[k],
            j,
        )
}

proof fn top_indices(offered: Seq<Match>, cap: nat) -> (idx: Seq<int>)
    ensures
        is_top(offered, cap, collected(offered, cap), idx),
        collected(offered, cap).len() < cap ==> forall|j: int| 0 <= j < offered.len() ==> idx.contains(j),
    decreases offered.len(),
{
    if offered.len() == 0 {
        seq![]
    } else {
        let o = offered.drop_last();
        let m = offered.last();
        let n = o.len() as int;
        let h = collected(o, cap);
        let prev = top_indices(o, cap);
        lemma_collected(o, cap);
        lemma_collected(offered, cap);
        assert forall|i: int| 0 <= i < n implies #[trigger] offered[i] == o[i] by {}
        if h.len() < cap || (h.len() > 0 && m.score > h.last().score) {
            let p = find_slot(h, m.score, 0);
            lemma_slot(h, m.score, p);
            let hi = h.insert(p, m);
            let ii = prev.insert(p, n);
            assert forall|k: int| 0 <= k < ii.len() implies #[trigger] ii[k] == (if k < p {
                prev[k]
            } else if k == p {
                n
            } else {
                prev[k - 1]
            }) && hi[k] == (if k < p {
                h[k]
            } else if k == p {
                m
            } else {
                h[k - 1]
            }) by {}
            assert forall|k: int, l: int| 0 <= k < l < ii.len() implies ranks_above(
                offered,
                #[trigger] ii[k],
                #[trigger] ii[l],
            ) by {
                if k < p && l > p {
                    assert(ranks_above(o, prev[k], prev[l - 1]));
                } else if k > p {
                    assert(ranks_above(o, prev[k - 1], prev[l - 1]));
                } else if l < p {
                    assert(ranks_above(o, prev[k], prev[l]));
                }
            }
            if h.len() < cap {
                assert forall|j: int| 0 <= j < offered.len() implies ii.contains(j) by {
                    if j == n {
                        assert(ii[p] == j);
                    } else {
                        assert(prev.contains(j));
                        let k = choose|k: int| 0 <= k < prev.len() && prev[k] == j;
                        if k < p {
                            assert(ii[k] == j);
                        } else {
                            assert(ii[k + 1] == j);
                        }
                    }
                }
                ii
            } else {
                let r = prev[prev.len() - 1];
                let d = ii.drop_last();
                assert forall|j: int, k: int|
                    0 <= j < offered.len() && !d.contains(j) && 0 <= k < d.len() implies #[trigger] ranks_above(
                    offered,
                    d[k],
                    j,
                ) by {
                    assert(d[k] == ii[k]);
                    if j == r {
                        if k != p {
                            assert(ranks_above(offered, ii[k], ii[ii.len() - 1]));
                        }
                    } else {
                        assert(j != n) by {
                            assert(d[p] == n);
                        }
                        assert(!prev.contains(j)) by {
                            if prev.contains(j) {
                                let t = choose|t: int| 0 <= t < prev.len() && prev[t] == j;
                                if t < p {
                                    assert(d[t] == j);
                                } else if t + 1 < d.len() {
                                    assert(d[t + 1] == j);
                                } else {
                                    assert(j == r);
                                }
                            }
                        }
                        assert(ranks_above(o, r, j));
                        if k < p {
                            assert(ranks_above(o, prev[k], j));
                        } else if k > p {
                            assert(ranks_above(o, prev[k - 1], j));
                        }
                    }
                }
                assert(collected(offered, cap) == hi.drop_last());
                d
            }
        } else {
            assert forall|j: int, k: int|
                0 <= j < offered.len() && !prev.contains(j) && 0 <= k < prev.len() implies #[trigger] ranks_above(
                offered,
                prev[k],
                j,
            ) by {
                if j == n {
                    assert(h[k].score >= h[h.len() - 1].score);
                    assert(h[k] == o[prev[k]]);
                } else {
                    assert(ranks_above(o, prev[k], j));
                }
            }
            prev
        }
    }
}

/// What a collector holds after any offers are the `cap` best-ranked
/// matches offered (all of them if fewer were offered), best first, where a
/// higher score ranks above a lower one and, among equal scores, the match
/// offered first ranks above.
pub proof fn lemma_collected_is_top(offered: Seq<Match>, cap: nat)
    ensures
        exists|idx: Seq<int>| is_top(offered, cap, collected(offered, cap), idx),
{
    let idx = top_indices(offered, cap);
}

/// A bounded collection of the best matches, sorted by descending score.
pub struct MatchCollector {
    limit: usize,
    items: Vec<Match>,
    offered: Ghost<Seq<Match>>,
}

impl View for MatchCollector {
    type V = Seq<Match>;

    closed spec fn view(&self) -> Seq<Match> {
        self.items@
    }
}

impl MatchCollector {
    /// The capacity.
    pub closed spec fn capacity(&self) -> nat {
        self.limit as nat
    }

    /// Every match offered so far, in order.
    pub closed spec fn offered(&self) -> Seq<Match> {
        self.offered@
    }

    /// The held matches are those that offering `offered()` in order leaves.
    pub closed spec fn wf(&self) -> bool {
        self.items@ == collected(self.offered@, self.limit as nat)
    }

    /// An empty collector that keeps at most `limit` matches.
    pub fn new(limit: usize) -> (r: MatchCollector)
        ensures
            r.wf(),
            r.capacity() == limit,
            r.offered() == Seq::<Match>::empty(),
            r@ == Seq::<Match>::empty(),
    {
        MatchCollector { limit, items: Vec::new(), offered: Ghost(Seq::empty()) }
    }

    /// Offers one match.
    pub fn offer(&mut self, m: Match)
        requires
            old(self).wf(),
        ensures
            final(self).wf(),
            final(self).capacity() == old(self).capacity(),
            final(self).offered() == old(self).offered().push(m),
            final(self)@ == offer_step(old(self)@, m, old(self).capacity()),
    {
        proof {
            lemma_collected(self.offered@, self.limit as nat);
        }
        let len = self.items.len();
        if len < self.limit || (len > 0 && m.score > self.items[len - 1].score) {
            let mut p: usize = 0;
            while p < len && self.items[p].score >= m.score
                invariant
                    len == self.items@.len(),
                    p <= len,
                    forall|k: int| 0 <= k < p ==> self.items@[k].score >= m.score,
                decreases len - p,
            {
                p = p + 1;
            }
            proof {
                let h = self.items@;
                assert(is_slot(h, m.score, p as int));
                lemma_slot(h, m.score, p as int);
            }
            self.items.insert(p, m);
            if self.items.len() > self.limit {
                self.items.pop();
            }
        }
        let ghost o = self.offered@.push(m);
        assert(o.drop_last() =~= self.offered@);
        self.offered = Ghost(o);
    }

    /// At every point the held matches are the best-ranked `capacity()` of
    /// the matches offered so far, best first.
    pub proof fn lemma_held_is_top(&self)
        requires
            self.wf(),
        ensures
            exists|idx: Seq<int>| is_top(self.offered(), self.capacity(), self@, idx),
            sorted_desc(self@),
            self@.len() <= self.capacity(),
    {
        let idx = top_indices(self.offered@, self.limit as nat);
        assert(is_top(self.offered(), self.capacity(), self@, idx));
        lemma_collected(self.offered@, self.limit as nat);
    }

    /// The held matches, best first.
    pub fn held(&self) -> (r: &Vec<Match>)
        ensures
            r@ == self@,
    {
        &self.items
    }

    /// Gives up the held matches, best first.
    pub fn into_vec(self) -> (r: Vec<Match>)
        requires
            self.wf(),
        ensures
            r@ == self@,
            r@ == collected(self.offered(), self.capacity()),
    {
        self.items
    }
}

} // verus!
