//! The queue of merge candidates: a binary heap that hands out the best first.
use crate::pairs::{Frequency, TokenId};
use vstd::multiset::Multiset;
use vstd::prelude::*;

verus! {

/// A pair that may be merged, with the priority that it had when it was queued:
/// the rank of its script, then its frequency.
#[derive(Debug, Clone, Copy)]
pub struct MergeCandidate {
    pub rank: u8,
    pub freq: Frequency,
    pub a: TokenId,
    pub b: TokenId,
}

/// Whether `x` comes after `y` in the queue: by rank, then by frequency, and
/// then, so that the order is total, by the two tokens.
pub open spec fn ranks_below(x: MergeCandidate, y: MergeCandidate) -> bool {
    ||| x.rank < y.rank
    ||| x.rank == y.rank && x.freq < y.freq
    ||| x.rank == y.rank && x.freq == y.freq && x.a < y.a
    ||| x.rank == y.rank && x.freq == y.freq && x.a == y.a && x.b < y.b
}

/// The order of candidates is a strict total order: of two different candidates
/// exactly one ranks below the other, and ranking below is transitive.
pub proof fn law_candidate_order(x: MergeCandidate, y: MergeCandidate, z: MergeCandidate)
    ensures
        !ranks_below(x, x),
        ranks_below(x, y) ==> !ranks_below(y, x),
        x == y || ranks_below(x, y) || ranks_below(y, x),
        ranks_below(x, y) && ranks_below(y, z) ==> ranks_below(x, z),
{
}

impl MergeCandidate {
    /// Whether this candidate ranks below another.
    pub fn is_below(&self, other: &MergeCandidate) -> (r: bool)
        ensures
            r == ranks_below(*self, *other),
    {
        if self.rank != other.rank {
            self.rank < other.rank
        } else if self.freq != other.freq {
            self.freq < other.freq
        } else if self.a != other.a {
            self.a < other.a
        } else {
            self.b < other.b
        }
    }
}

/// A binary max-heap of candidates.
pub struct CandidateHeap {
    items: Vec<MergeCandidate>,
}

impl View for CandidateHeap {
    type V = Multiset<MergeCandidate>;

    closed spec fn view(&self) -> Multiset<MergeCandidate> {
        self.items@.to_multiset()
    }
}

spec fn parent(i: int) -> int {
    (i - 1) / 2
}

/// No item ranks above its parent, but for the item at `hole`.
spec fn heap_up(s: Seq<MergeCandidate>, hole: int) -> bool {
    &&& forall|i: int| 0 < i < s.len() && i != hole ==> !ranks_below(s[parent(i)], #[trigger] s[i])
    &&& forall|i: int|
        0 < i < s.len() && parent(i) == hole && hole > 0 ==> !ranks_below(
            s[parent(hole)],
            #[trigger] s[i],
        )
}

/// No item ranks above its parent, but for the children of `hole`.
spec fn heap_down(s: Seq<MergeCandidate>, hole: int) -> bool {
    &&& forall|i: int|
        0 < i < s.len() && parent(i) != hole ==> !ranks_below(s[parent(i)], #[trigger] s[i])
    &&& forall|i: int|
        0 < i < s.len() && parent(i) == hole && hole > 0 ==> !ranks_below(
            s[parent(hole)],
            #[trigger] s[i],
        )
}

spec fn is_heap(s: Seq<MergeCandidate>) -> bool {
    forall|i: int| 0 < i < s.len() ==> !ranks_below(s[parent(i)], #[trigger] s[i])
}

proof fn lemma_root_is_greatest(s: Seq<MergeCandidate>, i: int)
    requires
        is_heap(s),
        0 <= i < s.len(),
    ensures
        !ranks_below(s[0], s[i]),
    decreases i,
{
    if i > 0 {
        lemma_root_is_greatest(s, parent(i));
    }
}

proof fn lemma_update_multiset(s: Seq<MergeCandidate>, i: int, x: MergeCandidate)
    requires
        0 <= i < s.len(),
    ensures
        s.update(i, x).to_multiset() == s.to_multiset().remove(s[i]).insert(x),
{
    broadcast use vstd::seq_lib::group_to_multiset_ensures;

    let u = s.update(i, x);
    assert(u.remove(i) =~= s.remove(i));
    assert(u[i] == x);
    assert(u.contains(x));
    assert(u.to_multiset().count(x) > 0);
    assert(s.remove(i).to_multiset() == s.to_multiset().remove(s[i]));
    assert(u.remove(i).to_multiset() == u.to_multiset().remove(x));
    assert(u.to_multiset().remove(x).insert(x) =~= u.to_multiset());
}

proof fn lemma_swap_multiset(s: Seq<MergeCandidate>, i: int, j: int)
    requires
        0 <= i < s.len(),
        0 <= j < s.len(),
        i != j,
    ensures
        s.update(i, s[j]).update(j, s[i]).to_multiset() == s.to_multiset(),
{
    broadcast use vstd::seq_lib::group_to_multiset_ensures;

    lemma_update_multiset(s, i, s[j]);
    lemma_update_multiset(s.update(i, s[j]), j, s[i]);
    assert(s.contains(s[i]));
    assert(s.to_multiset().count(s[i]) > 0);
    assert(s.update(i, s[j]).update(j, s[i]).to_multiset() =~= s.to_multiset());
}

impl CandidateHeap {
    pub closed spec fn wf(&self) -> bool {
        is_heap(self.items@)
    }

    pub fn new() -> (r: Self)
        ensures
            r.wf(),
            r@ == Multiset::<MergeCandidate>::empty(),
    {
        broadcast use vstd::seq_lib::group_to_multiset_ensures;

        let r = CandidateHeap { items: Vec::new() };
        assert(r@ =~= Multiset::<MergeCandidate>::empty());
        r
    }

    /// How many candidates are queued.
    pub fn len(&self) -> (n: usize)
        ensures
            n == self@.len(),
    {
        broadcast use vstd::seq_lib::group_to_multiset_ensures;

        self.items.len()
    }

    fn swap(&mut self, i: usize, j: usize)
        requires
            i < old(self).items@.len(),
            j < old(self).items@.len(),
            i != j,
        ensures
            final(self).items@ == old(self).items@.update(i as int, old(self).items@[j as int]).update(
                j as int,
                old(self).items@[i as int],
            ),
            final(self)@ == old(self)@,
    {
        let x = self.items[i];
        let y = self.items[j];
        self.items.set(i, y);
        self.items.set(j, x);
        proof {
            lemma_swap_multiset(old(self).items@, i as int, j as int);
        }
    }

    /// Queues a candidate.
    pub fn push(&mut self, c: MergeCandidate)
        requires
            old(self).wf(),
        ensures
            final(self).wf(),
            final(self)@ == old(self)@.insert(c),
    {
        broadcast use vstd::seq_lib::group_to_multiset_ensures;

        let mut i: usize = self.items.len();
        self.items.push(c);
        let ghost all = self@;
        while i > 0
            invariant
                i < self.items@.len(),
                self@ == all,
                all == old(self)@.insert(c),
                heap_up(self.items@, i as int),
            decreases i,
        {
            let p: usize = (i - 1) / 2;
            assert(p == parent(i as int));
            if !self.items[p].is_below(&self.items[i]) {
                assert(is_heap(self.items@));
                return;
            }
            let ghost s = self.items@;
            self.swap(p, i);
            proof {
                let t = self.items@;
                assert forall|k: int| 0 < k < t.len() && k != p implies !ranks_below(
                    t[parent(k)],
                    #[trigger] t[k],
                ) by {
                    assert(!ranks_below(s[parent(k)], s[k]) || k == i);
                    if parent(k) == i {
                        assert(!ranks_below(s[parent(i as int)], s[k]));
                    }
                }
                assert forall|k: int| 0 < k < t.len() && parent(k) == p && p > 0 implies !ranks_below(
                    t[parent(p as int)],
                    #[trigger] t[k],
                ) by {
                    assert(!ranks_below(s[parent(p as int)], s[p as int]));
                    if k != i {
                        assert(!ranks_below(s[parent(k)], s[k]));
                    }
                }
            }
            i = p;
        }
    }

    /// Takes out the candidate that ranks highest.
    pub fn pop(&mut self) -> (r: Option<MergeCandidate>)
        requires
            old(self).wf(),
        ensures
            final(self).wf(),
            match r {
                Some(c) => {
                    &&& old(self)@.contains(c)
                    &&& forall|d: MergeCandidate| old(self)@.contains(d) ==> !ranks_below(c, d)
                    &&& final(self)@ == old(self)@.remove(c)
                },
                None => old(self)@ == Multiset::<MergeCandidate>::empty() && final(self)@ == old(
                    self,
                )@,
            },
    {
        broadcast use vstd::seq_lib::group_to_multiset_ensures;

        let n: usize = self.items.len();
        if n == 0 {
            assert(self@ =~= Multiset::<MergeCandidate>::empty());
            return None;
        }
        let ghost s0 = self.items@;
        let top = self.items[0];
        proof {
            assert(s0.contains(top));
            assert forall|d: MergeCandidate| old(self)@.contains(d) implies !ranks_below(top, d) by {
                assert(s0.contains(d));
                let i = choose|i: int| 0 <= i < s0.len() && s0[i] == d;
                lemma_root_is_greatest(s0, i);
            }
        }
        if n > 1 {
            self.swap(0, n - 1);
        }
        let ghost s1 = self.items@;
        self.items.pop();
        proof {
            assert(s1[n - 1] == top);
            assert(s1.remove(n - 1) =~= self.items@);
            assert(self@ == old(self)@.remove(top));
        }
        let ghost rest = self@;
        let mut i: usize = 0;
        let m: usize = self.items.len();
        proof {
            let t = self.items@;
            assert forall|k: int| 0 < k < t.len() && parent(k) != 0 implies !ranks_below(
                t[parent(k)],
                #[trigger] t[k],
            ) by {
                assert(!ranks_below(s0[parent(k)], s0[k]));
            }
        }
        while i < m / 2
            invariant
                m == self.items@.len(),
                i < m || m == 0,
                self@ == rest,
                rest == old(self)@.remove(top),
                old(self)@.contains(top),
                forall|d: MergeCandidate| old(self)@.contains(d) ==> !ranks_below(top, d),
                heap_down(self.items@, i as int),
            decreases m - i,
        {
            let l: usize = 2 * i + 1;
            let mut c: usize = l;
            if l + 1 < m && self.items[l].is_below(&self.items[l + 1]) {
                c = l + 1;
            }
            let ghost s = self.items@;
            proof {
                assert(parent(c as int) == i);
                assert forall|k: int| 0 < k < s.len() && parent(k) == i implies !ranks_below(
                    s[c as int],
                    #[trigger] s[k],
                ) by {
                    assert(k == l || k == l + 1);
                }
            }
            if !self.items[i].is_below(&self.items[c]) {
                assert forall|k: int| 0 < k < s.len() implies !ranks_below(s[parent(k)], #[trigger] s[k]) by {
                    if parent(k) == i {
                        assert(!ranks_below(s[c as int], s[k]));
                    }
                }
                return Some(top);
            }
            self.swap(i, c);
            proof {
                let t = self.items@;
                assert forall|k: int| 0 < k < t.len() && parent(k) != c implies !ranks_below(
                    t[parent(k)],
                    #[trigger] t[k],
                ) by {
                    if parent(k) == i {
                        assert(!ranks_below(s[c as int], s[k]));
                    } else if k == i {
                        assert(!ranks_below(s[parent(i as int)], s[c as int]));
                    } else {
                        assert(!ranks_below(s[parent(k)], s[k]));
                    }
                }
                assert forall|k: int| 0 < k < t.len() && parent(k) == c && c > 0 implies !ranks_below(
                    t[parent(c as int)],
                    #[trigger] t[k],
                ) by {
                    assert(!ranks_below(s[parent(k)], s[k]));
                }
            }
            i = c;
        }
        proof {
            let t = self.items@;
            assert forall|k: int| 0 < k < t.len() implies !ranks_below(t[parent(k)], #[trigger] t[k]) by {
                assert(parent(k) < m / 2);
            }
        }
        Some(top)
    }
}

/// The order goes by rank first, however frequent a pair is; then by frequency, however
/// great the ids are; and only where both are the same by the ids, the left one first.
pub proof fn law_rank_then_frequency(x: MergeCandidate, y: MergeCandidate)
    ensures
        x.rank < y.rank ==> ranks_below(x, y) && !ranks_below(y, x),
        x.rank == y.rank && x.freq < y.freq ==> ranks_below(x, y) && !ranks_below(y, x),
        x.rank == y.rank && x.freq == y.freq && x.a < y.a ==> ranks_below(x, y) && !ranks_below(
            y,
            x,
        ),
        x.rank == y.rank && x.freq == y.freq && x.a == y.a && x.b < y.b ==> ranks_below(x, y)
            && !ranks_below(y, x),
        x.rank == y.rank && x.freq == y.freq && x.a == y.a && x.b == y.b ==> !ranks_below(x, y),
{
}

} // verus!
