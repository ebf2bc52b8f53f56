//! Tables and sets keyed by a pair of token ids.
use std::collections::{HashMap, HashSet};
use vstd::prelude::*;

verus! {

/// The number of a token in a vocabulary.
pub type TokenId = usize;

/// How often something occurs.
pub type Frequency = u64;

/// Two adjacent tokens.
pub type Pair = (TokenId, TokenId);

/// The frequency that a table records for a pair; zero where it has no entry.
pub open spec fn freq_of(table: Map<Pair, Frequency>, p: Pair) -> Frequency {
    if table.contains_key(p) {
        table[p]
    } else {
        0
    }
}

/// The table after a pair was seen `by` more times.
pub open spec fn table_inc(table: Map<Pair, Frequency>, p: Pair, by: Frequency) -> Map<Pair, Frequency> {
    table.insert(p, (freq_of(table, p) + by) as u64)
}

/// The table after a pair was seen `by` fewer times. A pair whose frequency
/// reaches zero has no entry any more.
pub open spec fn table_dec(table: Map<Pair, Frequency>, p: Pair, by: Frequency) -> Map<Pair, Frequency> {
    if table.contains_key(p) {
        if by < table[p] {
            table.insert(p, (table[p] - by) as u64)
        } else {
            table.remove(p)
        }
    } else {
        table
    }
}

/// A sequence of distinct pairs with `p` among them.
pub open spec fn touch(seen: Seq<Pair>, p: Pair) -> Seq<Pair> {
    if seen.contains(p) {
        seen
    } else {
        seen.push(p)
    }
}

pub(crate) open spec fn pack(p: Pair) -> u128 {
    (p.0 * 0x1_0000_0000_0000_0000 + p.1) as u128
}

pub(crate) open spec fn unpack(k: u128) -> Pair {
    ((k / 0x1_0000_0000_0000_0000) as usize, (k % 0x1_0000_0000_0000_0000) as usize)
}

pub(crate) open spec fn is_packed(k: u128) -> bool {
    pack(unpack(k)) == k
}

pub(crate) proof fn lemma_pack(p: Pair)
    ensures
        pack(p) == p.0 * 0x1_0000_0000_0000_0000 + p.1,
        unpack(pack(p)) == p,
        is_packed(pack(p)),
{
    let a = p.0 as int;
    let b = p.1 as int;
    assert(0 <= a * 0x1_0000_0000_0000_0000 + b <= u128::MAX);
    assert((a * 0x1_0000_0000_0000_0000 + b) / 0x1_0000_0000_0000_0000 == a);
    assert((a * 0x1_0000_0000_0000_0000 + b) % 0x1_0000_0000_0000_0000 == b);
}

fn pack_pair(a: TokenId, b: TokenId) -> (k: u128)
    ensures
        k == pack((a, b)),
{
    proof {
        lemma_pack((a, b));
    }
    (a as u128) * 0x1_0000_0000_0000_0000 + (b as u128)
}

/// A table of pair frequencies.
pub struct PairTable {
    entries: HashMap<u128, Frequency>,
}

impl View for PairTable {
    type V = Map<Pair, Frequency>;

    closed spec fn view(&self) -> Map<Pair, Frequency> {
        Map::new(|p: Pair| self.entries@.contains_key(pack(p)), |p: Pair| self.entries@[pack(p)])
    }
}

impl PairTable {
    pub closed spec fn wf(&self) -> bool {
        forall|k: u128| #[trigger] self.entries@.contains_key(k) ==> is_packed(k)
    }

    pub fn new() -> (r: Self)
        ensures
            r.wf(),
            r@ == Map::<Pair, Frequency>::empty(),
    {
        let r = PairTable { entries: HashMap::new() };
        assert(r@ =~= Map::<Pair, Frequency>::empty());
        r
    }

    /// The frequency recorded for a pair.
    pub fn get(&self, a: TokenId, b: TokenId) -> (f: Frequency)
        ensures
            f == freq_of(self@, (a, b)),
    {
        match self.entries.get(&pack_pair(a, b)) {
            Some(f) => *f,
            None => 0,
        }
    }

    fn put(&mut self, a: TokenId, b: TokenId, f: Frequency)
        requires
            old(self).wf(),
        ensures
            final(self).wf(),
            final(self)@ == old(self)@.insert((a, b), f),
    {
        let k: u128 = pack_pair(a, b);
        proof {
            lemma_pack((a, b));
        }
        self.entries.insert(k, f);
        proof {
            assert forall|p: Pair| #[trigger] self@.contains_key(p) <==> old(self)@.insert((a, b), f).contains_key(p) by {
                lemma_pack(p);
            }
            assert forall|p: Pair| #[trigger] self@.contains_key(p) implies self@[p] == old(self)@.insert((a, b), f)[p] by {
                lemma_pack(p);
            }
            assert(self@ =~= old(self)@.insert((a, b), f));
        }
    }

    /// Drops the entry of a pair.
    pub fn remove(&mut self, a: TokenId, b: TokenId)
        requires
            old(self).wf(),
        ensures
            final(self).wf(),
            final(self)@ == old(self)@.remove((a, b)),
    {
        let k: u128 = pack_pair(a, b);
        proof {
            lemma_pack((a, b));
        }
        self.entries.remove(&k);
        proof {
            assert forall|p: Pair| #[trigger] self@.contains_key(p) <==> old(self)@.remove((a, b)).contains_key(p) by {
                lemma_pack(p);
            }
            assert(self@ =~= old(self)@.remove((a, b)));
        }
    }

    /// Records that a pair was seen `by` more times.
    pub fn inc_pair(&mut self, a: TokenId, b: TokenId, by: Frequency)
        requires
            old(self).wf(),
            freq_of(old(self)@, (a, b)) + by <= u64::MAX,
        ensures
            final(self).wf(),
            final(self)@ == table_inc(old(self)@, (a, b), by),
    {
        let f: u64 = self.get(a, b);
        self.put(a, b, f + by);
    }

    /// Records that a pair was seen `by` fewer times, and drops its entry when
    /// nothing is left of it.
    pub fn dec_pair(&mut self, a: TokenId, b: TokenId, by: Frequency)
        requires
            old(self).wf(),
        ensures
            final(self).wf(),
            final(self)@ == table_dec(old(self)@, (a, b), by),
    {
        let k: u128 = pack_pair(a, b);
        let current: Option<u64> = match self.entries.get(&k) {
            Some(f) => Some(*f),
            None => None,
        };
        if let Some(f) = current {
            let rest: u64 = f.saturating_sub(by);
            if rest == 0 {
                self.remove(a, b);
            } else {
                self.put(a, b, rest);
            }
        }
    }

    /// The pairs that have an entry, each once, in no particular order.
    pub fn keys(&self) -> (r: Vec<Pair>)
        requires
            self.wf(),
        ensures
            r@.no_duplicates(),
            r@.to_set() == self@.dom(),
    {
        let mut out: Vec<Pair> = Vec::new();
        let ghost mut ks: Seq<u128> = Seq::empty();
        for k in it: self.entries.keys()
            invariant
                self.wf(),
                ks.len() == it.index(),
                it.seq().unref().to_set() == self.entries@.dom(),
                it.seq().no_duplicates(),
                it.seq().len() == self.entries@.dom().len(),
                ks == it.seq().unref().take(it.index() as int),
                out@ == ks.map_values(|k: u128| unpack(k)),
                it.index() == it.seq().len() ==> ks == it.seq().unref(),
                it.index() == it.seq().len() ==> ks.to_set() == self.entries@.dom(),
                ks.no_duplicates(),
        {
            let k: u128 = *k;
            proof {
                assert(it.seq().unref()[it.index() as int] == k);
                assert(it.seq().unref().to_set().contains(k));
                assert(is_packed(k));
                assert(it.seq().unref().take(it.index() + 1) =~= ks.push(k));
                assert(ks.push(k).map_values(|k: u128| unpack(k)) =~= ks.map_values(
                    |k: u128| unpack(k),
                ).push(unpack(k)));
                ks = ks.push(k);
                assert(ks.len() == it.seq().len() ==> ks =~= it.seq().unref());
            }
            out.push(
                ((k / 0x1_0000_0000_0000_0000) as usize, (k % 0x1_0000_0000_0000_0000) as usize),
            );
        }
        proof {
            assert(ks.to_set() == self.entries@.dom());
            assert forall|i: int, j: int| 0 <= i < out@.len() && 0 <= j < out@.len() && i != j implies out@[i] != out@[j] by {
                assert(ks.to_set().contains(ks[i]) && ks.to_set().contains(ks[j]));
                assert(is_packed(ks[i]) && is_packed(ks[j]));
                assert(out@[i] == unpack(ks[i]) && out@[j] == unpack(ks[j]));
            }
            assert forall|p: Pair| #[trigger] self@.dom().contains(p) implies out@.contains(p) by {
                lemma_pack(p);
                assert(ks.to_set().contains(pack(p)));
                let i = choose|i: int| 0 <= i < ks.len() && ks[i] == pack(p);
                assert(out@[i] == p);
            }
            assert forall|p: Pair| #[trigger] out@.contains(p) implies self@.dom().contains(p) by {
                let i = choose|i: int| 0 <= i < out@.len() && out@[i] == p;
                assert(ks.to_set().contains(ks[i]));
                assert(is_packed(ks[i]));
            }
            assert(out@.to_set() =~= self@.dom());
        }
        out
    }
}

/// A set of pairs that remembers the order in which they came.
pub struct PairSet {
    seen: HashSet<u128>,
    list: Vec<Pair>,
}

impl View for PairSet {
    type V = Seq<Pair>;

    closed spec fn view(&self) -> Seq<Pair> {
        self.list@
    }
}

impl PairSet {
    pub closed spec fn wf(&self) -> bool {
        &&& self.list@.no_duplicates()
        &&& forall|p: Pair| self.seen@.contains(#[trigger] pack(p)) <==> self.list@.contains(p)
    }

    pub fn new() -> (r: Self)
        ensures
            r.wf(),
            r@ == Seq::<Pair>::empty(),
    {
        PairSet { seen: HashSet::new(), list: Vec::new() }
    }

    pub fn insert(&mut self, a: TokenId, b: TokenId)
        requires
            old(self).wf(),
        ensures
            final(self).wf(),
            final(self)@ == touch(old(self)@, (a, b)),
    {
        let k: u128 = pack_pair(a, b);
        if !self.seen.contains(&k) {
            self.seen.insert(k);
            self.list.push((a, b));
            proof {
                assert forall|p: Pair| self.seen@.contains(#[trigger] pack(p)) <==> self.list@.contains(p) by {
                    lemma_pack(p);
                    lemma_pack((a, b));
                    assert(self.list@ == old(self).list@.push((a, b)));
                    if old(self).list@.contains(p) {
                        let i = choose|i: int| 0 <= i < old(self).list@.len() && old(self).list@[i] == p;
                        assert(self.list@[i] == p);
                    }
                    assert(self.list@[old(self).list@.len() as int] == (a, b));
                }
            }
        }
    }

    pub fn into_vec(self) -> (r: Vec<Pair>)
        requires
            self.wf(),
        ensures
            r@ == self@,
            r@.no_duplicates(),
    {
        self.list
    }
}

/// A table answers with what it records, and with zero for what it does not. Seeing a pair
/// more often or less often changes its frequency by as much, but never below zero, and
/// the frequency of no other pair.
pub proof fn law_frequencies(table: Map<Pair, Frequency>, p: Pair, by: Frequency, q: Pair)
    ensures
        table.contains_key(p) ==> freq_of(table, p) == table[p],
        !table.contains_key(p) ==> freq_of(table, p) == 0,
        freq_of(table, p) + by <= u64::MAX ==> freq_of(table_inc(table, p, by), p) == freq_of(
            table,
            p,
        ) + by,
        by <= freq_of(table, p) ==> freq_of(table_dec(table, p, by), p) == freq_of(table, p) - by,
        by > freq_of(table, p) ==> freq_of(table_dec(table, p, by), p) == 0,
        q != p ==> freq_of(table_inc(table, p, by), q) == freq_of(table, q),
        q != p ==> freq_of(table_dec(table, p, by), q) == freq_of(table, q),
        table_dec(table, p, by).contains_key(p) ==> table_dec(table, p, by)[p] > 0,
{
}

/// A pair that was touched is named, once and behind those that were touched before it.
pub proof fn law_touching(seen: Seq<Pair>, p: Pair)
    requires
        seen.no_duplicates(),
    ensures
        touch(seen, p).contains(p),
        touch(seen, p).no_duplicates(),
        seen.is_prefix_of(touch(seen, p)),
        seen.contains(p) ==> touch(seen, p) == seen,
        !seen.contains(p) ==> touch(seen, p).len() == seen.len() + 1,
{
    if !seen.contains(p) {
        assert(seen.push(p)[seen.len() as int] == p);
        assert(seen.push(p).take(seen.len() as int) =~= seen);
    } else {
        assert(seen.take(seen.len() as int) =~= seen);
    }
}

} // verus!
