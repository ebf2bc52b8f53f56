//! The word-frequency dictionary: how often each word, as a sequence of tokens,
//! occurs.
use crate::counting::WordModel;
use crate::counting;
use crate::pairs::{Frequency, Pair, TokenId};
use std::collections::HashMap;
use vstd::prelude::*;

verus! {

/// One deduplicated word type: its tokens, and how many times it occurred.
pub struct Word {
    pub tokens: Vec<TokenId>,
    pub count: Frequency,
}

impl View for Word {
    type V = WordModel;

    open spec fn view(&self) -> WordModel {
        WordModel { tokens: self.tokens@, count: self.count }
    }
}

/// What a list of words stands for.
pub open spec fn word_models(words: Seq<Word>) -> Seq<WordModel> {
    words.map_values(|w: Word| w@)
}

/// The place of a word in a dictionary.
pub open spec fn place_of(d: Seq<WordModel>, t: Seq<TokenId>) -> Option<int>
    decreases d.len(),
{
    if d.len() == 0 {
        None
    } else if d.last().tokens == t {
        Some(d.len() - 1)
    } else {
        place_of(d.drop_last(), t)
    }
}

/// A dictionary in which a word was counted once more.
pub open spec fn tallied(d: Seq<WordModel>, t: Seq<TokenId>) -> Seq<WordModel> {
    match place_of(d, t) {
        Some(k) => d.update(k, WordModel { tokens: t, count: (d[k].count + 1) as u64 }),
        None => d.push(WordModel { tokens: t, count: 1 }),
    }
}

/// A dictionary in which words were counted one after the other.
pub open spec fn tallied_all(d: Seq<WordModel>, ts: Seq<Seq<TokenId>>) -> Seq<WordModel>
    decreases ts.len(),
{
    if ts.len() == 0 {
        d
    } else {
        tallied(tallied_all(d, ts.drop_last()), ts.last())
    }
}

/// The words of sequences of tokens, each of which counts once.
pub open spec fn once_each(ts: Seq<Seq<TokenId>>) -> Seq<WordModel> {
    ts.map_values(|t: Seq<TokenId>| WordModel { tokens: t, count: 1 })
}

/// Whether no word stands in a dictionary twice.
pub open spec fn distinct_words(d: Seq<WordModel>) -> bool {
    forall|i: int, j: int|
        0 <= i < j < d.len() ==> (#[trigger] d[i]).tokens != (#[trigger] d[j]).tokens
}

/// How many occurrences a dictionary counts.
pub open spec fn occurrences_in(d: Seq<WordModel>) -> nat
    decreases d.len(),
{
    if d.len() == 0 {
        0
    } else {
        occurrences_in(d.drop_last()) + d.last().count as nat
    }
}

/// A dictionary without the words that occur fewer than `min` times.
pub open spec fn retained(d: Seq<WordModel>, min: Frequency) -> Seq<WordModel> {
    d.filter(|w: WordModel| w.count >= min)
}

// ---------------------------------------------------------------------------
// Facts about dictionaries
// ---------------------------------------------------------------------------

/// The place that was found is that of the word.
pub proof fn lemma_place_of(d: Seq<WordModel>, t: Seq<TokenId>)
    ensures
        match place_of(d, t) {
            Some(k) => 0 <= k < d.len() && d[k].tokens == t,
            None => forall|k: int| 0 <= k < d.len() ==> (#[trigger] d[k]).tokens != t,
        },
    decreases d.len(),
{
    if d.len() > 0 && d.last().tokens != t {
        let e = d.drop_last();
        lemma_place_of(e, t);
        if place_of(e, t) is None {
            assert forall|k: int| 0 <= k < d.len() implies (#[trigger] d[k]).tokens != t by {
                if k < e.len() {
                    assert(e[k] == d[k]);
                }
            }
        }
    }
}

/// No word occurs more often than there are occurrences.
pub proof fn lemma_count_le_occurrences(d: Seq<WordModel>, k: int)
    requires
        0 <= k < d.len(),
    ensures
        d[k].count <= occurrences_in(d),
    decreases d.len(),
{
    if k < d.len() - 1 {
        lemma_count_le_occurrences(d.drop_last(), k);
    }
}

proof fn lemma_occurrences_update(d: Seq<WordModel>, k: int, w: WordModel)
    requires
        0 <= k < d.len(),
    ensures
        occurrences_in(d.update(k, w)) == occurrences_in(d) - d[k].count + w.count,
    decreases d.len(),
{
    let u = d.update(k, w);
    if k < d.len() - 1 {
        lemma_occurrences_update(d.drop_last(), k, w);
        assert(u.drop_last() =~= d.drop_last().update(k, w));
    } else {
        assert(u.drop_last() =~= d.drop_last());
    }
}

proof fn lemma_tallied(d: Seq<WordModel>, t: Seq<TokenId>)
    requires
        distinct_words(d),
        occurrences_in(d) < u64::MAX,
    ensures
        distinct_words(tallied(d, t)),
        occurrences_in(tallied(d, t)) == occurrences_in(d) + 1,
        forall|f: spec_fn(Pair) -> bool| #[trigger]
            counting::words_weight(tallied(d, t), f) == counting::words_weight(d, f)
                + counting::weight(t, 1, f),
{
    lemma_place_of(d, t);
    match place_of(d, t) {
        Some(k) => {
            let w = WordModel { tokens: t, count: (d[k].count + 1) as u64 };
            lemma_count_le_occurrences(d, k);
            lemma_occurrences_update(d, k, w);
            assert forall|f: spec_fn(Pair) -> bool| #[trigger] counting::words_weight(
                tallied(d, t),
                f,
            ) == counting::words_weight(d, f) + counting::weight(t, 1, f) by {
                lemma_weight_update(d, k, w, f);
                lemma_weight_sum(t, d[k].count as nat, 1, f);
            }
        },
        None => {
            let e = d.push(WordModel { tokens: t, count: 1 });
            assert(e.drop_last() =~= d);
        },
    }
}

proof fn lemma_weight_sum(t: Seq<TokenId>, x: nat, y: nat, f: spec_fn(Pair) -> bool)
    ensures
        counting::weight(t, x + y, f) == counting::weight(t, x, f) + counting::weight(t, y, f),
    decreases t.len(),
{
    if t.len() >= 2 {
        lemma_weight_sum(t.drop_last(), x, y, f);
    }
}

proof fn lemma_weight_update(d: Seq<WordModel>, k: int, w: WordModel, f: spec_fn(Pair) -> bool)
    requires
        0 <= k < d.len(),
    ensures
        counting::words_weight(d.update(k, w), f) + counting::weight(
            d[k].tokens,
            d[k].count as nat,
            f,
        ) == counting::words_weight(d, f) + counting::weight(w.tokens, w.count as nat, f),
    decreases d.len(),
{
    let u = d.update(k, w);
    if k < d.len() - 1 {
        lemma_weight_update(d.drop_last(), k, w, f);
        assert(u.drop_last() =~= d.drop_last().update(k, w));
    } else {
        assert(u.drop_last() =~= d.drop_last());
    }
}

/// What is left of a dictionary was in it.
pub proof fn lemma_retained(d: Seq<WordModel>, min: Frequency)
    ensures
        distinct_words(d) ==> distinct_words(retained(d, min)),
        occurrences_in(retained(d, min)) <= occurrences_in(d),
        forall|k: int|
            0 <= k < retained(d, min).len() ==> d.contains(#[trigger] retained(d, min)[k]),
    decreases d.len(),
{
    reveal(Seq::filter);
    if d.len() > 0 {
        let e = d.drop_last();
        let r = retained(e, min);
        lemma_retained(e, min);
        let s = retained(d, min);
        if d.last().count >= min {
            assert(s == r.push(d.last()));
            assert(s.drop_last() =~= r);
        } else {
            assert(s == r);
        }
        assert forall|k: int| 0 <= k < s.len() implies d.contains(#[trigger] s[k]) by {
            if k < r.len() {
                assert(e.contains(r[k]));
                let i = choose|i: int| 0 <= i < e.len() && e[i] == r[k];
                assert(d[i] == s[k]);
            } else {
                assert(d[d.len() - 1] == s[k]);
            }
        }
        if distinct_words(d) {
            assert forall|i: int, j: int| 0 <= i < j < e.len() implies (#[trigger] e[i]).tokens != (
            #[trigger] e[j]).tokens by {
                assert(d[i] == e[i] && d[j] == e[j]);
            }
            assert forall|i: int, j: int| 0 <= i < j < s.len() implies (#[trigger] s[i]).tokens != (
            #[trigger] s[j]).tokens by {
                if j < r.len() {
                    assert(r[i].tokens != r[j].tokens);
                } else {
                    assert(e.contains(r[i]));
                    let m = choose|m: int| 0 <= m < e.len() && e[m] == r[i];
                    assert(d[m].tokens != d[d.len() - 1].tokens);
                }
            }
        }
    }
}

// ---------------------------------------------------------------------------
// The dictionary
// ---------------------------------------------------------------------------

spec fn hash_of(t: Seq<TokenId>) -> int
    decreases t.len(),
{
    if t.len() == 0 {
        0
    } else {
        (hash_of(t.drop_last()) * 1000003 + t.last() as int % 4294967291) % 4294967291
    }
}

fn hash_tokens(t: &Vec<TokenId>) -> (h: u64)
    ensures
        h == hash_of(t@),
{
    let mut h: u64 = 0;
    let mut i: usize = 0;
    while i < t.len()
        invariant
            i <= t@.len(),
            h == hash_of(t@.take(i as int)),
            0 <= h < 4294967291,
        decreases t@.len() - i,
    {
        assert(t@.take(i + 1).drop_last() =~= t@.take(i as int));
        let x: u64 = t[i] as u64 % 4294967291;
        h = (h * 1000003 + x) % 4294967291;
        i += 1;
    }
    assert(t@.take(t@.len() as int) =~= t@);
    h
}

fn same_tokens(x: &Vec<TokenId>, y: &Vec<TokenId>) -> (r: bool)
    ensures
        r == (x@ == y@),
{
    if x.len() != y.len() {
        return false;
    }
    let mut i: usize = 0;
    while i < x.len()
        invariant
            i <= x@.len() == y@.len(),
            forall|j: int| 0 <= j < i ==> #[trigger] x@[j] == y@[j],
        decreases x@.len() - i,
    {
        if x[i] != y[i] {
            return false;
        }
        i += 1;
    }
    assert(x@ =~= y@);
    true
}

/// A word-frequency dictionary. Its words stand in the order in which they were
/// first seen.
pub struct WordCounts {
    entries: Vec<Word>,
    buckets: HashMap<u64, Vec<usize>>,
    occurrences: u64,
}

impl View for WordCounts {
    type V = Seq<WordModel>;

    closed spec fn view(&self) -> Seq<WordModel> {
        word_models(self.entries@)
    }
}

/// Whether every word is in the bucket of its hash.
spec fn indexed(d: Seq<WordModel>, buckets: Map<u64, Vec<usize>>) -> bool {
    &&& forall|k: int|
        0 <= k < d.len() ==> buckets.contains_key(#[trigger] hash_of(d[k].tokens) as u64)
            && buckets[hash_of(d[k].tokens) as u64]@.contains(k as usize)
    &&& forall|h: u64, i: int|
        buckets.contains_key(h) && 0 <= i < buckets[h]@.len() ==> #[trigger] buckets[h]@[i]
            < d.len()
}

impl WordCounts {
    /// A dictionary is valid when no word stands in it twice, and when it counts no
    /// more occurrences than there were.
    pub closed spec fn wf(&self) -> bool {
        &&& distinct_words(self@)
        &&& occurrences_in(self@) <= self.occurrences
        &&& indexed(self@, self.buckets@)
    }

    /// How many occurrences were counted in all.
    pub closed spec fn total(&self) -> u64 {
        self.occurrences
    }

    /// What a valid dictionary keeps.
    pub proof fn lemma_wf(&self)
        requires
            self.wf(),
        ensures
            distinct_words(self@),
            occurrences_in(self@) <= self.total(),
    {
    }

    /// A dictionary without words.
    pub fn new() -> (r: Self)
        ensures
            r.wf(),
            r@ == Seq::<WordModel>::empty(),
            r.total() == 0,
    {
        let r = WordCounts { entries: Vec::new(), buckets: HashMap::new(), occurrences: 0 };
        assert(r@ =~= Seq::<WordModel>::empty());
        r
    }

    /// How many different words there are.
    pub fn len(&self) -> (n: usize)
        ensures
            n == self@.len(),
    {
        self.entries.len()
    }

    /// How many occurrences were counted in all.
    pub fn occurrences(&self) -> (n: u64)
        ensures
            n == self.total(),
    {
        self.occurrences
    }

    fn find(&self, tokens: &Vec<TokenId>, h: u64) -> (r: Option<usize>)
        requires
            self.wf(),
            h == hash_of(tokens@),
        ensures
            match r {
                Some(k) => k < self@.len() && self@[k as int].tokens == tokens@ && place_of(
                    self@,
                    tokens@,
                ) == Some(k as int),
                None => place_of(self@, tokens@) is None,
            },
    {
        proof {
            lemma_place_of(self@, tokens@);
        }
        match self.buckets.get(&h) {
            None => {
                assert(place_of(self@, tokens@) is None) by {
                    if let Some(k) = place_of(self@, tokens@) {
                        assert(self.buckets@.contains_key(hash_of(self@[k].tokens) as u64));
                    }
                }
                None
            },
            Some(bucket) => {
                let mut i: usize = 0;
                while i < bucket.len()
                    invariant
                        i <= bucket@.len(),
                        self.wf(),
                        h == hash_of(tokens@),
                        self.buckets@.contains_key(h),
                        self.buckets@[h] == *bucket,
                        match place_of(self@, tokens@) {
                            Some(k) => 0 <= k < self@.len() && self@[k].tokens == tokens@,
                            None => forall|k: int|
                                0 <= k < self@.len() ==> (#[trigger] self@[k]).tokens != tokens@,
                        },
                        forall|j: int|
                            0 <= j < i ==> self@[#[trigger] bucket@[j] as int].tokens != tokens@,
                    decreases bucket@.len() - i,
                {
                    let k: usize = bucket[i];
                    assert(self.buckets@[h]@[i as int] < self@.len());
                    if same_tokens(&self.entries[k].tokens, tokens) {
                        proof {
                            assert(self@[k as int].tokens == tokens@);
                            let m = place_of(self@, tokens@)->0;
                            if m < k {
                                assert(self@[m].tokens != self@[k as int].tokens);
                            }
                            if (k as int) < m {
                                assert(self@[k as int].tokens != self@[m].tokens);
                            }
                        }
                        return Some(k);
                    }
                    assert(self@[k as int].tokens != tokens@);
                    i += 1;
                }
                assert(place_of(self@, tokens@) is None) by {
                    if let Some(k) = place_of(self@, tokens@) {
                        assert(self@.len() == self.entries.len());
                        assert(self.buckets@[hash_of(self@[k].tokens) as u64]@.contains(k as usize));
                        let j = choose|j: int| 0 <= j < bucket@.len() && bucket@[j] == k as usize;
                        assert(self@[bucket@[j] as int].tokens != tokens@);
                    }
                }
                None
            },
        }
    }

    /// Puts a word at the end that is not in the dictionary yet.
    fn append(&mut self, tokens: Vec<TokenId>, count: Frequency, h: u64)
        requires
            indexed(old(self)@, old(self).buckets@),
            h == hash_of(tokens@),
        ensures
            indexed(final(self)@, final(self).buckets@),
            final(self)@ == old(self)@.push(WordModel { tokens: tokens@, count }),
            final(self).total() == old(self).total(),
    {
        let k: usize = self.entries.len();
        let ghost d0 = self@;
        let ghost b0 = self.buckets@;
        let mut bucket: Vec<usize> = match self.buckets.remove(&h) {
            Some(b) => b,
            None => Vec::new(),
        };
        let ghost old_bucket = bucket@;
        bucket.push(k);
        self.buckets.insert(h, bucket);
        self.entries.push(Word { tokens, count });
        proof {
            let w = WordModel { tokens: tokens@, count };
            assert(self@ =~= d0.push(w));
            assert forall|j: int| 0 <= j < self@.len() implies self.buckets@.contains_key(
                #[trigger] hash_of(self@[j].tokens) as u64,
            ) && self.buckets@[hash_of(self@[j].tokens) as u64]@.contains(j as usize) by {
                let hj = hash_of(self@[j].tokens) as u64;
                if j < d0.len() {
                    assert(d0[j] == self@[j]);
                    assert(b0.contains_key(hash_of(d0[j].tokens) as u64));
                    assert(b0[hj]@.contains(j as usize));
                    if hj == h {
                        let i = choose|i: int| 0 <= i < b0[hj]@.len() && b0[hj]@[i] == j as usize;
                        assert(bucket@[i] == j as usize);
                    }
                } else {
                    assert(bucket@[old_bucket.len() as int] == k);
                }
            }
            assert forall|x: u64, i: int|
                self.buckets@.contains_key(x) && 0 <= i < self.buckets@[x]@.len() implies
            #[trigger] self.buckets@[x]@[i] < self@.len() by {
                if x == h {
                    if i < old_bucket.len() {
                        assert(b0[h]@[i] < d0.len());
                    }
                } else {
                    assert(b0[x]@[i] < d0.len());
                }
            }
        }
    }

    /// Counts a word once more.
    pub fn add_word(&mut self, tokens: Vec<TokenId>)
        requires
            old(self).wf(),
            old(self).total() < u64::MAX,
        ensures
            final(self).wf(),
            final(self)@ == tallied(old(self)@, tokens@),
            final(self).total() == old(self).total() + 1,
    {
        let ghost d0 = self@;
        proof {
            lemma_tallied(d0, tokens@);
        }
        let h: u64 = hash_tokens(&tokens);
        match self.find(&tokens, h) {
            Some(k) => {
                proof {
                    lemma_count_le_occurrences(d0, k as int);
                }
                let count: u64 = self.entries[k].count + 1;
                self.entries.set(k, Word { tokens, count });
                proof {
                    assert(self@ =~= d0.update(k as int, WordModel { tokens: tokens@, count }));
                    assert forall|j: int| 0 <= j < self@.len() implies self.buckets@.contains_key(
                        #[trigger] hash_of(self@[j].tokens) as u64,
                    ) && self.buckets@[hash_of(self@[j].tokens) as u64]@.contains(j as usize) by {
                        assert(self@[j].tokens == d0[j].tokens);
                        assert(self.buckets@.contains_key(hash_of(d0[j].tokens) as u64));
                    }
                }
            },
            None => {
                self.append(tokens, 1, h);
            },
        }
        self.occurrences = self.occurrences + 1;
    }

    /// Counts words one after the other.
    pub fn add_words(&mut self, words: Vec<Vec<TokenId>>)
        requires
            old(self).wf(),
            old(self).total() + words@.len() <= u64::MAX,
        ensures
            final(self).wf(),
            final(self)@ == tallied_all(old(self)@, token_lists(words@)),
            final(self).total() == old(self).total() + words@.len(),
    {
        let ghost d0 = self@;
        let ghost n0 = self.total();
        let ghost ts = token_lists(words@);
        for tokens in it: words
            invariant
                it.seq() == words@,
                self.wf(),
                ts == token_lists(words@),
                n0 + words@.len() <= u64::MAX,
                self.total() == n0 + it.index(),
                self@ == tallied_all(d0, ts.take(it.index() as int)),
        {
            proof {
                let k = it.index() as int;
                assert(ts.take(k + 1).drop_last() =~= ts.take(k));
                assert(ts.take(k + 1).last() == tokens@);
            }
            self.add_word(tokens);
        }
        assert(ts.take(ts.len() as int) =~= ts);
    }

    /// Drops the words that occur fewer than `min` times. The occurrences that were
    /// counted stay counted.
    pub fn retain_min(self, min: Frequency) -> (r: Self)
        requires
            self.wf(),
        ensures
            r.wf(),
            r@ == retained(self@, min),
            r.total() == self.total(),
    {
        let ghost d = self@;
        let total: u64 = self.occurrences;
        let mut out = WordCounts::new();
        proof {
            reveal(Seq::filter);
            assert(out@ =~= retained(d.take(0), min));
        }
        let entries = self.entries;
        for w in it: entries
            invariant
                it.seq() == entries@,
                d == word_models(entries@),
                indexed(out@, out.buckets@),
                out@ == retained(d.take(it.index() as int), min),
                out.total() == 0,
        {
            proof {
                reveal(Seq::filter);
                let k = it.index() as int;
                assert(d.take(k + 1).drop_last() =~= d.take(k));
                assert(d.take(k + 1).last() == w@);
            }
            if w.count >= min {
                let h: u64 = hash_tokens(&w.tokens);
                out.append(w.tokens, w.count, h);
            }
        }
        proof {
            assert(d.take(d.len() as int) =~= d);
            lemma_retained(d, min);
        }
        out.occurrences = total;
        out
    }

    /// Whether all pair occurrences of the dictionary can be counted by the machine.
    pub fn fits(&self) -> (r: bool)
        ensures
            r == (counting::total_weight(self@) <= u64::MAX),
    {
        let ghost d = self@;
        let mut sum: u64 = 0;
        let mut i: usize = 0;
        while i < self.entries.len()
            invariant
                i <= self.entries@.len(),
                d == word_models(self.entries@),
                sum == counting::total_weight(d.take(i as int)),
            decreases self.entries@.len() - i,
        {
            let w = &self.entries[i];
            proof {
                assert(d.take(i + 1).drop_last() =~= d.take(i as int));
                assert(d.take(i + 1).last() == w@);
                counting::lemma_word_weight(w.tokens@, w.count as nat);
                counting::lemma_words_weight_concat(d.take(i + 1), d.skip(i + 1), counting::any_pair());
                assert(d.take(i + 1) + d.skip(i + 1) =~= d);
            }
            let n: usize = w.tokens.len();
            let places: u128 = if n > 1 {
                (n - 1) as u128
            } else {
                0
            };
            assert(places * (w.count as u128) <= 0xffff_ffff_ffff_ffff * 0xffff_ffff_ffff_ffff)
                by (nonlinear_arith)
                requires
                    places <= 0xffff_ffff_ffff_ffff,
            ;
            let more: u128 = places * (w.count as u128);
            if more > (u64::MAX - sum) as u128 {
                return false;
            }
            sum = sum + more as u64;
            i += 1;
        }
        assert(d.take(d.len() as int) =~= d);
        true
    }

    /// The words of the dictionary.
    pub fn into_words(self) -> (r: Vec<Word>)
        ensures
            word_models(r@) == self@,
    {
        self.entries
    }
}

/// The token sequences of a list.
pub open spec fn token_lists(words: Seq<Vec<TokenId>>) -> Seq<Seq<TokenId>> {
    words.map_values(|w: Vec<TokenId>| w@)
}

// ---------------------------------------------------------------------------
// Laws
// ---------------------------------------------------------------------------

/// What words weigh together where each is counted once.
pub open spec fn raw_weight(ts: Seq<Seq<TokenId>>, f: spec_fn(Pair) -> bool) -> nat
    decreases ts.len(),
{
    if ts.len() == 0 {
        0
    } else {
        raw_weight(ts.drop_last(), f) + counting::weight(ts.last(), 1, f)
    }
}

/// Deduplication loses nothing: the dictionary of some words has each of them once,
/// counts every occurrence, and gives every pair the frequency that it has in the
/// words taken one by one.
pub proof fn law_counting_words(ts: Seq<Seq<TokenId>>)
    requires
        ts.len() <= u64::MAX,
    ensures
        distinct_words(tallied_all(Seq::empty(), ts)),
        occurrences_in(tallied_all(Seq::empty(), ts)) == ts.len(),
        forall|p: Pair| #[trigger]
            counting::pair_count(tallied_all(Seq::empty(), ts), p) == raw_weight(
                ts,
                counting::is_pair(p),
            ),
        counting::total_weight(tallied_all(Seq::empty(), ts)) == raw_weight(
            ts,
            counting::any_pair(),
        ),
{
    lemma_counting_words(ts);
}

proof fn lemma_counting_words(ts: Seq<Seq<TokenId>>)
    requires
        ts.len() <= u64::MAX,
    ensures
        distinct_words(tallied_all(Seq::empty(), ts)),
        occurrences_in(tallied_all(Seq::empty(), ts)) == ts.len(),
        forall|f: spec_fn(Pair) -> bool| #[trigger]
            counting::words_weight(tallied_all(Seq::empty(), ts), f) == raw_weight(ts, f),
    decreases ts.len(),
{
    if ts.len() > 0 {
        let pre = ts.drop_last();
        lemma_counting_words(pre);
        let d = tallied_all(Seq::empty(), pre);
        lemma_tallied(d, ts.last());
        assert forall|f: spec_fn(Pair) -> bool| #[trigger] counting::words_weight(
            tallied_all(Seq::empty(), ts),
            f,
        ) == raw_weight(ts, f) by {
            assert(counting::words_weight(d, f) == raw_weight(pre, f));
        }
    }
}

/// How often a word was counted, and that it has an entry exactly then.
proof fn lemma_entries(ts: Seq<Seq<TokenId>>)
    requires
        ts.len() <= u64::MAX,
    ensures
        forall|w: WordModel| #[trigger]
            tallied_all(Seq::empty(), ts).contains(w) <==> w.count > 0 && w.count
                == ts.to_multiset().count(w.tokens),
    decreases ts.len(),
{
    broadcast use vstd::seq_lib::group_to_multiset_ensures;

    let d = tallied_all(Seq::empty(), ts);
    if ts.len() == 0 {
        assert(ts =~= Seq::<Seq<TokenId>>::empty());
    } else {
        let pre = ts.drop_last();
        let t = ts.last();
        let e = tallied_all(Seq::empty(), pre);
        lemma_entries(pre);
        lemma_counting_words(pre);
        lemma_place_of(e, t);
        assert(ts =~= pre.push(t));
        assert(ts.to_multiset() == pre.to_multiset().insert(t));
        assert forall|w: WordModel| #[trigger] d.contains(w) <==> w.count > 0 && w.count
            == ts.to_multiset().count(w.tokens) by {
            assert(e.contains(w) <==> w.count > 0 && w.count == pre.to_multiset().count(w.tokens));
            match place_of(e, t) {
                Some(k) => {
                    lemma_count_le_occurrences(e, k);
                    assert(e.contains(e[k]));
                    let u = WordModel { tokens: t, count: (e[k].count + 1) as u64 };
                    assert(d == e.update(k, u));
                    assert(d[k] == u);
                    if d.contains(w) && w != u {
                        let i = choose|i: int| 0 <= i < d.len() && d[i] == w;
                        assert(e[i] == w);
                        assert(i != k);
                        assert(w.tokens != t);
                    }
                    if e.contains(w) && w.tokens != t {
                        let i = choose|i: int| 0 <= i < e.len() && e[i] == w;
                        assert(d[i] == w);
                    }
                },
                None => {
                    let u = WordModel { tokens: t, count: 1 };
                    assert(d == e.push(u));
                    assert(d[e.len() as int] == u);
                    if pre.to_multiset().count(t) > 0 {
                        let c = pre.to_multiset().count(t);
                        assert(c <= pre.to_multiset().len());
                        assert(pre.to_multiset().len() == pre.len());
                        let x = WordModel { tokens: t, count: c as u64 };
                        assert(e.contains(x));
                        let i = choose|i: int| 0 <= i < e.len() && e[i] == x;
                        assert(e[i].tokens == t);
                    }
                    if d.contains(w) && w != u {
                        let i = choose|i: int| 0 <= i < d.len() && d[i] == w;
                        assert(e[i] == w);
                    }
                    if e.contains(w) {
                        let i = choose|i: int| 0 <= i < e.len() && e[i] == w;
                        assert(d[i] == w);
                    }
                },
            }
        }
    }
}

/// A dictionary does not depend on the order in which words were counted, but for
/// the order of its entries.
pub proof fn law_counting_ignores_order(x: Seq<Seq<TokenId>>, y: Seq<Seq<TokenId>>)
    requires
        x.to_multiset() == y.to_multiset(),
        x.len() <= u64::MAX,
    ensures
        tallied_all(Seq::empty(), x).to_multiset() == tallied_all(Seq::empty(), y).to_multiset(),
{
    broadcast use vstd::seq_lib::group_to_multiset_ensures;

    assert(x.len() == y.len()) by {
        assert(x.to_multiset().len() == x.len());
        assert(y.to_multiset().len() == y.len());
    }
    let d = tallied_all(Seq::empty(), x);
    let e = tallied_all(Seq::empty(), y);
    lemma_entries(x);
    lemma_entries(y);
    lemma_counting_words(x);
    lemma_counting_words(y);
    lemma_distinct_counts(d);
    lemma_distinct_counts(e);
    assert forall|w: WordModel| #[trigger] d.to_multiset().count(w) == e.to_multiset().count(w) by {
        assert(d.contains(w) <==> e.contains(w));
    }
    assert(d.to_multiset() =~= e.to_multiset());
}

proof fn lemma_distinct_counts(d: Seq<WordModel>)
    requires
        distinct_words(d),
    ensures
        forall|w: WordModel| #[trigger]
            d.to_multiset().count(w) == (if d.contains(w) {
                1nat
            } else {
                0nat
            }),
{
    broadcast use vstd::seq_lib::group_to_multiset_ensures;

    assert(d.no_duplicates()) by {
        assert forall|i: int, j: int| 0 <= i < d.len() && 0 <= j < d.len() && i != j implies d[i] != d[j] by {
            if i < j {
                assert(d[i].tokens != d[j].tokens);
            } else {
                assert(d[j].tokens != d[i].tokens);
            }
        }
    }
    d.lemma_multiset_has_no_duplicates();
    assert forall|w: WordModel| #[trigger] d.to_multiset().count(w) == (if d.contains(w) {
        1nat
    } else {
        0nat
    }) by {
        assert(d.contains(w) <==> d.to_multiset().count(w) > 0);
    }
}

/// A dictionary has the words that were counted, and no others.
pub proof fn lemma_counted_words(ts: Seq<Seq<TokenId>>, t: Seq<TokenId>)
    requires
        ts.len() <= u64::MAX,
    ensures
        ts.contains(t) <==> exists|k: int|
            0 <= k < tallied_all(Seq::empty(), ts).len() && (#[trigger] tallied_all(
                Seq::empty(),
                ts,
            )[k]).tokens == t,
{
    broadcast use vstd::seq_lib::group_to_multiset_ensures;

    let d = tallied_all(Seq::empty(), ts);
    lemma_entries(ts);
    if ts.contains(t) {
        let n = ts.to_multiset().count(t);
        assert(n > 0);
        assert(n <= ts.to_multiset().len());
        let w = WordModel { tokens: t, count: n as u64 };
        assert(d.contains(w));
        let k = choose|k: int| 0 <= k < d.len() && d[k] == w;
        assert(d[k].tokens == t);
    }
    if exists|k: int| 0 <= k < d.len() && (#[trigger] d[k]).tokens == t {
        let k = choose|k: int| 0 <= k < d.len() && (#[trigger] d[k]).tokens == t;
        assert(d.contains(d[k]));
        assert(ts.to_multiset().count(d[k].tokens) > 0);
    }
}

/// A dictionary of counted words keeps all of them where one occurrence is enough.
pub proof fn law_retaining_all(ts: Seq<Seq<TokenId>>, min: Frequency)
    requires
        ts.len() <= u64::MAX,
        min <= 1,
    ensures
        retained(tallied_all(Seq::empty(), ts), min) == tallied_all(Seq::empty(), ts),
{
    let d = tallied_all(Seq::empty(), ts);
    lemma_entries(ts);
    assert forall|k: int| 0 <= k < d.len() implies (#[trigger] d[k]).count >= min by {
        assert(d.contains(d[k]));
    }
    lemma_retained_all(d, min);
}

/// Dropping rare words does not depend on the order of the entries.
pub proof fn law_retaining_ignores_order(d: Seq<WordModel>, e: Seq<WordModel>, min: Frequency)
    requires
        d.to_multiset() == e.to_multiset(),
    ensures
        retained(d, min).to_multiset() == retained(e, min).to_multiset(),
{
    lemma_retained_multiset(d, min);
    lemma_retained_multiset(e, min);
}

proof fn lemma_retained_multiset(d: Seq<WordModel>, min: Frequency)
    ensures
        retained(d, min).to_multiset() == d.to_multiset().filter(
            |w: WordModel| w.count >= min,
        ),
    decreases d.len(),
{
    broadcast use vstd::seq_lib::group_to_multiset_ensures;
    broadcast use vstd::multiset::group_multiset_axioms;

    reveal(Seq::filter);
    let f = |w: WordModel| w.count >= min;
    let r = retained(d, min);
    if d.len() > 0 {
        let e = d.drop_last();
        lemma_retained_multiset(e, min);
        assert(e.push(d.last()) =~= d);
        assert(d.to_multiset() =~= e.to_multiset().insert(d.last()));
        assert(r.to_multiset() =~= d.to_multiset().filter(f));
    } else {
        assert(d =~= Seq::<WordModel>::empty());
        assert(r =~= Seq::<WordModel>::empty());
        assert(r.to_multiset() =~= d.to_multiset().filter(f));
    }
}

proof fn lemma_retained_all(d: Seq<WordModel>, min: Frequency)
    requires
        forall|k: int| 0 <= k < d.len() ==> (#[trigger] d[k]).count >= min,
    ensures
        retained(d, min) == d,
    decreases d.len(),
{
    reveal(Seq::filter);
    if d.len() > 0 {
        let e = d.drop_last();
        assert forall|k: int| 0 <= k < e.len() implies (#[trigger] e[k]).count >= min by {
            assert(e[k] == d[k]);
        }
        lemma_retained_all(e, min);
        assert(d[d.len() - 1].count >= min);
        assert(e.push(d.last()) =~= d);
    } else {
        assert(retained(d, min) =~= d);
    }
}

/// Words can be counted in two goes, such as line by line.
pub proof fn law_counting_in_goes(d: Seq<WordModel>, x: Seq<Seq<TokenId>>, y: Seq<Seq<TokenId>>)
    ensures
        tallied_all(tallied_all(d, x), y) == tallied_all(d, x + y),
    decreases y.len(),
{
    if y.len() == 0 {
        assert(x + y =~= x);
    } else {
        law_counting_in_goes(d, x, y.drop_last());
        assert((x + y).drop_last() =~= x + y.drop_last());
    }
}

/// A dictionary has an entry for each word that was counted, and for no other, with how often
/// it was counted.
pub proof fn law_each_word_is_counted(ts: Seq<Seq<TokenId>>, w: WordModel)
    requires
        ts.len() <= u64::MAX,
    ensures
        tallied_all(Seq::empty(), ts).contains(w) <==> w.count > 0 && w.count
            == ts.to_multiset().count(w.tokens),
        distinct_words(tallied_all(Seq::empty(), ts)),
{
    lemma_entries(ts);
    lemma_counting_words(ts);
}

/// Counting a word once more adds one to its entry, or a new entry of one, and changes no
/// other entry.
pub proof fn law_counting_one_more(d: Seq<WordModel>, t: Seq<TokenId>, k: int)
    requires
        distinct_words(d),
        occurrences_in(d) < u64::MAX,
    ensures
        0 <= k < d.len() && d[k].tokens == t ==> tallied(d, t).len() == d.len() && tallied(
            d,
            t,
        )[k].count == d[k].count + 1 && tallied(d, t)[k].tokens == t,
        0 <= k < d.len() && d[k].tokens != t ==> tallied(d, t)[k] == d[k],
        (forall|i: int| 0 <= i < d.len() ==> (#[trigger] d[i]).tokens != t) ==> tallied(d, t).len()
            == d.len() + 1 && tallied(d, t).last().tokens == t && tallied(d, t).last().count == 1,
{
    lemma_place_of(d, t);
    if let Some(i) = place_of(d, t) {
        lemma_count_le_occurrences(d, i);
        if 0 <= k < d.len() && d[k].tokens == t && i != k {
            if i < k {
                assert(d[i].tokens != d[k].tokens);
            } else {
                assert(d[k].tokens != d[i].tokens);
            }
        }
    }
}

/// What is dropped of a dictionary: the words that occur fewer times than asked, and no
/// others. The rest keep their order and their counts.
pub proof fn law_retaining_word_by_word(d: Seq<WordModel>, w: WordModel, min: Frequency)
    ensures
        retained(Seq::empty(), min).len() == 0,
        w.count >= min ==> retained(d.push(w), min) == retained(d, min).push(w),
        w.count < min ==> retained(d.push(w), min) == retained(d, min),
{
    reveal(Seq::filter);
    assert(d.push(w).drop_last() =~= d);
}

/// How many occurrences a dictionary counts: the sum of its counts.
pub proof fn law_occurrences_add_up(d: Seq<WordModel>, w: WordModel)
    ensures
        occurrences_in(Seq::empty()) == 0,
        occurrences_in(d.push(w)) == occurrences_in(d) + w.count,
{
    assert(d.push(w).drop_last() =~= d);
}

/// Lists of words and of sequences stand for all that is in them, in order; and where each
/// sequence counts once, it does.
pub proof fn law_word_lists(
    words: Seq<Word>,
    lists: Seq<Vec<TokenId>>,
    ts: Seq<Seq<TokenId>>,
    k: int,
)
    ensures
        word_models(words).len() == words.len(),
        0 <= k < words.len() ==> word_models(words)[k].tokens == words[k].tokens@ && word_models(
            words,
        )[k].count == words[k].count,
        token_lists(lists).len() == lists.len(),
        0 <= k < lists.len() ==> token_lists(lists)[k] == lists[k]@,
        once_each(ts).len() == ts.len(),
        0 <= k < ts.len() ==> once_each(ts)[k].tokens == ts[k] && once_each(ts)[k].count == 1,
{
}

/// Words are counted one after the other.
pub proof fn law_counting_one_by_one(d: Seq<WordModel>, ts: Seq<Seq<TokenId>>, t: Seq<TokenId>)
    ensures
        tallied_all(d, Seq::empty()) == d,
        tallied_all(d, ts.push(t)) == tallied(tallied_all(d, ts), t),
{
    assert(ts.push(t).drop_last() =~= ts);
}

} // verus!
