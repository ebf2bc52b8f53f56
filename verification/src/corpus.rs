//! The training corpus: deduplicated words, and the frequencies of the adjacent
//! pairs in them, kept up to date while pairs are merged.
use crate::counting::{CorpusModel, MergeState, WordModel};
use crate::counting;
use crate::pairs::{Frequency, Pair, PairSet, PairTable, TokenId};
use crate::pairs;
use crate::word_counts::{Word, WordCounts};
use crate::word_counts;
use vstd::prelude::*;

verus! {

/// What a list of raw sequences stands for: each is a word that occurs once.
pub open spec fn sequence_models(sequences: Seq<Vec<TokenId>>) -> Seq<WordModel> {
    word_counts::once_each(word_counts::token_lists(sequences))
}

proof fn lemma_prefix_weight(words: Seq<WordModel>, k: int)
    requires
        0 <= k <= words.len(),
    ensures
        counting::total_weight(words.take(k)) <= counting::total_weight(words),
{
    counting::lemma_words_weight_concat(words.take(k), words.skip(k), counting::any_pair());
    assert(words.take(k) + words.skip(k) =~= words);
}

/// The words `done` and one more word, of which only some tokens are looked at.
spec fn with_word(done: Seq<WordModel>, tokens: Seq<TokenId>, count: Frequency) -> Seq<WordModel> {
    done.push(WordModel { tokens, count })
}

proof fn lemma_with_word(done: Seq<WordModel>, t: Seq<TokenId>, count: Frequency, p: Pair)
    ensures
        counting::pair_count(with_word(done, t, count), p) == counting::pair_count(done, p)
            + counting::weight(t, count as nat, counting::is_pair(p)),
        counting::total_weight(with_word(done, t, count)) == counting::total_weight(done)
            + counting::weight(t, count as nat, counting::any_pair()),
        counting::occurs_in(with_word(done, t, count), p) <==> counting::occurs_in(done, p)
            || counting::occurs(t, p),
{
    let ws = with_word(done, t, count);
    assert(ws.drop_last() =~= done);
    if counting::occurs_in(done, p) {
        let k = choose|k: int|
            0 <= k < done.len() && counting::occurs((#[trigger] done[k]).tokens, p);
        assert(ws[k] == done[k]);
    }
    if counting::occurs(t, p) {
        assert(counting::occurs(ws[done.len() as int].tokens, p));
    }
    if counting::occurs_in(ws, p) {
        let k = choose|k: int| 0 <= k < ws.len() && counting::occurs((#[trigger] ws[k]).tokens, p);
        if k < done.len() {
            assert(counting::occurs(done[k].tokens, p));
        }
    }
}

/// A word without pairs adds nothing to the table.
proof fn lemma_short_word(done: Seq<WordModel>, w: WordModel)
    requires
        w.tokens.len() < 2,
    ensures
        counting::pair_table(done.push(w)) == counting::pair_table(done),
{
    assert forall|p: Pair| counting::occurs_in(done.push(w), p) <==> counting::occurs_in(done, p) by {
        lemma_with_word(done, w.tokens, w.count, p);
    }
    assert forall|p: Pair| #[trigger] counting::pair_count(done.push(w), p) == counting::pair_count(done, p) by {
        lemma_with_word(done, w.tokens, w.count, p);
    }
    assert(counting::pair_table(done.push(w)) =~= counting::pair_table(done));
}

/// One more token adds the pair that it forms.
proof fn lemma_table_step(done: Seq<WordModel>, t: Seq<TokenId>, count: Frequency, j: int)
    requires
        1 <= j < t.len(),
        counting::total_weight(with_word(done, t, count)) <= u64::MAX,
    ensures
        counting::pair_table(with_word(done, t.take(j + 1), count)) == pairs::table_inc(
            counting::pair_table(with_word(done, t.take(j), count)),
            (t[j - 1], t[j]),
            count,
        ),
        pairs::freq_of(
            counting::pair_table(with_word(done, t.take(j), count)),
            (t[j - 1], t[j]),
        ) + count <= u64::MAX,
{
    let c = count as nat;
    let q = (t[j - 1], t[j]);
    let x = with_word(done, t.take(j), count);
    let y = with_word(done, t.take(j + 1), count);
    assert(t.take(j + 1).drop_last() =~= t.take(j));
    counting::lemma_weight_concat(t.take(j + 1), t.skip(j + 1), c, counting::any_pair());
    assert(t.take(j + 1) + t.skip(j + 1) =~= t);
    lemma_with_word(done, t, count, q);
    lemma_with_word(done, t.take(j + 1), count, q);
    assert forall|p: Pair|
        #![trigger counting::pair_count(y, p)]
        #![trigger counting::occurs_in(y, p)]
        counting::pair_count(y, p) == counting::pair_count(x, p) + (if p == q {
            c
        } else {
            0
        }) && counting::pair_count(y, p) <= u64::MAX && (counting::occurs_in(y, p)
            <==> counting::occurs_in(x, p) || p == q) && (counting::pair_count(x, p) > 0
            ==> counting::occurs_in(x, p)) by {
        lemma_with_word(done, t.take(j), count, p);
        lemma_with_word(done, t.take(j + 1), count, p);
        counting::lemma_words_weight_mono(y, counting::is_pair(p), counting::any_pair());
        counting::lemma_count_occurs(x, p);
        let u = t.take(j);
        let v = t.take(j + 1);
        if counting::occurs(u, p) {
            let i = choose|i: int| 0 <= i < u.len() - 1 && #[trigger] u[i] == p.0 && u[i + 1] == p.1;
            assert(v[i] == p.0 && v[i + 1] == p.1);
        }
        if p == q {
            assert(v[j - 1] == p.0 && v[(j - 1) + 1] == p.1);
        }
        if counting::occurs(v, p) {
            let i = choose|i: int| 0 <= i < v.len() - 1 && #[trigger] v[i] == p.0 && v[i + 1] == p.1;
            if i < j - 1 {
                assert(u[i] == p.0 && u[i + 1] == p.1);
            }
        }
    }
    let tx = counting::pair_table(x);
    let ty = counting::pair_table(y);
    assert(counting::pair_count(y, q) == counting::pair_count(x, q) + c);
    assert forall|p: Pair| #[trigger] ty.contains_key(p) <==> pairs::table_inc(tx, q, count).contains_key(p) by {
        assert(counting::occurs_in(y, p) <==> counting::occurs_in(x, p) || p == q);
    }
    assert forall|p: Pair| #[trigger] ty.contains_key(p) implies ty[p] == pairs::table_inc(tx, q, count)[p] by {
        assert(counting::pair_count(y, p) <= u64::MAX);
    }
    assert(ty =~= pairs::table_inc(tx, q, count));
}

/// The words of a corpus with the table of their pair frequencies.
pub struct Corpus {
    words: Vec<Word>,
    pair_freqs: PairTable,
    vocab_budget: usize,
}

impl View for Corpus {
    type V = CorpusModel;

    closed spec fn view(&self) -> CorpusModel {
        CorpusModel { words: word_counts::word_models(self.words@), freqs: self.pair_freqs@ }
    }
}

impl Corpus {
    /// A corpus is valid when its table is, and when no frequency exceeds what the
    /// words hold.
    pub closed spec fn wf(&self) -> bool {
        &&& self.pair_freqs.wf()
        &&& self@.wf()
    }

    /// The vocabulary size that the corpus was built for.
    pub closed spec fn budget(&self) -> usize {
        self.vocab_budget
    }

    /// A valid corpus has a valid model.
    pub proof fn lemma_wf(&self)
        requires
            self.wf(),
        ensures
            self@.wf(),
    {
    }

    fn from_words(words: Vec<Word>, vocab_budget: usize) -> (corpus: Self)
        requires
            counting::total_weight(word_counts::word_models(words@)) <= u64::MAX,
        ensures
            corpus.wf(),
            corpus@.words == word_counts::word_models(words@),
            corpus@.freqs == counting::pair_table(word_counts::word_models(words@)),
            corpus.budget() == vocab_budget,
    {
        let mut corpus = Corpus { words, pair_freqs: PairTable::new(), vocab_budget };
        corpus.recompute_all_frequencies();
        corpus
    }

    /// Counts every pair of every word afresh.
    fn recompute_all_frequencies(&mut self)
        requires
            counting::total_weight(old(self)@.words) <= u64::MAX,
        ensures
            final(self).wf(),
            final(self)@.words == old(self)@.words,
            final(self)@.freqs == counting::pair_table(old(self)@.words),
            final(self).budget() == old(self).budget(),
    {
        let mut freqs = PairTable::new();
        let ghost models = word_counts::word_models(self.words@);
        let mut k: usize = 0;
        proof {
            assert(counting::pair_table(models.take(0)) =~= Map::<Pair, Frequency>::empty());
        }
        while k < self.words.len()
            invariant
                k <= self.words@.len(),
                models == word_counts::word_models(self.words@),
                counting::total_weight(models) <= u64::MAX,
                freqs.wf(),
                freqs@ == counting::pair_table(models.take(k as int)),
            decreases self.words@.len() - k,
        {
            let w = &self.words[k];
            let ghost done = models.take(k as int);
            let ghost t = w.tokens@;
            let n: usize = w.tokens.len();
            proof {
                assert(models[k as int] == w@);
                assert(models.take(k + 1) =~= done.push(w@));
                lemma_prefix_weight(models, k + 1);
                lemma_short_word(done, WordModel { tokens: t.take(if n > 0 { 1 } else { 0 }), count: w.count });
                assert(n < 2 ==> t.take(if n > 0 { 1 } else { 0 }) =~= t);
            }
            let mut j: usize = 1;
            while j < n
                invariant
                    1 <= j,
                    n >= 2 ==> j <= n,
                    t == w.tokens@,
                    n == t.len(),
                    freqs.wf(),
                    counting::total_weight(done.push(w@)) <= u64::MAX,
                    n >= 2 ==> freqs@ == counting::pair_table(
                        done.push(WordModel { tokens: t.take(j as int), count: w.count }),
                    ),
                    n < 2 ==> freqs@ == counting::pair_table(done.push(w@)),
                decreases n - j,
            {
                proof {
                    lemma_table_step(done, t, w.count, j as int);
                }
                freqs.inc_pair(w.tokens[j - 1], w.tokens[j], w.count);
                j += 1;
            }
            proof {
                assert(t.take(t.len() as int) =~= t);
                assert(n >= 2 ==> WordModel { tokens: t.take(j as int), count: w.count } == w@);
            }
            k += 1;
        }
        proof {
            assert(models.take(models.len() as int) =~= models);
            counting::law_counted_exact(models);
        }
        self.pair_freqs = freqs;
    }

    /// Builds a corpus from a word-frequency dictionary.
    pub fn from_word_counts(counts: WordCounts, vocab_budget: usize) -> (corpus: Self)
        requires
            counting::total_weight(counts@) <= u64::MAX,
        ensures
            corpus.wf(),
            corpus@ == (CorpusModel { words: counts@, freqs: counting::pair_table(counts@) }),
            corpus.budget() == vocab_budget,
    {
        let words = counts.into_words();
        Corpus::from_words(words, vocab_budget)
    }

    /// Builds a corpus from raw sequences, each of which counts once.
    pub fn from_sequences(sequences: Vec<Vec<TokenId>>, vocab_budget: usize) -> (corpus: Self)
        requires
            counting::total_weight(sequence_models(sequences@)) <= u64::MAX,
        ensures
            corpus.wf(),
            corpus@.words == sequence_models(sequences@),
            corpus@.freqs == counting::pair_table(sequence_models(sequences@)),
            corpus.budget() == vocab_budget,
    {
        let mut words: Vec<Word> = Vec::new();
        for tokens in it: sequences
            invariant
                words@.len() == it.index(),
                it.seq() == sequences@,
                word_counts::word_models(words@) == sequence_models(sequences@.take(it.index() as int)),
        {
            proof {
                let k = it.index() as int;
                assert(sequences@.take(k + 1) =~= sequences@.take(k).push(tokens));
            }
            let ghost before = words@;
            words.push(Word { tokens, count: 1 });
            proof {
                let k = it.index() as int;
                assert(word_counts::word_models(words@) =~= word_counts::word_models(before).push(
                    WordModel { tokens: tokens@, count: 1 },
                ));
                assert(sequence_models(sequences@.take(k + 1)) =~= sequence_models(
                    sequences@.take(k),
                ).push(WordModel { tokens: tokens@, count: 1 }));
            }
        }
        assert(sequences@.take(sequences@.len() as int) =~= sequences@);
        Corpus::from_words(words, vocab_budget)
    }

    /// The frequency of a pair.
    pub fn get_freq(&self, a: TokenId, b: TokenId) -> (f: Frequency)
        ensures
            f == pairs::freq_of(self@.freqs, (a, b)),
    {
        self.pair_freqs.get(a, b)
    }

    /// The pairs that have a frequency, each once, in no particular order.
    pub fn pairs(&self) -> (r: Vec<Pair>)
        requires
            self.wf(),
        ensures
            r@.no_duplicates(),
            r@.to_set() == self@.freqs.dom(),
    {
        self.pair_freqs.keys()
    }

    /// Merges the pair `(a, b)` into `new_id` all over the corpus. The frequencies
    /// are updated with local changes only. Returns the pairs whose frequency was
    /// changed, those that were formed and those that lost an occurrence, each
    /// once.
    pub fn apply_merge(&mut self, a: TokenId, b: TokenId, new_id: TokenId) -> (touched: Vec<Pair>)
        requires
            old(self).wf(),
        ensures
            final(self).wf(),
            final(self)@ == counting::merged_corpus(old(self)@, (a, b), new_id),
            touched@ == counting::touched_pairs(old(self)@, (a, b), new_id),
            touched@.no_duplicates(),
            final(self).budget() == old(self).budget(),
    {
        let mut touched = PairSet::new();
        let ghost models = word_counts::word_models(self.words@);
        let ghost freqs0 = self.pair_freqs@;
        let ghost c0 = self@;
        let ghost ab: Pair = (a, b);
        let ghost budget0 = self.vocab_budget;
        let n: usize = self.words.len();
        let mut k: usize = 0;
        while k < n
            invariant
                k <= n == self.words@.len() == models.len(),
                self.pair_freqs.wf(),
                touched.wf(),
                ab == (a, b),
                self.vocab_budget == budget0,
                c0.wf(),
                c0.words == models,
                c0.freqs == freqs0,
                forall|j: int| k <= j < n ==> #[trigger] self.words@[j]@ == models[j],
                forall|j: int|
                    0 <= j < k ==> #[trigger] self.words@[j]@ == counting::merge_words(
                        models.take(k as int),
                        freqs0,
                        ab,
                        new_id,
                    ).0[j],
                counting::merge_words(models.take(k as int), freqs0, ab, new_id).0.len() == k,
                self.pair_freqs@ == counting::merge_words(
                    models.take(k as int),
                    freqs0,
                    ab,
                    new_id,
                ).1,
                touched@ == counting::merge_words(models.take(k as int), freqs0, ab, new_id).2,
            decreases n - k,
        {
            let ghost done = counting::merge_words(models.take(k as int), freqs0, ab, new_id);
            let ghost tail = models.skip(k + 1);
            let ghost w = models[k as int];
            let ghost rest = |p: Pair|
                counting::pair_count(done.0, p) + counting::pair_count(tail, p);
            let ghost rest_total = counting::total_weight(done.0) + counting::total_weight(tail);
            let ghost consumed = (counting::total_weight(models.take(k as int))
                - counting::total_weight(done.0)) as nat;
            proof {
                lemma_split(models, k as int);
                assert forall|p: Pair| #[trigger] pairs::freq_of(freqs0, p)
                    <= counting::pair_count(models.take(k as int), p) + counting::pair_count(
                    models.skip(k as int),
                    p,
                ) by {
                    assert(pairs::freq_of(c0.freqs, p) <= counting::pair_count(c0.words, p));
                }
                counting::lemma_merge_words(
                    models.take(k as int),
                    models.skip(k as int),
                    freqs0,
                    ab,
                    new_id,
                );
                assert forall|p: Pair| #[trigger] rest(p) <= rest_total by {
                    counting::lemma_words_weight_mono(
                        done.0,
                        counting::is_pair(p),
                        counting::any_pair(),
                    );
                    counting::lemma_words_weight_mono(
                        tail,
                        counting::is_pair(p),
                        counting::any_pair(),
                    );
                }
                assert(models.take(k + 1).drop_last() =~= models.take(k as int));
                assert(models.take(k + 1).last() == w);
            }
            merge_word(
                &mut self.words[k],
                &mut self.pair_freqs,
                &mut touched,
                a,
                b,
                new_id,
                Ghost(rest),
                Ghost(rest_total),
                Ghost(consumed),
            );
            k += 1;
        }
        proof {
            assert(models.take(models.len() as int) =~= models);
            assert(word_counts::word_models(self.words@) =~= counting::merge_words(
                models,
                freqs0,
                ab,
                new_id,
            ).0);
            counting::law_merge_keeps_wf(c0, ab, new_id);
        }
        self.pair_freqs.remove(a, b);
        touched.into_vec()
    }
}

/// The words before a word, the word, and the words after it share out all
/// weights between them.
proof fn lemma_split(words: Seq<WordModel>, k: int)
    requires
        0 <= k < words.len(),
    ensures
        forall|p: Pair| #[trigger]
            counting::pair_count(words, p) == counting::pair_count(words.take(k), p)
                + counting::pair_count(words.skip(k), p),
        counting::total_weight(words) == counting::total_weight(words.take(k))
            + counting::total_weight(words.skip(k)),
        forall|p: Pair| #[trigger]
            counting::pair_count(words.skip(k), p) == counting::weight(
                words[k].tokens,
                words[k].count as nat,
                counting::is_pair(p),
            ) + counting::pair_count(words.skip(k + 1), p),
        counting::total_weight(words.skip(k)) == counting::weight(
            words[k].tokens,
            words[k].count as nat,
            counting::any_pair(),
        ) + counting::total_weight(words.skip(k + 1)),
{
    assert forall|f: spec_fn(Pair) -> bool|
        #![trigger counting::words_weight(words, f)]
        #![trigger counting::words_weight(words.skip(k), f)]
        counting::words_weight(words, f) == counting::words_weight(words.take(k), f)
            + counting::words_weight(words.skip(k), f) && counting::words_weight(words.skip(k), f)
            == counting::weight(words[k].tokens, words[k].count as nat, f)
            + counting::words_weight(words.skip(k + 1), f) by {
        let one = seq![words[k]];
        counting::lemma_words_weight_concat(words.take(k), words.skip(k), f);
        assert(words.take(k) + words.skip(k) =~= words);
        counting::lemma_words_weight_concat(one, words.skip(k + 1), f);
        assert(one + words.skip(k + 1) =~= words.skip(k));
        reveal_with_fuel(counting::words_weight, 2);
        assert(one.drop_last() =~= Seq::<WordModel>::empty());
    }
}

/// Merges the pair `(a, b)` into `n` in one word.
fn merge_word(
    word: &mut Word,
    freqs: &mut PairTable,
    touched: &mut PairSet,
    a: TokenId,
    b: TokenId,
    n: TokenId,
    Ghost(rest): Ghost<spec_fn(Pair) -> nat>,
    Ghost(rest_total): Ghost<nat>,
    Ghost(consumed): Ghost<nat>,
)
    requires
        old(freqs).wf(),
        old(touched).wf(),
        counting::bounded(
            old(freqs)@,
            old(word)@.tokens,
            old(word)@.count as nat,
            rest,
            (a, b),
            consumed,
        ),
        forall|p: Pair| #[trigger] rest(p) <= rest_total,
        rest_total + counting::weight(
            old(word)@.tokens,
            old(word)@.count as nat,
            counting::any_pair(),
        ) + consumed <= u64::MAX,
    ensures
        final(freqs).wf(),
        final(touched).wf(),
        final(word)@.count == old(word)@.count,
        (MergeState {
            tokens: final(word)@.tokens,
            freqs: final(freqs)@,
            touched: final(touched)@,
        }) == counting::merge_from(
            (MergeState {
                tokens: old(word)@.tokens,
                freqs: old(freqs)@,
                touched: old(touched)@,
            }),
            (a, b),
            n,
            old(word)@.count,
            0,
        ),
{
    let cnt: u64 = word.count;
    let ghost ab: Pair = (a, b);
    let ghost start = MergeState { tokens: word.tokens@, freqs: freqs@, touched: touched@ };
    let ghost mut used: nat = consumed;
    let mut i: usize = 0;
    while word.tokens.len() - i > 1
        invariant
            freqs.wf(),
            touched.wf(),
            word.count == cnt,
            ab == (a, b),
            counting::bounded(freqs@, word.tokens@, cnt as nat, rest, ab, used),
            forall|p: Pair| #[trigger] rest(p) <= rest_total,
            rest_total + counting::weight(word.tokens@, cnt as nat, counting::any_pair()) + used
                <= u64::MAX,
            counting::merge_from(
                (MergeState { tokens: word.tokens@, freqs: freqs@, touched: touched@ }),
                ab,
                n,
                cnt,
                i as int,
            ) == counting::merge_from(start, ab, n, cnt, 0),
            i <= word.tokens@.len(),
        decreases word.tokens@.len() - i,
    {
        if word.tokens[i] == a && word.tokens[i + 1] == b {
            let ghost st = MergeState { tokens: word.tokens@, freqs: freqs@, touched: touched@ };
            proof {
                counting::lemma_merge_at(st, ab, n, cnt, i as int, rest, rest_total, used);
            }
            let len: usize = word.tokens.len();
            if i > 0 {
                let l: usize = word.tokens[i - 1];
                freqs.dec_pair(l, a, cnt);
                touched.insert(l, a);
            }
            if i + 2 < len {
                let r: usize = word.tokens[i + 2];
                freqs.dec_pair(b, r, cnt);
                touched.insert(b, r);
            }
            word.tokens.set(i, n);
            word.tokens.remove(i + 1);
            assert(word.tokens@ =~= counting::replaced(st.tokens, i as int, n));
            if i > 0 {
                let l: usize = word.tokens[i - 1];
                freqs.inc_pair(l, n, cnt);
                touched.insert(l, n);
            }
            if i + 1 < word.tokens.len() {
                let r: usize = word.tokens[i + 1];
                freqs.inc_pair(n, r, cnt);
                touched.insert(n, r);
            }
            proof {
                used = used + cnt as nat;
                assert((MergeState { tokens: word.tokens@, freqs: freqs@, touched: touched@ })
                    == counting::merge_at(st, n, cnt, i as int));
            }
        } else {
            i += 1;
        }
    }
}

/// Whether all pair occurrences of some sequences can be counted by the machine.
pub fn sequences_fit(sequences: &Vec<Vec<TokenId>>) -> (r: bool)
    ensures
        r == (counting::total_weight(sequence_models(sequences@)) <= u64::MAX),
{
    let ghost d = sequence_models(sequences@);
    let mut sum: u64 = 0;
    let mut i: usize = 0;
    while i < sequences.len()
        invariant
            i <= sequences@.len(),
            d == sequence_models(sequences@),
            sum == counting::total_weight(d.take(i as int)),
        decreases sequences@.len() - i,
    {
        let n: usize = sequences[i].len();
        proof {
            assert(d.take(i + 1).drop_last() =~= d.take(i as int));
            assert(d.take(i + 1).last() == d[i as int]);
            counting::lemma_word_weight(d[i as int].tokens, 1);
            lemma_prefix_weight(d, i + 1);
        }
        let places: u64 = if n > 1 {
            (n - 1) as u64
        } else {
            0
        };
        if places > u64::MAX - sum {
            return false;
        }
        sum = sum + places;
        i += 1;
    }
    assert(d.take(d.len() as int) =~= d);
    true
}

} // verus!
