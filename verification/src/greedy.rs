//! Training without a queue: at each step the best pair of the whole corpus. The
//! queue of the trainer finds the same merges, and the order of the words has no
//! say in them.
use crate::counting::{CorpusModel, MergeState, WordModel};
use crate::counting;
use crate::heap::MergeCandidate;
use crate::heap;
use crate::pairs::{Frequency, Pair, TokenId};
use crate::pairs;
use crate::training::{TrainRules, TrainState};
use crate::training;
use crate::vocabulary::EntryModel;
use crate::vocabulary;
use vstd::multiset::Multiset;
use vstd::prelude::*;

verus! {

/// Whether no token of the words is one that is yet to be minted: each is in the
/// vocabulary, or beyond the size that the vocabulary may grow to.
pub open spec fn closed_under(v: Seq<EntryModel>, words: Seq<WordModel>, budget: usize) -> bool {
    forall|k: int, x: TokenId|
        0 <= k < words.len() && #[trigger] words[k].tokens.contains(x) ==> x < v.len() || x
            >= budget
}

/// The candidate that a pair is, with its present frequency.
pub open spec fn standing(v: Seq<EntryModel>, freqs: Map<Pair, Frequency>, p: Pair) -> MergeCandidate {
    training::candidate(v, p, pairs::freq_of(freqs, p))
}

/// Whether some pair is admissible.
pub open spec fn any_admissible(
    rules: TrainRules,
    v: Seq<EntryModel>,
    freqs: Map<Pair, Frequency>,
) -> bool {
    exists|p: Pair| training::admissible(rules, v, freqs, p)
}

/// Whether a pair is the best admissible one: none ranks above it by script, then
/// by frequency, then by the ids of its tokens.
pub open spec fn is_top(
    rules: TrainRules,
    v: Seq<EntryModel>,
    freqs: Map<Pair, Frequency>,
    p: Pair,
) -> bool {
    &&& training::admissible(rules, v, freqs, p)
    &&& forall|q: Pair| #[trigger]
        training::admissible(rules, v, freqs, q) ==> !heap::ranks_below(
            standing(v, freqs, p),
            standing(v, freqs, q),
        )
}

/// The best admissible pair.
pub open spec fn top(rules: TrainRules, v: Seq<EntryModel>, freqs: Map<Pair, Frequency>) -> Pair {
    choose|p: Pair| is_top(rules, v, freqs, p)
}

/// The vocabulary after a pair was merged.
pub open spec fn grown(rules: TrainRules, v: Seq<EntryModel>, p: Pair) -> Seq<EntryModel> {
    vocabulary::merged(v, p.0, p.1, training::narrowed(rules, v, p.0, p.1))
}

/// The corpus after a pair was merged.
pub open spec fn rewritten(v: Seq<EntryModel>, corpus: CorpusModel, p: Pair) -> CorpusModel {
    counting::merged_corpus(corpus, p, vocabulary::merged_id(v, p.0, p.1))
}

/// The vocabulary and the corpus when at each step the best admissible pair of the
/// whole corpus was merged, until the vocabulary had the size that was asked for or
/// no pair was admissible.
pub open spec fn greedy(
    rules: TrainRules,
    v: Seq<EntryModel>,
    corpus: CorpusModel,
    budget: usize,
) -> (Seq<EntryModel>, CorpusModel)
    decreases counting::token_count(corpus.words),
    when corpus.wf()
{
    if v.len() >= budget || !any_admissible(rules, v, corpus.freqs) {
        (v, corpus)
    } else {
        let p = top(rules, v, corpus.freqs);
        proof {
            lemma_top(rules, v, corpus.freqs);
            lemma_rewritten(rules, v, corpus, p);
        }
        greedy(rules, grown(rules, v, p), rewritten(v, corpus, p), budget)
    }
}

/// Where some pair is admissible, there is a best one, and only one.
pub proof fn lemma_top(rules: TrainRules, v: Seq<EntryModel>, freqs: Map<Pair, Frequency>)
    requires
        freqs.dom().finite(),
        any_admissible(rules, v, freqs),
    ensures
        is_top(rules, v, freqs, top(rules, v, freqs)),
        forall|p: Pair| #[trigger] is_top(rules, v, freqs, p) ==> p == top(rules, v, freqs),
{
    let queue = training::start_queue(rules, v, freqs);
    let ok = |c: MergeCandidate| training::live(rules, v, freqs, c);
    training::lemma_start_queue(rules, v, freqs);
    assert forall|p: Pair| #[trigger] training::admissible(rules, v, freqs, p) implies queue.contains(
        standing(v, freqs, p),
    ) && ok(standing(v, freqs, p)) by {
        let c = standing(v, freqs, p);
        assert(training::seeded(rules, v, freqs, c));
        assert(queue.count(c) == 1);
    }
    let p0 = choose|p: Pair| training::admissible(rules, v, freqs, p);
    assert(queue.contains(standing(v, freqs, p0)) && ok(standing(v, freqs, p0)));
    training::lemma_greatest(queue, ok);
    let g = choose|c: MergeCandidate| #[trigger]
        queue.contains(c) && ok(c) && (forall|d: MergeCandidate| #[trigger]
            queue.contains(d) && ok(d) ==> !heap::ranks_below(c, d));
    let pg = (g.a, g.b);
    assert(queue.count(g) > 0);
    assert(training::seeded(rules, v, freqs, g));
    assert(g == standing(v, freqs, pg));
    assert(is_top(rules, v, freqs, pg)) by {
        assert forall|q: Pair| #[trigger] training::admissible(rules, v, freqs, q) implies !heap::ranks_below(
            standing(v, freqs, pg),
            standing(v, freqs, q),
        ) by {
            assert(queue.contains(standing(v, freqs, q)) && ok(standing(v, freqs, q)));
        }
    }
    let t = top(rules, v, freqs);
    assert forall|p: Pair| #[trigger] is_top(rules, v, freqs, p) implies p == t by {
        assert(training::admissible(rules, v, freqs, p) && training::admissible(rules, v, freqs, t));
        heap::law_candidate_order(standing(v, freqs, p), standing(v, freqs, t), standing(v, freqs, p));
    }
}

/// Merging an admissible pair leaves fewer tokens, and keeps the corpus valid.
pub proof fn lemma_rewritten(rules: TrainRules, v: Seq<EntryModel>, corpus: CorpusModel, p: Pair)
    requires
        corpus.wf(),
        training::admissible(rules, v, corpus.freqs, p),
    ensures
        rewritten(v, corpus, p).wf(),
        counting::token_count(rewritten(v, corpus, p).words) < counting::token_count(corpus.words),
{
    let st = TrainState { vocab: v, corpus, queue: Multiset::empty() };
    training::lemma_step_shrinks(rules, st, standing(v, corpus.freqs, p));
}

// ---------------------------------------------------------------------------
// The queue is faithful
// ---------------------------------------------------------------------------

/// Whether the queue misses no admissible pair, and holds nothing with a wrong
/// rank.
spec fn faithful(rules: TrainRules, st: TrainState) -> bool {
    &&& forall|p: Pair| #[trigger]
        training::admissible(rules, st.vocab, st.corpus.freqs, p) ==> st.queue.contains(
            standing(st.vocab, st.corpus.freqs, p),
        )
    &&& forall|c: MergeCandidate| #[trigger]
        st.queue.contains(c) ==> c.a < st.vocab.len() && c.rank == vocabulary::script_of(
            st.vocab,
            c.a,
        ).spec_rank()
}

proof fn lemma_start_faithful(rules: TrainRules, v: Seq<EntryModel>, corpus: CorpusModel)
    requires
        corpus.wf(),
    ensures
        faithful(rules, training::start(rules, v, corpus)),
{
    let freqs = corpus.freqs;
    let st = training::start(rules, v, corpus);
    training::lemma_start_queue(rules, v, freqs);
    assert forall|p: Pair| #[trigger] training::admissible(rules, v, freqs, p) implies st.queue.contains(standing(v, freqs, p)) by {
        let c = standing(v, freqs, p);
        assert(training::seeded(rules, v, freqs, c));
        assert(st.queue.count(c) == 1);
    }
    assert forall|c: MergeCandidate| #[trigger] st.queue.contains(c) implies c.a < v.len() && c.rank
        == vocabulary::script_of(v, c.a).spec_rank() by {
        assert(st.queue.count(c) > 0);
        assert(training::seeded(rules, v, freqs, c));
    }
}

/// What is in a queue after pairs were queued afresh.
proof fn lemma_requeued(
    rules: TrainRules,
    v: Seq<EntryModel>,
    freqs: Map<Pair, Frequency>,
    queue: Multiset<MergeCandidate>,
    touched: Seq<Pair>,
)
    ensures
        forall|c: MergeCandidate| #[trigger]
            training::requeued(rules, v, freqs, queue, touched).contains(c) <==> queue.contains(c)
                || (touched.contains((c.a, c.b)) && training::admissible(
                rules,
                v,
                freqs,
                (c.a, c.b),
            ) && c == standing(v, freqs, (c.a, c.b))),
    decreases touched.len(),
{
    broadcast use vstd::multiset::group_multiset_axioms;

    if touched.len() > 0 {
        let d = touched.drop_last();
        let p = touched.last();
        lemma_requeued(rules, v, freqs, queue, d);
        let q = training::requeued(rules, v, freqs, queue, d);
        let r = training::requeued(rules, v, freqs, queue, touched);
        assert forall|x: Pair| #[trigger] touched.contains(x) <==> d.contains(x) || x == p by {
            if touched.contains(x) {
                let i = choose|i: int| 0 <= i < touched.len() && touched[i] == x;
                if i < d.len() {
                    assert(d[i] == x);
                }
            }
            if d.contains(x) {
                let i = choose|i: int| 0 <= i < d.len() && d[i] == x;
                assert(touched[i] == x);
            }
            assert(touched[touched.len() - 1] == p);
        }
        assert forall|c: MergeCandidate| #[trigger] r.contains(c) <==> q.contains(c) || (
        training::admissible(rules, v, freqs, p) && c == standing(v, freqs, p)) by {}
        assert forall|c: MergeCandidate| #[trigger] r.contains(c) <==> queue.contains(c) || (
        touched.contains((c.a, c.b)) && training::admissible(rules, v, freqs, (c.a, c.b)) && c
            == standing(v, freqs, (c.a, c.b))) by {
            assert(q.contains(c) <==> queue.contains(c) || (d.contains((c.a, c.b))
                && training::admissible(rules, v, freqs, (c.a, c.b)) && c == standing(
                v,
                freqs,
                (c.a, c.b),
            )));
        }
    }
}

/// In a faithful queue the next candidate is the best admissible pair.
proof fn lemma_faithful_best(rules: TrainRules, st: TrainState)
    requires
        faithful(rules, st),
        st.corpus.wf(),
    ensures
        training::has_live(rules, st) <==> any_admissible(rules, st.vocab, st.corpus.freqs),
        training::has_live(rules, st) ==> training::best(rules, st) == standing(
            st.vocab,
            st.corpus.freqs,
            top(rules, st.vocab, st.corpus.freqs),
        ) && is_top(
            rules,
            st.vocab,
            st.corpus.freqs,
            top(rules, st.vocab, st.corpus.freqs),
        ),
{
    let v = st.vocab;
    let freqs = st.corpus.freqs;
    if any_admissible(rules, v, freqs) {
        let p = choose|p: Pair| training::admissible(rules, v, freqs, p);
        let c = standing(v, freqs, p);
        assert(st.queue.contains(c) && training::live(rules, v, freqs, c));
    }
    if training::has_live(rules, st) {
        let c = choose|c: MergeCandidate| #[trigger]
            st.queue.contains(c) && training::live(rules, v, freqs, c);
        assert(training::admissible(rules, v, freqs, (c.a, c.b)));
        lemma_top(rules, v, freqs);
        training::lemma_best(rules, st);
        let t = top(rules, v, freqs);
        let g = standing(v, freqs, t);
        assert(st.queue.contains(g));
        assert(training::is_best(rules, st, g)) by {
            assert forall|d: MergeCandidate| #[trigger]
                st.queue.contains(d) && training::live(rules, v, freqs, d) implies !heap::ranks_below(g, d) by {
                assert(training::admissible(rules, v, freqs, (d.a, d.b)));
                assert(d == standing(v, freqs, (d.a, d.b)));
            }
        }
    }
}

/// Merging keeps a corpus closed under the vocabulary.
proof fn lemma_stays_closed(
    rules: TrainRules,
    v: Seq<EntryModel>,
    corpus: CorpusModel,
    p: Pair,
    budget: usize,
)
    requires
        v.len() < usize::MAX,
        closed_under(v, corpus.words, budget),
    ensures
        closed_under(grown(rules, v, p), rewritten(v, corpus, p).words, budget),
        vocabulary::merged_id(v, p.0, p.1) < grown(rules, v, p).len(),
{
    let n = vocabulary::merged_id(v, p.0, p.1);
    let w = grown(rules, v, p);
    let surface = vocabulary::surface_of(v, p.0) + vocabulary::surface_of(v, p.1);
    vocabulary::lemma_id_of(v, surface);
    vocabulary::law_duplicate_merge_guard(v, p.0, p.1, training::narrowed(rules, v, p.0, p.1));
    counting::law_merge_shrinks(corpus, p, n);
    let r = rewritten(v, corpus, p);
    assert forall|k: int, x: TokenId|
        0 <= k < r.words.len() && #[trigger] r.words[k].tokens.contains(x) implies x < w.len() || x
        >= budget by {
        if x != n {
            assert(corpus.words[k].tokens.contains(x));
        }
    }
}

/// A pair with a frequency stands in some word.
proof fn lemma_in_words(corpus: CorpusModel, p: Pair)
    requires
        corpus.wf(),
        pairs::freq_of(corpus.freqs, p) > 0,
    ensures
        exists|k: int|
            0 <= k < corpus.words.len() && #[trigger] corpus.words[k].tokens.contains(p.0)
                && corpus.words[k].tokens.contains(p.1),
{
    assert(pairs::freq_of(corpus.freqs, p) <= counting::pair_count(corpus.words, p));
    counting::lemma_count_occurs(corpus.words, p);
    let k = choose|k: int|
        0 <= k < corpus.words.len() && counting::occurs((#[trigger] corpus.words[k]).tokens, p);
    let t = corpus.words[k].tokens;
    let i = choose|i: int| 0 <= i < t.len() - 1 && #[trigger] t[i] == p.0 && t[i + 1] == p.1;
    assert(corpus.words[k].tokens.contains(t[i]));
    assert(corpus.words[k].tokens.contains(t[i + 1]));
}

/// A merge keeps the queue faithful.
proof fn lemma_step_faithful(rules: TrainRules, st: TrainState, c: MergeCandidate, budget: usize)
    requires
        st.vocab.len() < usize::MAX,
        st.corpus.wf(),
        st.vocab.len() < budget,
        closed_under(st.vocab, st.corpus.words, budget),
        faithful(rules, st),
        training::is_best(rules, st, c),
    ensures
        faithful(rules, training::merge_step(rules, st, c)),
{
    broadcast use vstd::multiset::group_multiset_axioms;

    let v = st.vocab;
    let ab: Pair = (c.a, c.b);
    let n = vocabulary::merged_id(v, c.a, c.b);
    let next = training::merge_step(rules, st, c);
    let w = next.vocab;
    let f0 = st.corpus.freqs;
    let f1 = next.corpus.freqs;
    let rest = training::dequeued(st.queue, c);
    let touched = counting::touched_pairs(st.corpus, ab, n);
    let keep = |d: MergeCandidate| !heap::ranks_below(c, d);
    vocabulary::law_duplicate_merge_guard(v, c.a, c.b, training::narrowed(rules, v, c.a, c.b));
    vocabulary::lemma_extends(w, v);
    counting::law_touched_covers_changes(st.corpus, ab, n);
    counting::law_merge_consumes(st.corpus, ab, n);
    lemma_requeued(rules, w, f1, rest, touched);
    assert forall|d: MergeCandidate| #[trigger] rest.contains(d) implies st.queue.contains(d) by {
        assert(st.queue.filter(keep).count(d) <= st.queue.count(d));
    }
    assert forall|p: Pair| #[trigger] training::admissible(rules, w, f1, p) implies next.queue.contains(standing(w, f1, p)) by {
        let d = standing(w, f1, p);
        if !touched.contains(p) {
            assert(p != ab);
            assert(pairs::freq_of(f1, p) == pairs::freq_of(f0, p));
            lemma_in_words(st.corpus, p);
            assert(p.0 < w.len() && p.1 < w.len() && w.len() <= budget);
            training::law_legality_is_stable(rules, w, v, p.0, p.1, pairs::freq_of(f0, p));
            assert(training::admissible(rules, v, f0, p));
            assert(d == standing(v, f0, p));
            assert(st.queue.contains(d) && training::live(rules, v, f0, d));
            assert(keep(d));
            assert(st.queue.filter(keep).count(d) == st.queue.count(d));
            assert(d != c);
            assert(rest.contains(d));
        }
    }
    assert forall|d: MergeCandidate| #[trigger] next.queue.contains(d) implies d.a < w.len() && d.rank
        == vocabulary::script_of(w, d.a).spec_rank() by {
        if rest.contains(d) {
            assert(st.queue.contains(d));
            assert(vocabulary::script_of(w, d.a) == vocabulary::script_of(v, d.a));
        }
    }
}

proof fn lemma_trained_is_greedy(rules: TrainRules, st: TrainState, budget: usize)
    requires
        st.corpus.wf(),
        closed_under(st.vocab, st.corpus.words, budget),
        faithful(rules, st),
    ensures
        training::trained(rules, st, budget).vocab == greedy(
            rules,
            st.vocab,
            st.corpus,
            budget,
        ).0,
        training::trained(rules, st, budget).corpus == greedy(
            rules,
            st.vocab,
            st.corpus,
            budget,
        ).1,
    decreases counting::token_count(st.corpus.words),
{
    lemma_faithful_best(rules, st);
    if !training::stops(rules, st, budget) {
        let c = training::best(rules, st);
        let p = top(rules, st.vocab, st.corpus.freqs);
        training::lemma_best(rules, st);
        training::lemma_step_shrinks(rules, st, c);
        lemma_step_faithful(rules, st, c, budget);
        lemma_stays_closed(rules, st.vocab, st.corpus, p, budget);
        lemma_trained_is_greedy(rules, training::merge_step(rules, st, c), budget);
    }
}

// ---------------------------------------------------------------------------
// What training depends on
// ---------------------------------------------------------------------------

/// What words come to together, where each counts for something as often as it
/// occurs.
pub open spec fn tally(words: Seq<WordModel>, g: spec_fn(Seq<TokenId>) -> nat) -> nat
    decreases words.len(),
{
    if words.len() == 0 {
        0
    } else {
        tally(words.drop_last(), g) + words.last().count as nat * g(words.last().tokens)
    }
}

/// Whether a sequence of tokens is one of some words.
pub open spec fn has_word(words: Seq<WordModel>, t: Seq<TokenId>) -> bool {
    exists|k: int| 0 <= k < words.len() && (#[trigger] words[k]).tokens == t
}

/// Whether two corpora hold the same words as often, be it in another order or with
/// equal words counted apart.
pub open spec fn alike(x: Seq<WordModel>, y: Seq<WordModel>) -> bool {
    &&& forall|g: spec_fn(Seq<TokenId>) -> nat| #[trigger] tally(x, g) == tally(y, g)
    &&& forall|t: Seq<TokenId>| #[trigger] has_word(x, t) == has_word(y, t)
}

/// Whether no token that stands in the words has an empty surface.
pub open spec fn none_empty(v: Seq<EntryModel>, words: Seq<WordModel>) -> bool {
    forall|k: int, x: TokenId|
        0 <= k < words.len() && #[trigger] words[k].tokens.contains(x) && x < v.len()
            ==> v[x as int].surface.len() > 0
}

/// What holds of the tokens of some words holds of those of words that are alike.
pub proof fn lemma_none_empty_alike(v: Seq<EntryModel>, x: Seq<WordModel>, y: Seq<WordModel>)
    requires
        alike(x, y),
        none_empty(v, x),
    ensures
        none_empty(v, y),
{
    assert forall|k: int, a: TokenId|
        0 <= k < y.len() && #[trigger] y[k].tokens.contains(a) && a < v.len() implies v[a as int].surface.len()
        > 0 by {
        assert(has_word(y, y[k].tokens));
        assert(has_word(x, y[k].tokens));
        let i = choose|i: int| 0 <= i < x.len() && (#[trigger] x[i]).tokens == y[k].tokens;
        assert(x[i].tokens.contains(a));
    }
}

proof fn lemma_tally_concat(x: Seq<WordModel>, y: Seq<WordModel>, g: spec_fn(Seq<TokenId>) -> nat)
    ensures
        tally(x + y, g) == tally(x, g) + tally(y, g),
    decreases y.len(),
{
    if y.len() == 0 {
        assert(x + y =~= x);
    } else {
        lemma_tally_concat(x, y.drop_last(), g);
        assert((x + y).drop_last() =~= x + y.drop_last());
    }
}

/// The same words in another order are alike.
pub proof fn lemma_order_alike(x: Seq<WordModel>, y: Seq<WordModel>)
    requires
        x.to_multiset() == y.to_multiset(),
    ensures
        alike(x, y),
{
    assert forall|g: spec_fn(Seq<TokenId>) -> nat| #[trigger] tally(x, g) == tally(y, g) by {
        lemma_tally_order(x, y, g);
    }
    assert forall|t: Seq<TokenId>| #[trigger] has_word(x, t) == has_word(y, t) by {
        if has_word(x, t) {
            lemma_word_order(x, y, t);
        }
        if has_word(y, t) {
            lemma_word_order(y, x, t);
        }
    }
}

proof fn lemma_word_order(x: Seq<WordModel>, y: Seq<WordModel>, t: Seq<TokenId>)
    requires
        x.to_multiset() == y.to_multiset(),
        has_word(x, t),
    ensures
        has_word(y, t),
{
    broadcast use vstd::seq_lib::group_to_multiset_ensures;

    let k = choose|k: int| 0 <= k < x.len() && (#[trigger] x[k]).tokens == t;
    assert(x.contains(x[k]));
    assert(y.to_multiset().count(x[k]) > 0);
    assert(y.contains(x[k]));
    let i = choose|i: int| 0 <= i < y.len() && y[i] == x[k];
    assert(y[i].tokens == t);
}

proof fn lemma_tally_order(x: Seq<WordModel>, y: Seq<WordModel>, g: spec_fn(Seq<TokenId>) -> nat)
    requires
        x.to_multiset() == y.to_multiset(),
    ensures
        tally(x, g) == tally(y, g),
    decreases x.len(),
{
    broadcast use vstd::seq_lib::group_to_multiset_ensures;

    assert(x.len() == y.len()) by {
        assert(x.to_multiset().len() == x.len());
        assert(y.to_multiset().len() == y.len());
    }
    if x.len() > 0 {
        assert(x.contains(x[x.len() - 1]));
        assert(y.to_multiset().count(x.last()) > 0);
        assert(y.contains(x.last()));
        let j = choose|j: int| 0 <= j < y.len() && y[j] == x.last();
        assert(x.remove(x.len() - 1) =~= x.drop_last());
        lemma_tally_order(x.drop_last(), y.remove(j), g);
        let one = seq![y[j]];
        let l = y.take(j);
        let r = y.skip(j + 1);
        assert(y =~= l + (one + r));
        assert(y.remove(j) =~= l + r);
        lemma_tally_concat(l, one + r, g);
        lemma_tally_concat(one, r, g);
        lemma_tally_concat(l, r, g);
        reveal_with_fuel(tally, 2);
        assert(one.drop_last() =~= Seq::<WordModel>::empty());
    }
}

proof fn lemma_weight_scale(t: Seq<TokenId>, c: nat, f: spec_fn(Pair) -> bool)
    ensures
        counting::weight(t, c, f) == c * counting::weight(t, 1, f),
    decreases t.len(),
{
    if t.len() >= 2 {
        let d = t.drop_last();
        lemma_weight_scale(d, c, f);
        let w = counting::weight(d, 1, f);
        assert(c * (w + 1) == c * w + c) by (nonlinear_arith);
        assert(c * (w + 0) == c * w);
    } else {
        assert(c * 0 == 0);
    }
}

/// The weight of pairs is a tally.
proof fn lemma_weight_tally(words: Seq<WordModel>, f: spec_fn(Pair) -> bool)
    ensures
        counting::words_weight(words, f) == tally(
            words,
            |t: Seq<TokenId>| counting::weight(t, 1, f),
        ),
    decreases words.len(),
{
    if words.len() > 0 {
        lemma_weight_tally(words.drop_last(), f);
        lemma_weight_scale(words.last().tokens, words.last().count as nat, f);
    }
}

/// In alike corpora every pair occurs as often.
pub proof fn lemma_alike_weight(x: Seq<WordModel>, y: Seq<WordModel>, f: spec_fn(Pair) -> bool)
    requires
        alike(x, y),
    ensures
        counting::words_weight(x, f) == counting::words_weight(y, f),
{
    lemma_weight_tally(x, f);
    lemma_weight_tally(y, f);
    let g = |t: Seq<TokenId>| counting::weight(t, 1, f);
    assert(tally(x, g) == tally(y, g));
}

/// A word after a pair was merged in it.
spec fn rewritten_tokens(t: Seq<TokenId>, ab: Pair, n: TokenId) -> Seq<TokenId> {
    let st = MergeState { tokens: t, freqs: Map::empty(), touched: Seq::empty() };
    counting::merge_from(st, ab, n, 0, 0).tokens
}

/// What merging makes of a word depends on the word alone.
proof fn lemma_tokens_alone(
    x: MergeState,
    cx: Frequency,
    y: MergeState,
    cy: Frequency,
    ab: Pair,
    n: TokenId,
    i: int,
)
    requires
        x.tokens == y.tokens,
    ensures
        counting::merge_from(x, ab, n, cx, i).tokens == counting::merge_from(
            y,
            ab,
            n,
            cy,
            i,
        ).tokens,
    decreases x.tokens.len() - i,
{
    if 0 <= i && i + 1 < x.tokens.len() {
        if counting::pair_at(x.tokens, ab, i) {
            let x2 = counting::merge_at(x, n, cx, i);
            let y2 = counting::merge_at(y, n, cy, i);
            assert(x2.tokens.len() < x.tokens.len());
            lemma_tokens_alone(x2, cx, y2, cy, ab, n, i);
        } else {
            lemma_tokens_alone(x, cx, y, cy, ab, n, i + 1);
        }
    }
}

proof fn lemma_tally_merged(
    words: Seq<WordModel>,
    freqs: Map<Pair, Frequency>,
    ab: Pair,
    n: TokenId,
    g: spec_fn(Seq<TokenId>) -> nat,
)
    ensures
        tally(counting::merge_words(words, freqs, ab, n).0, g) == tally(
            words,
            |t: Seq<TokenId>| g(rewritten_tokens(t, ab, n)),
        ),
    decreases words.len(),
{
    if words.len() > 0 {
        let pre = words.drop_last();
        let w = words.last();
        lemma_tally_merged(pre, freqs, ab, n, g);
        let (ws, fs, ts) = counting::merge_words(pre, freqs, ab, n);
        lemma_tokens_alone(
            MergeState { tokens: w.tokens, freqs: fs, touched: ts },
            w.count,
            MergeState { tokens: w.tokens, freqs: Map::empty(), touched: Seq::empty() },
            0,
            ab,
            n,
            0,
        );
        let m = counting::merge_words(words, freqs, ab, n).0;
        assert(m.drop_last() =~= ws);
    }
}

/// What becomes of each word.
proof fn lemma_words_rewritten(
    words: Seq<WordModel>,
    freqs: Map<Pair, Frequency>,
    ab: Pair,
    n: TokenId,
)
    ensures
        counting::merge_words(words, freqs, ab, n).0.len() == words.len(),
        forall|k: int|
            0 <= k < words.len() ==> (#[trigger] counting::merge_words(words, freqs, ab, n).0[k]).tokens
                == rewritten_tokens(words[k].tokens, ab, n),
    decreases words.len(),
{
    if words.len() > 0 {
        let pre = words.drop_last();
        let w = words.last();
        lemma_words_rewritten(pre, freqs, ab, n);
        let (ws, fs, ts) = counting::merge_words(pre, freqs, ab, n);
        lemma_tokens_alone(
            MergeState { tokens: w.tokens, freqs: fs, touched: ts },
            w.count,
            MergeState { tokens: w.tokens, freqs: Map::empty(), touched: Seq::empty() },
            0,
            ab,
            n,
            0,
        );
        let m = counting::merge_words(words, freqs, ab, n).0;
        assert forall|k: int| 0 <= k < words.len() implies (#[trigger] m[k]).tokens
            == rewritten_tokens(words[k].tokens, ab, n) by {
            if k < pre.len() {
                assert(m[k] == ws[k]);
                assert(pre[k] == words[k]);
            }
        }
    }
}

/// Merging keeps corpora alike.
proof fn lemma_merged_alike(x: CorpusModel, y: CorpusModel, ab: Pair, n: TokenId)
    requires
        alike(x.words, y.words),
    ensures
        alike(
            counting::merged_corpus(x, ab, n).words,
            counting::merged_corpus(y, ab, n).words,
        ),
{
    let p = counting::merged_corpus(x, ab, n).words;
    let q = counting::merged_corpus(y, ab, n).words;
    assert forall|g: spec_fn(Seq<TokenId>) -> nat| #[trigger] tally(p, g) == tally(q, g) by {
        lemma_tally_merged(x.words, x.freqs, ab, n, g);
        lemma_tally_merged(y.words, y.freqs, ab, n, g);
        let h = |t: Seq<TokenId>| g(rewritten_tokens(t, ab, n));
        assert(tally(x.words, h) == tally(y.words, h));
    }
    assert forall|t: Seq<TokenId>| #[trigger] has_word(p, t) == has_word(q, t) by {
        if has_word(p, t) {
            lemma_word_merged(x, y, ab, n, t);
        }
        if has_word(q, t) {
            lemma_word_merged(y, x, ab, n, t);
        }
    }
}

proof fn lemma_word_merged(x: CorpusModel, y: CorpusModel, ab: Pair, n: TokenId, t: Seq<TokenId>)
    requires
        forall|u: Seq<TokenId>| #[trigger] has_word(x.words, u) ==> has_word(y.words, u),
        has_word(counting::merged_corpus(x, ab, n).words, t),
    ensures
        has_word(counting::merged_corpus(y, ab, n).words, t),
{
    let p = counting::merged_corpus(x, ab, n).words;
    let q = counting::merged_corpus(y, ab, n).words;
    lemma_words_rewritten(x.words, x.freqs, ab, n);
    lemma_words_rewritten(y.words, y.freqs, ab, n);
    let k = choose|k: int| 0 <= k < p.len() && (#[trigger] p[k]).tokens == t;
    let u = x.words[k].tokens;
    assert(p[k].tokens == rewritten_tokens(u, ab, n));
    assert(has_word(x.words, u));
    assert(has_word(y.words, u));
    let i = choose|i: int| 0 <= i < y.words.len() && (#[trigger] y.words[i]).tokens == u;
    assert(q[i].tokens == rewritten_tokens(u, ab, n));
}

/// Whether merging the two tokens at `i` of a word touches a pair.
spec fn touched_at(t: Seq<TokenId>, n: TokenId, i: int, p: Pair) -> bool {
    ||| i > 0 && (p == (t[i - 1], t[i]) || p == (t[i - 1], n))
    ||| i + 2 < t.len() && (p == (t[i + 1], t[i + 2]) || p == (n, t[i + 2]))
}

/// Whether merging a pair in a word from `i` on touches another pair.
spec fn touched_from(t: Seq<TokenId>, ab: Pair, n: TokenId, i: int, p: Pair) -> bool
    decreases t.len() - i,
{
    if i < 0 || i + 1 >= t.len() {
        false
    } else if counting::pair_at(t, ab, i) {
        touched_at(t, n, i, p) || touched_from(counting::replaced(t, i, n), ab, n, i, p)
    } else {
        touched_from(t, ab, n, i + 1, p)
    }
}

proof fn lemma_touched_at(st: MergeState, n: TokenId, cnt: Frequency, i: int, p: Pair)
    requires
        0 <= i,
        i + 1 < st.tokens.len(),
    ensures
        counting::merge_at(st, n, cnt, i).touched.contains(p) <==> st.touched.contains(p)
            || touched_at(st.tokens, n, i, p),
{
    let t = st.tokens;
    let s1 = if i > 0 {
        st.lose((t[i - 1], t[i]), cnt)
    } else {
        st
    };
    let s2 = counting::after_losses(st, cnt, i);
    let s3 = counting::after_left_gain(st, n, cnt, i);
    if i > 0 {
        counting::lemma_touch(st.touched, (t[i - 1], t[i]));
        counting::lemma_touch(s2.touched, (t[i - 1], n));
    }
    if i + 2 < t.len() {
        counting::lemma_touch(s1.touched, (t[i + 1], t[i + 2]));
        counting::lemma_touch(s3.touched, (n, t[i + 2]));
    }
}

/// Which pairs are touched in a word depends on the word alone.
proof fn lemma_touched_from(
    st: MergeState,
    ab: Pair,
    n: TokenId,
    cnt: Frequency,
    i: int,
    p: Pair,
)
    ensures
        counting::merge_from(st, ab, n, cnt, i).touched.contains(p) <==> st.touched.contains(p)
            || touched_from(st.tokens, ab, n, i, p),
    decreases st.tokens.len() - i,
{
    if 0 <= i && i + 1 < st.tokens.len() {
        if counting::pair_at(st.tokens, ab, i) {
            lemma_touched_at(st, n, cnt, i, p);
            let next = counting::merge_at(st, n, cnt, i);
            assert(next.tokens.len() < st.tokens.len());
            lemma_touched_from(next, ab, n, cnt, i, p);
        } else {
            lemma_touched_from(st, ab, n, cnt, i + 1, p);
        }
    }
}

/// Whether merging a pair touches another in some word.
spec fn touched_in(words: Seq<WordModel>, ab: Pair, n: TokenId, p: Pair) -> bool {
    exists|k: int| 0 <= k < words.len() && touched_from((#[trigger] words[k]).tokens, ab, n, 0, p)
}

proof fn lemma_touched_in(
    words: Seq<WordModel>,
    freqs: Map<Pair, Frequency>,
    ab: Pair,
    n: TokenId,
    p: Pair,
)
    ensures
        counting::merge_words(words, freqs, ab, n).2.contains(p) <==> touched_in(words, ab, n, p),
    decreases words.len(),
{
    if words.len() > 0 {
        let pre = words.drop_last();
        let w = words.last();
        lemma_touched_in(pre, freqs, ab, n, p);
        let (ws, fs, ts) = counting::merge_words(pre, freqs, ab, n);
        lemma_touched_from(
            MergeState { tokens: w.tokens, freqs: fs, touched: ts },
            ab,
            n,
            w.count,
            0,
            p,
        );
        if touched_in(pre, ab, n, p) {
            let k = choose|k: int|
                0 <= k < pre.len() && touched_from((#[trigger] pre[k]).tokens, ab, n, 0, p);
            assert(words[k] == pre[k]);
        }
        if touched_in(words, ab, n, p) {
            let k = choose|k: int|
                0 <= k < words.len() && touched_from((#[trigger] words[k]).tokens, ab, n, 0, p);
            if k < pre.len() {
                assert(pre[k] == words[k]);
            }
        }
        assert(words[words.len() - 1] == w);
    }
}

/// In alike corpora a merge touches the same pairs.
proof fn lemma_touched_alike(x: CorpusModel, y: CorpusModel, ab: Pair, n: TokenId, p: Pair)
    requires
        alike(x.words, y.words),
        counting::touched_pairs(x, ab, n).contains(p),
    ensures
        counting::touched_pairs(y, ab, n).contains(p),
{
    lemma_touched_in(x.words, x.freqs, ab, n, p);
    lemma_touched_in(y.words, y.freqs, ab, n, p);
    let k = choose|k: int|
        0 <= k < x.words.len() && touched_from((#[trigger] x.words[k]).tokens, ab, n, 0, p);
    let t = x.words[k].tokens;
    assert(has_word(x.words, t));
    assert(has_word(y.words, t));
    let i = choose|i: int| 0 <= i < y.words.len() && (#[trigger] y.words[i]).tokens == t;
    assert(touched_from(y.words[i].tokens, ab, n, 0, p));
}

/// How often a candidate is in a queue after pairs were queued afresh.
proof fn lemma_requeued_count(
    rules: TrainRules,
    v: Seq<EntryModel>,
    freqs: Map<Pair, Frequency>,
    queue: Multiset<MergeCandidate>,
    touched: Seq<Pair>,
    c: MergeCandidate,
)
    requires
        touched.no_duplicates(),
    ensures
        training::requeued(rules, v, freqs, queue, touched).count(c) == queue.count(c) + (
        if touched.contains((c.a, c.b)) && training::admissible(rules, v, freqs, (c.a, c.b)) && c
            == standing(v, freqs, (c.a, c.b)) {
            1nat
        } else {
            0nat
        }),
    decreases touched.len(),
{
    broadcast use vstd::multiset::group_multiset_axioms;

    if touched.len() > 0 {
        let d = touched.drop_last();
        let p = touched.last();
        let x = (c.a, c.b);
        assert(touched[touched.len() - 1] == p);
        assert forall|i: int, j: int| 0 <= i < d.len() && 0 <= j < d.len() && i != j implies d[i]
            != d[j] by {
            assert(touched[i] == d[i] && touched[j] == d[j]);
        }
        lemma_requeued_count(rules, v, freqs, queue, d, c);
        if d.contains(x) {
            let i = choose|i: int| 0 <= i < d.len() && d[i] == x;
            assert(touched[i] == x);
            assert(x != p);
        }
        if touched.contains(x) {
            let i = choose|i: int| 0 <= i < touched.len() && touched[i] == x;
            if i < d.len() {
                assert(d[i] == x);
            }
        }
    }
}

/// Whether two runs of training are in step: they have the same vocabulary, corpora that
/// are alike, and the same candidates in their queues, but for those without a frequency.
spec fn in_step(x: TrainState, y: TrainState) -> bool {
    &&& x.vocab == y.vocab
    &&& x.corpus.wf() && x.corpus.exact()
    &&& y.corpus.wf() && y.corpus.exact()
    &&& alike(x.corpus.words, y.corpus.words)
    &&& forall|c: MergeCandidate| #![trigger x.queue.count(c)] #![trigger y.queue.count(c)]
        c.freq > 0 ==> x.queue.count(c) == y.queue.count(c)
}

proof fn lemma_same_freqs(x: CorpusModel, y: CorpusModel)
    requires
        x.exact(),
        y.exact(),
        alike(x.words, y.words),
    ensures
        forall|p: Pair| #[trigger] pairs::freq_of(x.freqs, p) == pairs::freq_of(y.freqs, p),
{
    assert forall|p: Pair| #[trigger] pairs::freq_of(x.freqs, p) == pairs::freq_of(y.freqs, p) by {
        lemma_alike_weight(x.words, y.words, counting::is_pair(p));
        assert(pairs::freq_of(y.freqs, p) == counting::pair_count(y.words, p));
    }
}

/// Corpora that are alike start in step.
proof fn lemma_start_in_step(rules: TrainRules, v: Seq<EntryModel>, x: CorpusModel, y: CorpusModel)
    requires
        x.wf() && x.exact(),
        y.wf() && y.exact(),
        alike(x.words, y.words),
    ensures
        in_step(training::start(rules, v, x), training::start(rules, v, y)),
{
    lemma_same_freqs(x, y);
    training::lemma_start_queue(rules, v, x.freqs);
    training::lemma_start_queue(rules, v, y.freqs);
    assert forall|c: MergeCandidate| c.freq > 0 implies training::seeded(rules, v, x.freqs, c)
        == training::seeded(rules, v, y.freqs, c) by {
        let p: Pair = (c.a, c.b);
        assert(pairs::freq_of(x.freqs, p) == pairs::freq_of(y.freqs, p));
    }
}

/// Runs that are in step merge the same next.
proof fn lemma_best_in_step(rules: TrainRules, x: TrainState, y: TrainState)
    requires
        in_step(x, y),
    ensures
        training::has_live(rules, x) ==> training::has_live(rules, y),
        training::has_live(rules, x) ==> training::best(rules, x) == training::best(rules, y),
{
    lemma_same_freqs(x.corpus, y.corpus);
    let v = x.vocab;
    let f = x.corpus.freqs;
    let g = y.corpus.freqs;
    assert forall|c: MergeCandidate| #[trigger] training::live(rules, v, f, c) == training::live(rules, v, g, c) by {
        assert(pairs::freq_of(f, (c.a, c.b)) == pairs::freq_of(g, (c.a, c.b)));
    }
    if training::has_live(rules, x) {
        let c = choose|c: MergeCandidate| #[trigger]
            x.queue.contains(c) && training::live(rules, v, f, c);
        assert(x.queue.count(c) == y.queue.count(c));
        assert(y.queue.contains(c) && training::live(rules, v, g, c));
        training::lemma_best(rules, x);
        training::lemma_best(rules, y);
        let b = training::best(rules, x);
        assert(training::is_best(rules, y, b)) by {
            assert(x.queue.count(b) == y.queue.count(b));
            assert forall|d: MergeCandidate| #[trigger]
                y.queue.contains(d) && training::live(rules, v, g, d) implies !heap::ranks_below(b, d) by {
                assert(x.queue.count(d) == y.queue.count(d));
                assert(x.queue.contains(d) && training::live(rules, v, f, d));
            }
        }
    }
}

/// The token that a live candidate is merged into is not its right part, and has a
/// surface; and so do all tokens that the words then have.
proof fn lemma_step_none_empty(rules: TrainRules, st: TrainState, c: MergeCandidate)
    requires
        st.vocab.len() < usize::MAX,
        st.corpus.wf(),
        none_empty(st.vocab, st.corpus.words),
        training::live(rules, st.vocab, st.corpus.freqs, c),
    ensures
        vocabulary::merged_id(st.vocab, c.a, c.b) != c.b,
        none_empty(
            training::merge_step(rules, st, c).vocab,
            training::merge_step(rules, st, c).corpus.words,
        ),
{
    let v = st.vocab;
    let p: Pair = (c.a, c.b);
    let n = vocabulary::merged_id(v, c.a, c.b);
    let next = training::merge_step(rules, st, c);
    let w = next.vocab;
    let surface = vocabulary::surface_of(v, c.a) + vocabulary::surface_of(v, c.b);
    assert(c.a < v.len() && c.b < v.len());
    lemma_in_words(st.corpus, p);
    assert(v[c.a as int].surface.len() > 0);
    assert(surface.len() > v[c.b as int].surface.len());
    vocabulary::lemma_id_of(v, surface);
    vocabulary::law_duplicate_merge_guard(v, c.a, c.b, training::narrowed(rules, v, c.a, c.b));
    vocabulary::lemma_extends(w, v);
    assert(w[n as int].surface == surface);
    counting::law_merge_shrinks(st.corpus, p, n);
    assert forall|k: int, x: TokenId|
        0 <= k < next.corpus.words.len() && #[trigger] next.corpus.words[k].tokens.contains(x) && x
            < w.len() implies w[x as int].surface.len() > 0 by {
        if x != n {
            assert(st.corpus.words[k].tokens.contains(x));
            assert(w[x as int] == v[x as int]);
        }
    }
}

/// A merge keeps runs in step.
proof fn lemma_stays_in_step(rules: TrainRules, x: TrainState, y: TrainState, c: MergeCandidate)
    requires
        x.vocab.len() < usize::MAX,
        in_step(x, y),
        none_empty(x.vocab, x.corpus.words),
        training::live(rules, x.vocab, x.corpus.freqs, c),
        training::live(rules, y.vocab, y.corpus.freqs, c),
    ensures
        in_step(training::merge_step(rules, x, c), training::merge_step(rules, y, c)),
{
    broadcast use vstd::multiset::group_multiset_axioms;

    let v = x.vocab;
    let ab: Pair = (c.a, c.b);
    let n = vocabulary::merged_id(v, c.a, c.b);
    let p = training::merge_step(rules, x, c);
    let q = training::merge_step(rules, y, c);
    let w = p.vocab;
    lemma_step_none_empty(rules, x, c);
    training::lemma_step_shrinks(rules, x, c);
    training::lemma_step_shrinks(rules, y, c);
    counting::law_merge_keeps_exact(x.corpus, ab, n);
    counting::law_merge_keeps_exact(y.corpus, ab, n);
    lemma_merged_alike(x.corpus, y.corpus, ab, n);
    lemma_same_freqs(p.corpus, q.corpus);
    counting::law_touched_covers_changes(x.corpus, ab, n);
    counting::law_touched_covers_changes(y.corpus, ab, n);
    let s = counting::touched_pairs(x.corpus, ab, n);
    let t = counting::touched_pairs(y.corpus, ab, n);
    let keep = |d: MergeCandidate| !heap::ranks_below(c, d);
    assert forall|d: MergeCandidate| d.freq > 0 implies p.queue.count(d) == q.queue.count(d) by {
        assert(x.queue.count(d) == y.queue.count(d));
        assert(x.queue.filter(keep).count(d) == y.queue.filter(keep).count(d));
        let a = training::dequeued(x.queue, c);
        let b = training::dequeued(y.queue, c);
        assert(a.count(d) == b.count(d));
        lemma_requeued_count(rules, w, p.corpus.freqs, a, s, d);
        lemma_requeued_count(rules, w, q.corpus.freqs, b, t, d);
        let e: Pair = (d.a, d.b);
        assert(pairs::freq_of(p.corpus.freqs, e) == pairs::freq_of(q.corpus.freqs, e));
        if s.contains(e) {
            lemma_touched_alike(x.corpus, y.corpus, ab, n, e);
        }
        if t.contains(e) {
            lemma_touched_alike(y.corpus, x.corpus, ab, n, e);
        }
    }
}

/// Runs that are in step end in step.
proof fn lemma_trained_in_step(rules: TrainRules, x: TrainState, y: TrainState, budget: usize)
    requires
        in_step(x, y),
        none_empty(x.vocab, x.corpus.words),
    ensures
        in_step(training::trained(rules, x, budget), training::trained(rules, y, budget)),
        none_empty(
            training::trained(rules, x, budget).vocab,
            training::trained(rules, x, budget).corpus.words,
        ),
    decreases counting::token_count(x.corpus.words),
{
    lemma_best_in_step(rules, x, y);
    lemma_best_in_step(rules, y, x);
    if !training::stops(rules, x, budget) {
        let c = training::best(rules, x);
        training::lemma_best(rules, x);
        training::lemma_best(rules, y);
        training::lemma_step_shrinks(rules, x, c);
        lemma_step_none_empty(rules, x, c);
        lemma_stays_in_step(rules, x, y, c);
        lemma_trained_in_step(
            rules,
            training::merge_step(rules, x, c),
            training::merge_step(rules, y, c),
            budget,
        );
    }
}

// ---------------------------------------------------------------------------
// Laws
// ---------------------------------------------------------------------------

/// Training is greedy: where no token of the corpus is yet to be minted, each step merges
/// the best admissible pair of the whole corpus, until the budget is reached or no pair
/// is admissible. No legal pair is ever lost from the queue, and no outdated one is
/// merged.
pub proof fn law_training_is_greedy(
    rules: TrainRules,
    v: Seq<EntryModel>,
    corpus: CorpusModel,
    budget: usize,
)
    requires
        corpus.wf(),
        closed_under(v, corpus.words, budget),
    ensures
        training::trained(rules, training::start(rules, v, corpus), budget).vocab == greedy(
            rules,
            v,
            corpus,
            budget,
        ).0,
        training::trained(rules, training::start(rules, v, corpus), budget).corpus == greedy(
            rules,
            v,
            corpus,
            budget,
        ).1,
{
    lemma_start_faithful(rules, v, corpus);
    lemma_trained_is_greedy(rules, training::start(rules, v, corpus), budget);
}

/// Training depends on which words there are and how often they occur, and on nothing
/// else: where no token that stands in the words has an empty surface, corpora that are
/// alike give the same vocabulary, and are left alike, so that a further pass gives the
/// same vocabulary too.
pub proof fn law_training_depends_on_counts(
    rules: TrainRules,
    v: Seq<EntryModel>,
    x: CorpusModel,
    y: CorpusModel,
    budget: usize,
)
    requires
        x.wf() && x.exact(),
        y.wf() && y.exact(),
        alike(x.words, y.words),
        none_empty(v, x.words),
    ensures
        ({
            let p = training::trained(rules, training::start(rules, v, x), budget);
            let q = training::trained(rules, training::start(rules, v, y), budget);
            &&& p.vocab == q.vocab
            &&& p.corpus.wf() && p.corpus.exact()
            &&& q.corpus.wf() && q.corpus.exact()
            &&& alike(p.corpus.words, q.corpus.words)
            &&& none_empty(p.vocab, p.corpus.words)
        }),
{
    lemma_start_in_step(rules, v, x, y);
    lemma_trained_in_step(
        rules,
        training::start(rules, v, x),
        training::start(rules, v, y),
        budget,
    );
}

/// The frequencies stay exact through all of training, where no token that stands in the
/// words has an empty surface.
pub proof fn law_training_keeps_exact(
    rules: TrainRules,
    v: Seq<EntryModel>,
    words: Seq<WordModel>,
    budget: usize,
)
    requires
        counting::total_weight(words) <= u64::MAX,
        none_empty(v, words),
    ensures
        training::trained(rules, training::start(rules, v, counted(words)), budget).corpus.exact(),
{
    lemma_counted_alike(words, words);
    law_training_depends_on_counts(rules, v, counted(words), counted(words), budget);
}

/// Where no token that stands in the words has an empty surface, every token that training
/// adds has a surface of two characters or more.
pub proof fn law_merged_surfaces_are_long(rules: TrainRules, st: TrainState, budget: usize)
    requires
        st.corpus.wf(),
        st.vocab.len() <= usize::MAX,
        none_empty(st.vocab, st.corpus.words),
    ensures
        forall|i: int|
            st.vocab.len() <= i < training::trained(rules, st, budget).vocab.len() ==> (
            #[trigger] training::trained(rules, st, budget).vocab[i]).surface.len() >= 2,
    decreases counting::token_count(st.corpus.words),
{
    if !training::stops(rules, st, budget) {
        training::lemma_best(rules, st);
        let c = training::best(rules, st);
        let v = st.vocab;
        let next = training::merge_step(rules, st, c);
        let end = training::trained(rules, st, budget);
        training::lemma_step_shrinks(rules, st, c);
        lemma_step_none_empty(rules, st, c);
        lemma_in_words(st.corpus, (c.a, c.b));
        law_merged_surfaces_are_long(rules, next, budget);
        training::law_training_adds_legal_merges(rules, next, budget);
        vocabulary::lemma_extends(end.vocab, next.vocab);
        assert forall|i: int| v.len() <= i < end.vocab.len() implies (#[trigger] end.vocab[i]).surface.len()
            >= 2 by {
            if i < next.vocab.len() {
                assert(end.vocab[i] == next.vocab[i]);
                assert(v[c.a as int].surface.len() > 0 && v[c.b as int].surface.len() > 0);
            }
        }
    }
}

/// Training is reproducible: where no token that stands in the words has an empty surface,
/// the order of the words has no say in the trained vocabulary.
pub proof fn law_training_is_reproducible(
    rules: TrainRules,
    v: Seq<EntryModel>,
    x: Seq<WordModel>,
    y: Seq<WordModel>,
    budget: usize,
)
    requires
        x.to_multiset() == y.to_multiset(),
        counting::total_weight(x) <= u64::MAX,
        none_empty(v, x),
    ensures
        training::trained(rules, training::start(rules, v, counted(x)), budget).vocab
            == training::trained(rules, training::start(rules, v, counted(y)), budget).vocab,
{
    lemma_order_alike(x, y);
    lemma_counted_alike(x, y);
    law_training_depends_on_counts(rules, v, counted(x), counted(y), budget);
}

/// Alike words are counted alike.
pub proof fn lemma_counted_alike(x: Seq<WordModel>, y: Seq<WordModel>)
    requires
        alike(x, y),
        counting::total_weight(x) <= u64::MAX,
    ensures
        counted(x).wf() && counted(x).exact(),
        counted(y).wf() && counted(y).exact(),
{
    lemma_alike_weight(x, y, counting::any_pair());
    counting::law_counted_exact(x);
    counting::law_counted_exact(y);
}

/// The corpus of some words, freshly counted.
pub open spec fn counted(words: Seq<WordModel>) -> CorpusModel {
    CorpusModel { words, freqs: counting::pair_table(words) }
}

// ---------------------------------------------------------------------------
// What merging makes of a word
// ---------------------------------------------------------------------------

/// A word after a pair was merged in it from a place on.
spec fn rewritten_from(t: Seq<TokenId>, ab: Pair, n: TokenId, i: int) -> Seq<TokenId>
    decreases t.len() - i,
{
    if i < 0 || i + 1 >= t.len() {
        t
    } else if counting::pair_at(t, ab, i) {
        rewritten_from(counting::replaced(t, i, n), ab, n, i)
    } else {
        rewritten_from(t, ab, n, i + 1)
    }
}

proof fn lemma_rewritten_from(st: MergeState, ab: Pair, n: TokenId, cnt: Frequency, i: int)
    ensures
        counting::merge_from(st, ab, n, cnt, i).tokens == rewritten_from(st.tokens, ab, n, i),
    decreases st.tokens.len() - i,
{
    if 0 <= i && i + 1 < st.tokens.len() {
        if counting::pair_at(st.tokens, ab, i) {
            let next = counting::merge_at(st, n, cnt, i);
            assert(next.tokens.len() < st.tokens.len());
            lemma_rewritten_from(next, ab, n, cnt, i);
        } else {
            lemma_rewritten_from(st, ab, n, cnt, i + 1);
        }
    }
}

proof fn lemma_rewritten_shift(x: Seq<TokenId>, u: Seq<TokenId>, ab: Pair, n: TokenId, i: int)
    requires
        0 <= i,
    ensures
        rewritten_from(x + u, ab, n, x.len() + i) == x + rewritten_from(u, ab, n, i),
    decreases u.len() - i,
{
    let t = x + u;
    let k = x.len() + i;
    if i + 1 < u.len() {
        assert(t[k] == u[i] && t[k + 1] == u[i + 1]);
        if counting::pair_at(u, ab, i) {
            let r = counting::replaced(u, i, n);
            assert(counting::replaced(t, k, n) =~= x + r);
            lemma_rewritten_shift(x, r, ab, n, i);
        } else {
            lemma_rewritten_shift(x, u, ab, n, i + 1);
        }
    }
}

proof fn lemma_rewritten_skips(t: Seq<TokenId>, ab: Pair, n: TokenId, i: int, k: int)
    requires
        0 <= i <= k,
        k + 1 < t.len() || k == t.len(),
        forall|j: int| i <= j < k && j + 1 < t.len() ==> !(#[trigger] t[j] == ab.0 && t[j + 1] == ab.1),
    ensures
        k < t.len() ==> rewritten_from(t, ab, n, i) == rewritten_from(t, ab, n, k),
        k == t.len() ==> rewritten_from(t, ab, n, i) == t,
    decreases k - i,
{
    if i < k && i + 1 < t.len() {
        assert(!(t[i] == ab.0 && t[i + 1] == ab.1));
        lemma_rewritten_skips(t, ab, n, i + 1, k);
    }
}

/// Merging a pair rewrites each word on its own, from left to right: what is before the first
/// place where the pair stands stays; there the merged token is written; and from it on the
/// word goes on as a word that starts with it would. A word in which the pair does not stand
/// stays as it is. How often words occur never changes.
pub proof fn law_merging_rewrites_words(
    c: CorpusModel,
    k: int,
    d: CorpusModel,
    j: int,
    x: Seq<TokenId>,
    y: Seq<TokenId>,
    ab: Pair,
    n: TokenId,
)
    requires
        0 <= k < c.words.len(),
        0 <= j < d.words.len(),
    ensures
        counting::merged_corpus(c, ab, n).words.len() == c.words.len(),
        counting::merged_corpus(c, ab, n).words[k].count == c.words[k].count,
        (forall|i: int|
            0 <= i && i + 1 < c.words[k].tokens.len() ==> !(#[trigger] c.words[k].tokens[i] == ab.0
                && c.words[k].tokens[i + 1] == ab.1)) ==> counting::merged_corpus(
            c,
            ab,
            n,
        ).words[k].tokens == c.words[k].tokens,
        c.words[k].tokens == x + seq![ab.0, ab.1] + y && (forall|i: int|
            0 <= i < x.len() ==> !(#[trigger] c.words[k].tokens[i] == ab.0 && c.words[k].tokens[i + 1]
                == ab.1)) && d.words[j].tokens == seq![n] + y ==> counting::merged_corpus(
            c,
            ab,
            n,
        ).words[k].tokens == x + counting::merged_corpus(d, ab, n).words[j].tokens,
{
    counting::lemma_merge_words_each(c.words, c.freqs, ab, n);
    lemma_words_rewritten(c.words, c.freqs, ab, n);
    lemma_words_rewritten(d.words, d.freqs, ab, n);
    let t = c.words[k].tokens;
    let u = d.words[j].tokens;
    let fresh = |w: Seq<TokenId>| MergeState { tokens: w, freqs: Map::empty(), touched: Seq::empty() };
    lemma_rewritten_from(fresh(t), ab, n, 0, 0);
    lemma_rewritten_from(fresh(u), ab, n, 0, 0);
    assert(counting::merged_corpus(c, ab, n).words[k].tokens == rewritten_from(t, ab, n, 0));
    assert(counting::merged_corpus(d, ab, n).words[j].tokens == rewritten_from(u, ab, n, 0));
    if forall|i: int|
        0 <= i && i + 1 < t.len() ==> !(#[trigger] t[i] == ab.0 && t[i + 1] == ab.1) {
        lemma_rewritten_skips(t, ab, n, 0, t.len() as int);
    }
    if t == x + seq![ab.0, ab.1] + y && (forall|i: int|
        0 <= i < x.len() ==> !(#[trigger] t[i] == ab.0 && t[i + 1] == ab.1)) && u == seq![n] + y {
        let m = x.len() as int;
        assert(t[m] == ab.0 && t[m + 1] == ab.1);
        lemma_rewritten_skips(t, ab, n, 0, m);
        assert(counting::replaced(t, m, n) =~= x + u);
        lemma_rewritten_shift(x, u, ab, n, 0);
    }
}

/// A merge touches no pairs but those of the merged token and those of its two parts with
/// their neighbours.
pub proof fn law_touched_pairs(c: CorpusModel, ab: Pair, n: TokenId, p: Pair)
    requires
        counting::touched_pairs(c, ab, n).contains(p),
    ensures
        p.0 == n || p.1 == n || p.1 == ab.0 || p.0 == ab.1,
{
    lemma_touched_in(c.words, c.freqs, ab, n, p);
    let k = choose|k: int|
        0 <= k < c.words.len() && touched_from((#[trigger] c.words[k]).tokens, ab, n, 0, p);
    lemma_touched_near(c.words[k].tokens, ab, n, 0, p);
}

proof fn lemma_touched_near(t: Seq<TokenId>, ab: Pair, n: TokenId, i: int, p: Pair)
    requires
        touched_from(t, ab, n, i, p),
    ensures
        p.0 == n || p.1 == n || p.1 == ab.0 || p.0 == ab.1,
    decreases t.len() - i,
{
    if 0 <= i && i + 1 < t.len() {
        if counting::pair_at(t, ab, i) {
            if !touched_at(t, n, i, p) {
                lemma_touched_near(counting::replaced(t, i, n), ab, n, i, p);
            }
        } else {
            lemma_touched_near(t, ab, n, i + 1, p);
        }
    }
}

/// What becomes of the words does not depend on the table.
pub proof fn lemma_same_words(
    words: Seq<WordModel>,
    f: Map<Pair, Frequency>,
    g: Map<Pair, Frequency>,
    ab: Pair,
    n: TokenId,
)
    ensures
        counting::merge_words(words, f, ab, n).0 == counting::merge_words(words, g, ab, n).0,
{
    lemma_words_rewritten(words, f, ab, n);
    lemma_words_rewritten(words, g, ab, n);
    counting::lemma_merge_words_each(words, f, ab, n);
    counting::lemma_merge_words_each(words, g, ab, n);
    let x = counting::merge_words(words, f, ab, n).0;
    let y = counting::merge_words(words, g, ab, n).0;
    assert forall|k: int| 0 <= k < words.len() implies x[k] == y[k] by {
        assert(x[k].tokens == y[k].tokens && x[k].count == y[k].count);
    }
    assert(x =~= y);
}

/// What a merge of an admissible pair keeps.
pub proof fn lemma_step_keeps(
    rules: TrainRules,
    v: Seq<EntryModel>,
    corpus: CorpusModel,
    p: Pair,
    room: usize,
)
    requires
        v.len() < usize::MAX,
        corpus.wf(),
        corpus.exact(),
        none_empty(v, corpus.words),
        closed_under(v, corpus.words, room),
        training::admissible(rules, v, corpus.freqs, p),
    ensures
        rewritten(v, corpus, p).exact(),
        none_empty(grown(rules, v, p), rewritten(v, corpus, p).words),
        closed_under(grown(rules, v, p), rewritten(v, corpus, p).words, room),
{
    let st = TrainState { vocab: v, corpus, queue: Multiset::empty() };
    let c = standing(v, corpus.freqs, p);
    lemma_step_none_empty(rules, st, c);
    lemma_stays_closed(rules, v, corpus, p, room);
    counting::law_merge_keeps_exact(corpus, p, vocabulary::merged_id(v, p.0, p.1));
}

} // verus!
