//! What training is, as mathematics: which merges are legal, which of them comes
//! next, and what it does.
use crate::counting::CorpusModel;
use crate::counting;
use crate::heap::MergeCandidate;
use crate::heap;
use crate::pairs::{Frequency, Pair, TokenId};
use crate::pairs;
use crate::paradigm::ParadigmModel;
use crate::paradigm;
use crate::script::Script;
use crate::token::{RootId, TokenModel};
use crate::vocabulary::EntryModel;
use crate::vocabulary;
use vstd::multiset::Multiset;
use vstd::prelude::*;

verus! {

/// What a training pass goes by: the paradigms, the threshold for ambiguous
/// tokens, and whether it is the Latin pass.
pub struct TrainRules {
    pub paradigms: Seq<ParadigmModel>,
    pub theta: Frequency,
    pub latin: bool,
}

/// Where training stands: the vocabulary, the corpus, and the queue of candidates.
pub struct TrainState {
    pub vocab: Seq<EntryModel>,
    pub corpus: CorpusModel,
    pub queue: Multiset<MergeCandidate>,
}

/// Whether two tokens are of one script, and of one that the pass merges: Latin
/// in the Latin pass, Devanagari or punctuation in the other.
pub open spec fn script_compat(rules: TrainRules, v: Seq<EntryModel>, a: TokenId, b: TokenId) -> bool {
    let s = vocabulary::script_of(v, a);
    &&& s == vocabulary::script_of(v, b)
    &&& if rules.latin {
        s == Script::LAT
    } else {
        s == Script::DEV || s == Script::PUN
    }
}

/// Whether the tags of two tokens let them merge: a strict token never merges, an
/// ambiguous one not as the right part, and as the left part only where the pair
/// is more frequent than the threshold. The Latin pass has no tags.
pub open spec fn tags_allow(
    rules: TrainRules,
    v: Seq<EntryModel>,
    a: TokenId,
    b: TokenId,
    freq: Frequency,
) -> bool {
    rules.latin || {
        &&& !vocabulary::strict_in(v, b)
        &&& !vocabulary::ambiguous_in(v, b)
        &&& !vocabulary::strict_in(v, a)
        &&& vocabulary::ambiguous_in(v, a) ==> freq > rules.theta
    }
}

/// Whether scripts and tags let a pair merge.
pub open spec fn gate(
    rules: TrainRules,
    v: Seq<EntryModel>,
    a: TokenId,
    b: TokenId,
    freq: Frequency,
) -> bool {
    script_compat(rules, v, a, b) && tags_allow(rules, v, a, b, freq)
}

/// Whether a root lets the right token follow the left one.
pub open spec fn root_permits(
    rules: TrainRules,
    v: Seq<EntryModel>,
    a: TokenId,
    b: TokenId,
    root: RootId,
) -> bool {
    paradigm::root_allows(
        rules.paradigms,
        root,
        vocabulary::surface_of(v, a),
        vocabulary::surface_of(v, b),
    )
}

/// Whether morphology lets two tokens merge: some root of the left one allows it.
/// Morphology has nothing to say of a token without roots, nor in the Latin pass.
pub open spec fn morph(rules: TrainRules, v: Seq<EntryModel>, a: TokenId, b: TokenId) -> bool {
    let roots = vocabulary::roots_of(v, a);
    ||| rules.latin
    ||| roots.len() == 0
    ||| exists|i: int| 0 <= i < roots.len() && root_permits(rules, v, a, b, #[trigger] roots[i])
}

/// Whether a pair may be merged.
pub open spec fn legal(
    rules: TrainRules,
    v: Seq<EntryModel>,
    a: TokenId,
    b: TokenId,
    freq: Frequency,
) -> bool {
    gate(rules, v, a, b, freq) && morph(rules, v, a, b)
}

/// The roots that the merged token has: those of the left token that allow the
/// merge.
pub open spec fn narrowed(rules: TrainRules, v: Seq<EntryModel>, a: TokenId, b: TokenId) -> Seq<RootId> {
    if rules.latin {
        Seq::empty()
    } else {
        vocabulary::roots_of(v, a).filter(|root: RootId| root_permits(rules, v, a, b, root))
    }
}

/// The candidate that a pair is queued as.
pub open spec fn candidate(v: Seq<EntryModel>, p: Pair, freq: Frequency) -> MergeCandidate {
    MergeCandidate {
        rank: vocabulary::script_of(v, p.0).spec_rank(),
        freq,
        a: p.0,
        b: p.1,
    }
}

/// Whether a pair has a frequency and may be merged.
pub open spec fn admissible(
    rules: TrainRules,
    v: Seq<EntryModel>,
    freqs: Map<Pair, Frequency>,
    p: Pair,
) -> bool {
    pairs::freq_of(freqs, p) > 0 && legal(rules, v, p.0, p.1, pairs::freq_of(freqs, p))
}

/// Whether a candidate can still be merged: its frequency is up to date, and it is
/// admissible.
pub open spec fn live(
    rules: TrainRules,
    v: Seq<EntryModel>,
    freqs: Map<Pair, Frequency>,
    c: MergeCandidate,
) -> bool {
    c.freq == pairs::freq_of(freqs, (c.a, c.b)) && admissible(rules, v, freqs, (c.a, c.b))
}

/// Whether a candidate is queued at the start: it stands for a legal pair of the
/// table.
pub open spec fn seeded(
    rules: TrainRules,
    v: Seq<EntryModel>,
    freqs: Map<Pair, Frequency>,
    c: MergeCandidate,
) -> bool {
    &&& freqs.contains_key((c.a, c.b))
    &&& c == candidate(v, (c.a, c.b), freqs[(c.a, c.b)])
    &&& legal(rules, v, c.a, c.b, c.freq)
}

/// The candidates that are queued at the start, each once.
pub open spec fn start_queue(
    rules: TrainRules,
    v: Seq<EntryModel>,
    freqs: Map<Pair, Frequency>,
) -> Multiset<MergeCandidate> {
    Multiset::from_set(Set::new(|c: MergeCandidate| seeded(rules, v, freqs, c)))
}

/// A queue with fresh candidates for those of some pairs that are admissible.
pub open spec fn requeued(
    rules: TrainRules,
    v: Seq<EntryModel>,
    freqs: Map<Pair, Frequency>,
    queue: Multiset<MergeCandidate>,
    touched: Seq<Pair>,
) -> Multiset<MergeCandidate>
    decreases touched.len(),
{
    if touched.len() == 0 {
        queue
    } else {
        let q = requeued(rules, v, freqs, queue, touched.drop_last());
        let p = touched.last();
        if admissible(rules, v, freqs, p) {
            q.insert(candidate(v, p, pairs::freq_of(freqs, p)))
        } else {
            q
        }
    }
}

/// Whether a candidate is the next to be merged: it is live, and no live one in
/// the queue ranks above it.
pub open spec fn is_best(rules: TrainRules, st: TrainState, c: MergeCandidate) -> bool {
    &&& st.queue.contains(c)
    &&& live(rules, st.vocab, st.corpus.freqs, c)
    &&& forall|d: MergeCandidate| #[trigger]
        st.queue.contains(d) && live(rules, st.vocab, st.corpus.freqs, d) ==> !heap::ranks_below(
            c,
            d,
        )
}

/// Whether some candidate in the queue is live.
pub open spec fn has_live(rules: TrainRules, st: TrainState) -> bool {
    exists|c: MergeCandidate| #[trigger]
        st.queue.contains(c) && live(rules, st.vocab, st.corpus.freqs, c)
}

/// The candidate that is merged next.
pub open spec fn best(rules: TrainRules, st: TrainState) -> MergeCandidate {
    choose|c: MergeCandidate| is_best(rules, st, c)
}

/// What is left in the queue when a candidate was taken out, and with it all that
/// rank above it.
pub open spec fn dequeued(queue: Multiset<MergeCandidate>, c: MergeCandidate) -> Multiset<
    MergeCandidate,
> {
    queue.filter(|d: MergeCandidate| !heap::ranks_below(c, d)).remove(c)
}

/// The state after a candidate was merged: its token is minted, the corpus is
/// rewritten, and the pairs whose frequency changed are queued afresh.
pub open spec fn merge_step(rules: TrainRules, st: TrainState, c: MergeCandidate) -> TrainState {
    let ab = (c.a, c.b);
    let v = vocabulary::merged(st.vocab, c.a, c.b, narrowed(rules, st.vocab, c.a, c.b));
    let n = vocabulary::merged_id(st.vocab, c.a, c.b);
    let corpus = counting::merged_corpus(st.corpus, ab, n);
    TrainState {
        vocab: v,
        corpus,
        queue: requeued(
            rules,
            v,
            corpus.freqs,
            dequeued(st.queue, c),
            counting::touched_pairs(st.corpus, ab, n),
        ),
    }
}

/// Whether training stops: the vocabulary has the size that was asked for, or no
/// candidate is live.
pub open spec fn stops(rules: TrainRules, st: TrainState, budget: usize) -> bool {
    st.vocab.len() >= budget || !has_live(rules, st)
}

/// The state in which training ends.
pub open spec fn trained(rules: TrainRules, st: TrainState, budget: usize) -> TrainState
    decreases counting::token_count(st.corpus.words),
    when st.corpus.wf()
{
    if stops(rules, st, budget) {
        st
    } else {
        proof {
            lemma_best(rules, st);
            lemma_step_shrinks(rules, st, best(rules, st));
        }
        trained(rules, merge_step(rules, st, best(rules, st)), budget)
    }
}

/// The state after up to `n` more merges.
pub open spec fn advanced(rules: TrainRules, st: TrainState, budget: usize, n: nat) -> TrainState
    decreases n,
{
    if n == 0 || stops(rules, st, budget) {
        st
    } else {
        advanced(rules, merge_step(rules, st, best(rules, st)), budget, (n - 1) as nat)
    }
}

/// How many of up to `n` more merges are made.
pub open spec fn merges_made(rules: TrainRules, st: TrainState, budget: usize, n: nat) -> nat
    decreases n,
{
    if n == 0 || stops(rules, st, budget) {
        0
    } else {
        1 + merges_made(rules, merge_step(rules, st, best(rules, st)), budget, (n - 1) as nat)
    }
}

/// The state that training starts from.
pub open spec fn start(rules: TrainRules, v: Seq<EntryModel>, corpus: CorpusModel) -> TrainState {
    TrainState { vocab: v, corpus, queue: start_queue(rules, v, corpus.freqs) }
}

// ---------------------------------------------------------------------------
// The next candidate
// ---------------------------------------------------------------------------

/// Where some candidate in a queue meets a predicate, one of those ranks highest.
pub proof fn lemma_greatest(queue: Multiset<MergeCandidate>, ok: spec_fn(MergeCandidate) -> bool)
    requires
        exists|c: MergeCandidate| #[trigger] queue.contains(c) && ok(c),
    ensures
        exists|c: MergeCandidate| #[trigger]
            queue.contains(c) && ok(c) && (forall|d: MergeCandidate| #[trigger]
                queue.contains(d) && ok(d) ==> !heap::ranks_below(c, d)),
    decreases queue.len(),
{
    broadcast use vstd::multiset::group_multiset_axioms;

    let c = choose|c: MergeCandidate| #[trigger] queue.contains(c) && ok(c);
    if exists|d: MergeCandidate| #[trigger]
        queue.contains(d) && ok(d) && heap::ranks_below(c, d) {
        let d = choose|d: MergeCandidate| #[trigger]
            queue.contains(d) && ok(d) && heap::ranks_below(c, d);
        let rest = queue.remove(c);
        assert(rest.contains(d));
        lemma_greatest(rest, ok);
        let e = choose|e: MergeCandidate| #[trigger]
            rest.contains(e) && ok(e) && (forall|d: MergeCandidate| #[trigger]
                rest.contains(d) && ok(d) ==> !heap::ranks_below(e, d));
        assert(queue.contains(e));
        assert forall|x: MergeCandidate| #[trigger] queue.contains(x) && ok(x) implies !heap::ranks_below(e, x) by {
            if x == c {
                assert(!heap::ranks_below(e, d));
            } else {
                assert(rest.contains(x));
            }
        }
    }
}

/// Where some candidate is live, there is a next one, and only one.
pub proof fn lemma_best(rules: TrainRules, st: TrainState)
    requires
        has_live(rules, st),
    ensures
        is_best(rules, st, best(rules, st)),
        forall|c: MergeCandidate| #[trigger] is_best(rules, st, c) ==> c == best(rules, st),
{
    let ok = |c: MergeCandidate| live(rules, st.vocab, st.corpus.freqs, c);
    let c0 = choose|c: MergeCandidate| #[trigger]
        st.queue.contains(c) && live(rules, st.vocab, st.corpus.freqs, c);
    assert(st.queue.contains(c0) && ok(c0));
    lemma_greatest(st.queue, ok);
    let g = choose|c: MergeCandidate| #[trigger]
        st.queue.contains(c) && ok(c) && (forall|d: MergeCandidate| #[trigger]
            st.queue.contains(d) && ok(d) ==> !heap::ranks_below(c, d));
    assert(is_best(rules, st, g)) by {
        assert forall|d: MergeCandidate| #[trigger]
            st.queue.contains(d) && live(rules, st.vocab, st.corpus.freqs, d) implies !heap::ranks_below(g, d) by {
            assert(ok(d));
        }
    }
    let b = best(rules, st);
    assert forall|c: MergeCandidate| #[trigger] is_best(rules, st, c) implies c == b by {
        assert(st.queue.contains(c) && st.queue.contains(b));
        heap::law_candidate_order(c, b, c);
    }
}

/// A merge leaves fewer tokens in the corpus, and keeps it valid.
pub proof fn lemma_step_shrinks(rules: TrainRules, st: TrainState, c: MergeCandidate)
    requires
        st.corpus.wf(),
        live(rules, st.vocab, st.corpus.freqs, c),
    ensures
        merge_step(rules, st, c).corpus.wf(),
        counting::token_count(merge_step(rules, st, c).corpus.words) < counting::token_count(
            st.corpus.words,
        ),
{
    let ab = (c.a, c.b);
    let n = vocabulary::merged_id(st.vocab, c.a, c.b);
    counting::law_merge_keeps_wf(st.corpus, ab, n);
    counting::law_merge_shrinks(st.corpus, ab, n);
    counting::lemma_count_occurs(st.corpus.words, ab);
    assert(pairs::freq_of(st.corpus.freqs, ab) <= counting::pair_count(st.corpus.words, ab));
}

/// How often each candidate is queued at the start.
pub proof fn lemma_start_queue(rules: TrainRules, v: Seq<EntryModel>, freqs: Map<Pair, Frequency>)
    requires
        freqs.dom().finite(),
    ensures
        forall|c: MergeCandidate| #[trigger]
            start_queue(rules, v, freqs).count(c) == (if seeded(rules, v, freqs, c) {
                1nat
            } else {
                0nat
            }),
{
    broadcast use vstd::multiset::group_multiset_axioms;

    let s = Set::new(|c: MergeCandidate| seeded(rules, v, freqs, c));
    let f = |p: Pair| candidate(v, p, freqs[p]);
    let cs = freqs.dom().map(f);
    freqs.dom().lemma_map_finite(f);
    assert forall|c: MergeCandidate| #[trigger] s.contains(c) implies cs.contains(c) by {
        assert(freqs.dom().contains((c.a, c.b)) && f((c.a, c.b)) == c);
    }
    vstd::set_lib::lemma_set_subset_finite(cs, s);
    let m = Map::new(|k: MergeCandidate| s.contains(k), |k: MergeCandidate| 1nat);
    assert(m.dom() =~= s);
    assert(start_queue(rules, v, freqs) == Multiset::from_map(m));
}

/// Training can be interrupted after any number of merges.
pub proof fn lemma_advanced(rules: TrainRules, st: TrainState, budget: usize, n: nat)
    requires
        st.corpus.wf(),
    ensures
        advanced(rules, st, budget, n).corpus.wf(),
        trained(rules, advanced(rules, st, budget, n), budget) == trained(rules, st, budget),
        counting::token_count(advanced(rules, st, budget, n).corpus.words) + merges_made(
            rules,
            st,
            budget,
            n,
        ) <= counting::token_count(st.corpus.words),
        merges_made(rules, st, budget, n) <= n,
        merges_made(rules, st, budget, n) < n ==> stops(
            rules,
            advanced(rules, st, budget, n),
            budget,
        ),
    decreases n,
{
    if n > 0 && !stops(rules, st, budget) {
        lemma_best(rules, st);
        lemma_step_shrinks(rules, st, best(rules, st));
        lemma_advanced(rules, merge_step(rules, st, best(rules, st)), budget, (n - 1) as nat);
    }
}

// ---------------------------------------------------------------------------
// Laws
// ---------------------------------------------------------------------------

/// Whether a token is a legal merge of two earlier tokens: it has their surfaces
/// put together and the script that both have; neither part is strict and the
/// right one is not ambiguous, unless the pass was Latin; morphology allows it; and
/// its roots are those that allow it.
pub open spec fn well_merged(rules: TrainRules, v: Seq<EntryModel>, i: int) -> bool {
    exists|a: TokenId, b: TokenId| #[trigger] merged_from(rules, v, i, a, b)
}

/// Whether a token is a legal merge of two given tokens.
pub open spec fn merged_from(
    rules: TrainRules,
    v: Seq<EntryModel>,
    i: int,
    a: TokenId,
    b: TokenId,
) -> bool {
    &&& a < i && b < i
    &&& v[i].token == TokenModel::MergedToken(seq![a, b])
    &&& v[i].surface == v[a as int].surface + v[b as int].surface
    &&& script_compat(rules, v, a, b)
    &&& v[i].script == v[a as int].script
    &&& !v[i].strict && !v[i].ambiguous
    &&& !rules.latin ==> !v[a as int].strict && !v[b as int].strict && !v[b as int].ambiguous
    &&& morph(rules, v, a, b)
    &&& v[i].roots == narrowed(rules, v, a, b)
}

/// What is legal between known tokens stays so while the vocabulary grows.
pub proof fn law_legality_is_stable(
    rules: TrainRules,
    w: Seq<EntryModel>,
    v: Seq<EntryModel>,
    a: TokenId,
    b: TokenId,
    freq: Frequency,
)
    requires
        vocabulary::extends(w, v),
        a < v.len(),
        b < v.len(),
    ensures
        legal(rules, w, a, b, freq) == legal(rules, v, a, b, freq),
        morph(rules, w, a, b) == morph(rules, v, a, b),
        narrowed(rules, w, a, b) == narrowed(rules, v, a, b),
        candidate(w, (a, b), freq) == candidate(v, (a, b), freq),
{
    vocabulary::lemma_extends(w, v);
    assert forall|root: RootId| #[trigger] root_permits(rules, w, a, b, root) == root_permits(rules, v, a, b, root) by {
        assert(vocabulary::surface_of(w, a) == vocabulary::surface_of(v, a));
        assert(vocabulary::surface_of(w, b) == vocabulary::surface_of(v, b));
    }
    let roots = vocabulary::roots_of(v, a);
    assert(vocabulary::roots_of(w, a) == roots);
    let f = |root: RootId| root_permits(rules, w, a, b, root);
    let g = |root: RootId| root_permits(rules, v, a, b, root);
    assert(f =~= g);
    assert(vocabulary::script_of(w, a) == vocabulary::script_of(v, a));
    assert(vocabulary::script_of(w, b) == vocabulary::script_of(v, b));
    assert(vocabulary::strict_in(w, a) == vocabulary::strict_in(v, a));
    assert(vocabulary::strict_in(w, b) == vocabulary::strict_in(v, b));
    assert(vocabulary::ambiguous_in(w, a) == vocabulary::ambiguous_in(v, a));
    assert(vocabulary::ambiguous_in(w, b) == vocabulary::ambiguous_in(v, b));
}

proof fn lemma_merged_from_extends(
    rules: TrainRules,
    w: Seq<EntryModel>,
    v: Seq<EntryModel>,
    i: int,
    a: TokenId,
    b: TokenId,
)
    requires
        vocabulary::extends(w, v),
        0 <= i < v.len(),
        merged_from(rules, v, i, a, b),
    ensures
        merged_from(rules, w, i, a, b),
{
    vocabulary::lemma_extends(w, v);
    law_legality_is_stable(rules, w, v, a, b, 0);
    assert(w[i] == v[i] && w[a as int] == v[a as int] && w[b as int] == v[b as int]);
    assert(vocabulary::script_of(w, a) == vocabulary::script_of(v, a));
    assert(vocabulary::script_of(w, b) == vocabulary::script_of(v, b));
}

/// One merge adds at most one token, and that is a legal merge.
proof fn lemma_step_grows(rules: TrainRules, st: TrainState, c: MergeCandidate)
    requires
        st.vocab.len() < usize::MAX,
        live(rules, st.vocab, st.corpus.freqs, c),
    ensures
        vocabulary::extends(merge_step(rules, st, c).vocab, st.vocab),
        merge_step(rules, st, c).vocab.len() <= st.vocab.len() + 1,
        forall|i: int|
            st.vocab.len() <= i < merge_step(rules, st, c).vocab.len() ==> #[trigger] well_merged(
                rules,
                merge_step(rules, st, c).vocab,
                i,
            ),
{
    let v = st.vocab;
    let w = merge_step(rules, st, c).vocab;
    vocabulary::law_duplicate_merge_guard(v, c.a, c.b, narrowed(rules, v, c.a, c.b));
    assert(c.a < v.len() && c.b < v.len());
    if w != v {
        let i = v.len() as int;
        vocabulary::lemma_extends(w, v);
        law_legality_is_stable(rules, w, v, c.a, c.b, c.freq);
        assert(vocabulary::script_of(w, c.a) == vocabulary::script_of(v, c.a));
        assert(vocabulary::script_of(w, c.b) == vocabulary::script_of(v, c.b));
        assert(merged_from(rules, w, i, c.a, c.b));
    }
}

proof fn lemma_extends_trans(x: Seq<EntryModel>, y: Seq<EntryModel>, z: Seq<EntryModel>)
    requires
        vocabulary::extends(x, y),
        vocabulary::extends(y, z),
    ensures
        vocabulary::extends(x, z),
{
    vocabulary::lemma_extends(x, y);
    vocabulary::lemma_extends(y, z);
    assert(x.take(z.len() as int) =~= z);
}

/// Training only adds: every token keeps its id and all that is known of it, the
/// vocabulary never grows beyond the budget, and every token that is new is a legal
/// merge. So no token ever spans two scripts, no strict token is ever a part of a
/// merge, no ambiguous one ever the right part, and nothing is merged that the
/// paradigms forbid.
pub proof fn law_training_adds_legal_merges(rules: TrainRules, st: TrainState, budget: usize)
    requires
        st.corpus.wf(),
        st.vocab.len() <= usize::MAX,
    ensures
        vocabulary::extends(trained(rules, st, budget).vocab, st.vocab),
        trained(rules, st, budget).vocab.len() <= budget || trained(rules, st, budget).vocab
            == st.vocab,
        forall|i: int|
            st.vocab.len() <= i < trained(rules, st, budget).vocab.len() ==> #[trigger] well_merged(
                rules,
                trained(rules, st, budget).vocab,
                i,
            ),
    decreases counting::token_count(st.corpus.words),
{
    let end = trained(rules, st, budget);
    if stops(rules, st, budget) {
        assert(st.vocab.take(st.vocab.len() as int) =~= st.vocab);
    } else {
        lemma_best(rules, st);
        let c = best(rules, st);
        lemma_step_shrinks(rules, st, c);
        lemma_step_grows(rules, st, c);
        let next = merge_step(rules, st, c);
        law_training_adds_legal_merges(rules, next, budget);
        lemma_extends_trans(end.vocab, next.vocab, st.vocab);
        assert forall|i: int| st.vocab.len() <= i < end.vocab.len() implies #[trigger] well_merged(rules, end.vocab, i) by {
            if i < next.vocab.len() {
                assert(well_merged(rules, next.vocab, i));
                let (a, b) = choose|a: TokenId, b: TokenId| #[trigger]
                    merged_from(rules, next.vocab, i, a, b);
                lemma_merged_from_extends(rules, end.vocab, next.vocab, i, a, b);
                assert(merged_from(rules, end.vocab, i, a, b));
            }
        }
    }
}

/// Training stops only when the vocabulary has the size that was asked for or when
/// nothing in the queue can be merged.
pub proof fn law_training_runs_to_the_end(rules: TrainRules, st: TrainState, budget: usize)
    requires
        st.corpus.wf(),
    ensures
        stops(rules, trained(rules, st, budget), budget),
        trained(rules, st, budget).corpus.wf(),
    decreases counting::token_count(st.corpus.words),
{
    if !stops(rules, st, budget) {
        lemma_best(rules, st);
        lemma_step_shrinks(rules, st, best(rules, st));
        law_training_runs_to_the_end(rules, merge_step(rules, st, best(rules, st)), budget);
    }
}

/// An ambiguous token is merged only in a pair that is more frequent than the
/// threshold, counted in the corpus as it is at that moment.
pub proof fn law_ambiguous_needs_frequency(rules: TrainRules, st: TrainState, c: MergeCandidate)
    requires
        st.corpus.wf(),
        is_best(rules, st, c),
        !rules.latin,
        vocabulary::ambiguous_in(st.vocab, c.a),
    ensures
        counting::pair_count(st.corpus.words, (c.a, c.b)) > rules.theta,
{
    assert(pairs::freq_of(st.corpus.freqs, (c.a, c.b)) <= counting::pair_count(
        st.corpus.words,
        (c.a, c.b),
    ));
}

/// Narrowing keeps the roots that allow the merge and no others: all roots of the
/// merged token are roots of the left one, and where that had roots and the merge is
/// legal, some are left. A token without roots is merged by scripts, tags and
/// frequency alone.
pub proof fn law_narrowing(
    rules: TrainRules,
    v: Seq<EntryModel>,
    a: TokenId,
    b: TokenId,
    freq: Frequency,
    root: RootId,
)
    ensures
        !rules.latin ==> (narrowed(rules, v, a, b).contains(root) <==> vocabulary::roots_of(
            v,
            a,
        ).contains(root) && root_permits(rules, v, a, b, root)),
        rules.latin ==> narrowed(rules, v, a, b).len() == 0,
        !rules.latin && legal(rules, v, a, b, freq) && vocabulary::roots_of(v, a).len() > 0
            ==> narrowed(rules, v, a, b).len() > 0,
        vocabulary::roots_of(v, a).len() == 0 ==> legal(rules, v, a, b, freq) == gate(
            rules,
            v,
            a,
            b,
            freq,
        ),
{
    let roots = vocabulary::roots_of(v, a);
    let f = |root: RootId| root_permits(rules, v, a, b, root);
    let n = roots.filter(f);
    lemma_filter_contains(roots, f, root);
    if !rules.latin && legal(rules, v, a, b, freq) && roots.len() > 0 {
        let i = choose|i: int|
            0 <= i < roots.len() && root_permits(rules, v, a, b, #[trigger] roots[i]);
        lemma_filter_contains(roots, f, roots[i]);
        assert(roots.contains(roots[i]));
        assert(n.contains(roots[i]));
    }
}

proof fn lemma_filter_contains(s: Seq<RootId>, f: spec_fn(RootId) -> bool, x: RootId)
    ensures
        s.filter(f).contains(x) <==> s.contains(x) && f(x),
    decreases s.len(),
{
    reveal(Seq::filter);
    if s.len() > 0 {
        let d = s.drop_last();
        let y = s.last();
        lemma_filter_contains(d, f, x);
        let e = d.filter(f);
        let r = s.filter(f);
        assert(r == if f(y) {
            e.push(y)
        } else {
            e
        });
        if e.contains(x) {
            let i = choose|i: int| 0 <= i < e.len() && e[i] == x;
            assert(r[i] == x);
        }
        if f(y) {
            assert(r[e.len() as int] == y);
        }
        if d.contains(x) {
            let i = choose|i: int| 0 <= i < d.len() && d[i] == x;
            assert(s[i] == x);
        }
        assert(s[s.len() - 1] == y);
        if s.contains(x) {
            let i = choose|i: int| 0 <= i < s.len() && s[i] == x;
            if i < d.len() {
                assert(d[i] == x);
            }
        }
    }
}

/// When a pair may be merged, in plain terms. In the Latin pass: when both tokens are Latin.
/// In the other pass: when both are Devanagari or both are punctuation; neither is strict;
/// the right one is not ambiguous, and the left one only in a pair that is more frequent than
/// the threshold; and the left one has no roots, or one of its roots allows the right one
/// behind it. An unknown token is never merged.
pub proof fn law_when_a_pair_may_merge(
    rules: TrainRules,
    v: Seq<EntryModel>,
    a: TokenId,
    b: TokenId,
    freq: Frequency,
)
    ensures
        a >= v.len() || b >= v.len() ==> !legal(rules, v, a, b, freq),
        a < v.len() && b < v.len() && rules.latin ==> (legal(rules, v, a, b, freq)
            <==> v[a as int].script == Script::LAT && v[b as int].script == Script::LAT),
        a < v.len() && b < v.len() && !rules.latin ==> (legal(rules, v, a, b, freq) <==> {
            &&& v[a as int].script == v[b as int].script
            &&& v[a as int].script == Script::DEV || v[a as int].script == Script::PUN
            &&& !v[a as int].strict && !v[b as int].strict && !v[b as int].ambiguous
            &&& v[a as int].ambiguous ==> freq > rules.theta
            &&& v[a as int].roots.len() == 0 || exists|i: int|
                0 <= i < v[a as int].roots.len() && paradigm::root_allows(
                    rules.paradigms,
                    #[trigger] v[a as int].roots[i],
                    v[a as int].surface,
                    v[b as int].surface,
                )
        }),
{
    if a < v.len() && b < v.len() {
        let roots = v[a as int].roots;
        if exists|i: int|
            0 <= i < roots.len() && paradigm::root_allows(
                rules.paradigms,
                #[trigger] roots[i],
                v[a as int].surface,
                v[b as int].surface,
            ) {
            let i = choose|i: int|
                0 <= i < roots.len() && paradigm::root_allows(
                    rules.paradigms,
                    #[trigger] roots[i],
                    v[a as int].surface,
                    v[b as int].surface,
                );
            assert(root_permits(rules, v, a, b, vocabulary::roots_of(v, a)[i]));
        }
        if !rules.latin && morph(rules, v, a, b) && roots.len() > 0 {
            let i = choose|i: int|
                0 <= i < roots.len() && root_permits(rules, v, a, b, #[trigger] roots[i]);
            assert(paradigm::root_allows(
                rules.paradigms,
                roots[i],
                v[a as int].surface,
                v[b as int].surface,
            ));
        }
    }
}

/// Scripts and tags are asked apart from morphology, and both are needed. What morphology
/// allows is what leaves the merged token a root, where the left token has any.
pub proof fn law_what_is_asked_of_a_pair(
    rules: TrainRules,
    v: Seq<EntryModel>,
    a: TokenId,
    b: TokenId,
    freq: Frequency,
)
    requires
        a < v.len(),
        b < v.len(),
    ensures
        legal(rules, v, a, b, freq) <==> gate(rules, v, a, b, freq) && morph(rules, v, a, b),
        rules.latin ==> morph(rules, v, a, b),
        !rules.latin ==> (morph(rules, v, a, b) <==> v[a as int].roots.len() == 0 || narrowed(
            rules,
            v,
            a,
            b,
        ).len() > 0),
        gate(rules, v, a, b, freq) ==> script_compat(rules, v, a, b),
        rules.latin ==> (script_compat(rules, v, a, b) <==> v[a as int].script == Script::LAT
            && v[b as int].script == Script::LAT),
        !rules.latin ==> (script_compat(rules, v, a, b) <==> v[a as int].script
            == v[b as int].script && (v[a as int].script == Script::DEV || v[a as int].script
            == Script::PUN)),
        rules.latin ==> gate(rules, v, a, b, freq) == script_compat(rules, v, a, b),
        !rules.latin && script_compat(rules, v, a, b) ==> (gate(rules, v, a, b, freq)
            <==> !v[a as int].strict && !v[b as int].strict && !v[b as int].ambiguous && (
        v[a as int].ambiguous ==> freq > rules.theta)),
{
    let roots = v[a as int].roots;
    let f = |root: RootId| root_permits(rules, v, a, b, root);
    let n = roots.filter(f);
    if !rules.latin {
        if morph(rules, v, a, b) && roots.len() > 0 {
            let i = choose|i: int|
                0 <= i < roots.len() && root_permits(rules, v, a, b, #[trigger] roots[i]);
            lemma_filter_contains(roots, f, roots[i]);
            assert(roots.contains(roots[i]));
            assert(n.contains(roots[i]));
        }
        if n.len() > 0 {
            lemma_filter_contains(roots, f, n[0]);
            assert(n.contains(n[0]));
            let i = choose|i: int| 0 <= i < roots.len() && roots[i] == n[0];
            assert(root_permits(rules, v, a, b, roots[i]));
        }
    }
}

/// The merged token keeps the roots of the left one that allow the merge, in their order and
/// each as often: with one root more behind the others, it has that one more exactly where
/// the root allows the merge.
pub proof fn law_narrowing_root_by_root(
    rules: TrainRules,
    v: Seq<EntryModel>,
    w: Seq<EntryModel>,
    a: TokenId,
    b: TokenId,
    root: RootId,
)
    requires
        a < v.len(),
        b < v.len(),
        a < w.len(),
        b < w.len(),
        v[a as int].surface == w[a as int].surface,
        v[b as int].surface == w[b as int].surface,
        w[a as int].roots == v[a as int].roots.push(root),
        !rules.latin,
    ensures
        v[a as int].roots.len() == 0 ==> narrowed(rules, v, a, b).len() == 0,
        narrowed(rules, w, a, b) == (if paradigm::root_allows(
            rules.paradigms,
            root,
            v[a as int].surface,
            v[b as int].surface,
        ) {
            narrowed(rules, v, a, b).push(root)
        } else {
            narrowed(rules, v, a, b)
        }),
{
    reveal(Seq::filter);
    let f = |root: RootId| root_permits(rules, v, a, b, root);
    let g = |root: RootId| root_permits(rules, w, a, b, root);
    assert(f =~= g);
    assert(w[a as int].roots.drop_last() =~= v[a as int].roots);
}

/// What is queued at the start: every pair that has a frequency in the table and may be
/// merged, once, with that frequency and with the rank of the script of its left token.
pub proof fn law_start_queue(
    rules: TrainRules,
    v: Seq<EntryModel>,
    freqs: Map<Pair, Frequency>,
    c: MergeCandidate,
)
    requires
        freqs.dom().finite(),
    ensures
        start_queue(rules, v, freqs).count(c) <= 1,
        start_queue(rules, v, freqs).count(c) == 1 <==> freqs.contains_key((c.a, c.b)) && c.freq
            == freqs[(c.a, c.b)] && c.rank == vocabulary::script_of(v, c.a).spec_rank() && legal(
            rules,
            v,
            c.a,
            c.b,
            c.freq,
        ),
        candidate(v, (c.a, c.b), c.freq).a == c.a,
        candidate(v, (c.a, c.b), c.freq).b == c.b,
        candidate(v, (c.a, c.b), c.freq).freq == c.freq,
        candidate(v, (c.a, c.b), c.freq).rank == vocabulary::script_of(v, c.a).spec_rank(),
{
    lemma_start_queue(rules, v, freqs);
}

/// Merging goes on where it was left: so many merges and then so many more are all of them
/// together, and none is none.
pub proof fn law_training_in_goes(
    rules: TrainRules,
    st: TrainState,
    budget: usize,
    m: nat,
    n: nat,
)
    ensures
        advanced(rules, st, budget, 0) == st,
        merges_made(rules, st, budget, 0) == 0,
        advanced(rules, st, budget, m + n) == advanced(
            rules,
            advanced(rules, st, budget, m),
            budget,
            n,
        ),
        merges_made(rules, st, budget, m + n) == merges_made(rules, st, budget, m) + merges_made(
            rules,
            advanced(rules, st, budget, m),
            budget,
            n,
        ),
        st.vocab.len() < budget && has_live(rules, st) ==> merges_made(rules, st, budget, 1) == 1,
        st.vocab.len() >= budget || !has_live(rules, st) ==> merges_made(rules, st, budget, m) == 0
            && advanced(rules, st, budget, m) == st,
    decreases m,
{
    reveal_with_fuel(merges_made, 2);
    if m > 0 && !stops(rules, st, budget) {
        let next = merge_step(rules, st, best(rules, st));
        law_training_in_goes(rules, next, budget, (m - 1) as nat, n);
        assert((m + n - 1) as nat == (m - 1) as nat + n);
    } else if m > 0 {
        assert(advanced(rules, st, budget, m) == st);
    }
}

/// What is taken from the queue: a candidate that may still be merged and whose frequency is
/// the pair's own, and none such in the queue goes before it, by rank, then frequency, then
/// ids. There is one wherever the queue holds any such candidate.
pub proof fn law_best_candidate(rules: TrainRules, st: TrainState, d: MergeCandidate)
    requires
        st.queue.contains(d),
        d.freq > 0,
        d.freq == pairs::freq_of(st.corpus.freqs, (d.a, d.b)),
        legal(rules, st.vocab, d.a, d.b, d.freq),
    ensures
        has_live(rules, st),
        ({
            let c = best(rules, st);
            &&& st.queue.contains(c)
            &&& c.freq > 0
            &&& c.freq == pairs::freq_of(st.corpus.freqs, (c.a, c.b))
            &&& legal(rules, st.vocab, c.a, c.b, c.freq)
            &&& c.rank >= d.rank
            &&& c.rank == d.rank ==> c.freq >= d.freq
            &&& c.rank == d.rank && c.freq == d.freq ==> c.a >= d.a
            &&& c.rank == d.rank && c.freq == d.freq && c.a == d.a ==> c.b >= d.b
        }),
{
    assert(live(rules, st.vocab, st.corpus.freqs, d));
    lemma_best(rules, st);
    heap::law_rank_then_frequency(best(rules, st), d);
}

/// Where the queue holds no candidate that may still be merged, with the pair's own frequency,
/// nothing is merged.
pub proof fn law_nothing_to_merge(rules: TrainRules, st: TrainState, budget: usize)
    requires
        forall|d: MergeCandidate| #[trigger]
            st.queue.contains(d) ==> d.freq == 0 || d.freq != pairs::freq_of(
                st.corpus.freqs,
                (d.a, d.b),
            ) || !legal(rules, st.vocab, d.a, d.b, d.freq),
    ensures
        !has_live(rules, st),
        st.corpus.wf() ==> trained(rules, st, budget) == st,
{
}

/// A merge: the token is minted with the roots that are left, the pair is merged in all words,
/// and the queue loses the candidate and whatever went before it.
pub proof fn law_a_merge(rules: TrainRules, st: TrainState, c: MergeCandidate, d: MergeCandidate)
    ensures
        merge_step(rules, st, c).vocab == vocabulary::merged(
            st.vocab,
            c.a,
            c.b,
            narrowed(rules, st.vocab, c.a, c.b),
        ),
        merge_step(rules, st, c).corpus == counting::merged_corpus(
            st.corpus,
            (c.a, c.b),
            vocabulary::merged_id(st.vocab, c.a, c.b),
        ),
        d != c && heap::ranks_below(c, d) ==> dequeued(st.queue, c).count(d) == 0,
        d != c && !heap::ranks_below(c, d) ==> dequeued(st.queue, c).count(d) == st.queue.count(d),
        st.queue.contains(c) ==> dequeued(st.queue, c).count(c) + 1 == st.queue.count(c),
{
    heap::law_candidate_order(c, c, c);
}

/// The queue after a merge: it gains the touched pairs that may be merged, each as it stands,
/// and nothing else.
pub proof fn law_requeuing(
    rules: TrainRules,
    v: Seq<EntryModel>,
    freqs: Map<Pair, Frequency>,
    queue: Multiset<MergeCandidate>,
    touched: Seq<Pair>,
    p: Pair,
    d: MergeCandidate,
)
    ensures
        requeued(rules, v, freqs, queue, Seq::empty()) == queue,
        ({
            let before = requeued(rules, v, freqs, queue, touched);
            let after = requeued(rules, v, freqs, queue, touched.push(p));
            let f = pairs::freq_of(freqs, p);
            &&& f == 0 || !legal(rules, v, p.0, p.1, f) ==> after == before
            &&& f > 0 && legal(rules, v, p.0, p.1, f) ==> after.count(d) == before.count(d) + (if d.a
                == p.0 && d.b == p.1 && d.freq == f && d.rank == vocabulary::script_of(
                v,
                p.0,
            ).spec_rank() {
                1nat
            } else {
                0nat
            })
        }),
{
    assert(touched.push(p).drop_last() =~= touched);
}

/// Training can be left off and taken up again: the end is the same. One merge at a time, it
/// is the best candidate that is merged.
pub proof fn law_training_goes_on(rules: TrainRules, st: TrainState, budget: usize, n: nat)
    requires
        st.corpus.wf(),
    ensures
        trained(rules, advanced(rules, st, budget, n), budget) == trained(rules, st, budget),
        st.vocab.len() < budget && has_live(rules, st) ==> advanced(rules, st, budget, 1)
            == merge_step(rules, st, best(rules, st)),
        st.vocab.len() >= budget || !has_live(rules, st) ==> trained(rules, st, budget) == st,
    decreases n,
{
    reveal_with_fuel(advanced, 2);
    if n > 0 && !stops(rules, st, budget) {
        lemma_best(rules, st);
        lemma_step_shrinks(rules, st, best(rules, st));
        law_training_goes_on(
            rules,
            merge_step(rules, st, best(rules, st)),
            budget,
            (n - 1) as nat,
        );
    }
}

} // verus!
