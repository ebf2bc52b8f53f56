//! Training as a list of merges: which pair is merged at each step, what becomes of the
//! vocabulary and of the words, and when it ends.
use crate::counting::{CorpusModel, WordModel};
use crate::counting;
use crate::greedy;
use crate::heap;
use crate::learning;
use crate::pairs::{Frequency, Pair};
use crate::pairs;
use crate::paradigm::ParadigmModel;
use crate::training::TrainRules;
use crate::training;
use crate::vocabulary::EntryModel;
use crate::vocabulary;
use vstd::prelude::*;

verus! {

/// A step of training: the vocabulary and the words before it, and the pair that it merges.
pub struct Step {
    pub vocab: Seq<EntryModel>,
    pub words: Seq<WordModel>,
    pub pair: Pair,
}

/// Whether a pair stands in the words and may be merged.
pub open spec fn is_mergeable(
    rules: TrainRules,
    v: Seq<EntryModel>,
    words: Seq<WordModel>,
    p: Pair,
) -> bool {
    counting::pair_count(words, p) > 0 && training::legal(
        rules,
        v,
        p.0,
        p.1,
        counting::pair_count(words, p) as u64,
    )
}

/// Whether a pair is no worse a choice than another: its script goes first; or, of the same
/// rank, it occurs more often; or, just as often, it has the greater ids.
pub open spec fn is_as_good(
    v: Seq<EntryModel>,
    words: Seq<WordModel>,
    p: Pair,
    q: Pair,
) -> bool {
    let x = vocabulary::script_of(v, p.0).spec_rank();
    let y = vocabulary::script_of(v, q.0).spec_rank();
    let m = counting::pair_count(words, p);
    let n = counting::pair_count(words, q);
    ||| x > y
    ||| x == y && m > n
    ||| x == y && m == n && p.0 > q.0
    ||| x == y && m == n && p.0 == q.0 && p.1 >= q.1
}

/// Whether a step is a right one: there is room for a token, and the pair may be merged and
/// is as good as any other that may be.
pub open spec fn is_right_step(rules: TrainRules, step: Step, budget: usize) -> bool {
    &&& step.vocab.len() < budget
    &&& is_mergeable(rules, step.vocab, step.words, step.pair)
    &&& forall|q: Pair| #[trigger]
        is_mergeable(rules, step.vocab, step.words, q) ==> is_as_good(
            step.vocab,
            step.words,
            step.pair,
            q,
        )
}

/// Whether a vocabulary and words are what a step leaves: the merged token is minted, and the
/// pair is merged in all words.
pub open spec fn follows(
    rules: TrainRules,
    step: Step,
    v: Seq<EntryModel>,
    words: Seq<WordModel>,
) -> bool {
    let a = step.pair.0;
    let b = step.pair.1;
    &&& v == vocabulary::merged(
        step.vocab,
        a,
        b,
        training::narrowed(rules, step.vocab, a, b),
    )
    &&& words == counting::merged_corpus(
        greedy::counted(step.words),
        step.pair,
        vocabulary::merged_id(step.vocab, a, b),
    ).words
}

/// Whether steps lead from a vocabulary and words to others, each step a right one, and all
/// steps are made: in the end there is no room for a token, or no pair that may be merged.
pub open spec fn is_run(
    rules: TrainRules,
    v: Seq<EntryModel>,
    words: Seq<WordModel>,
    budget: usize,
    steps: Seq<Step>,
    end_vocab: Seq<EntryModel>,
    end_words: Seq<WordModel>,
) -> bool {
    &&& steps.len() == 0 ==> end_vocab == v && end_words == words
    &&& steps.len() > 0 ==> steps[0].vocab == v && steps[0].words == words
    &&& forall|i: int| 0 <= i < steps.len() ==> is_right_step(rules, #[trigger] steps[i], budget)
    &&& forall|i: int|
        0 <= i < steps.len() - 1 ==> follows(
            rules,
            #[trigger] steps[i],
            steps[i + 1].vocab,
            steps[i + 1].words,
        )
    &&& steps.len() > 0 ==> follows(rules, steps.last(), end_vocab, end_words)
    &&& end_vocab.len() >= budget || forall|q: Pair| !#[trigger]
        is_mergeable(rules, end_vocab, end_words, q)
}

/// What becomes of the words does not depend on the table that is kept beside them.
proof fn lemma_words_alone(x: CorpusModel, y: CorpusModel, ab: Pair, n: usize)
    requires
        x.words == y.words,
    ensures
        counting::merged_corpus(x, ab, n).words == counting::merged_corpus(y, ab, n).words,
{
    greedy::lemma_same_words(x.words, x.freqs, y.freqs, ab, n);
}

proof fn lemma_same_admissible(rules: TrainRules, v: Seq<EntryModel>, corpus: CorpusModel, q: Pair)
    requires
        corpus.wf(),
        corpus.exact(),
    ensures
        training::admissible(rules, v, corpus.freqs, q) <==> is_mergeable(
            rules,
            v,
            corpus.words,
            q,
        ),
        counting::pair_count(corpus.words, q) <= u64::MAX,
{
    assert(pairs::freq_of(corpus.freqs, q) == counting::pair_count(corpus.words, q));
}

proof fn lemma_greedy_run(
    rules: TrainRules,
    v: Seq<EntryModel>,
    corpus: CorpusModel,
    budget: usize,
    room: usize,
) -> (steps: Seq<Step>)
    requires
        corpus.wf(),
        corpus.exact(),
        greedy::none_empty(v, corpus.words),
        greedy::closed_under(v, corpus.words, room),
    ensures
        ({
            let (w, end) = greedy::greedy(rules, v, corpus, budget);
            &&& is_run(rules, v, corpus.words, budget, steps, w, end.words)
            &&& end.wf()
            &&& end.exact()
            &&& greedy::none_empty(w, end.words)
            &&& greedy::closed_under(w, end.words, room)
        }),
    decreases counting::token_count(corpus.words),
{
    assert forall|q: Pair| #[trigger] is_mergeable(rules, v, corpus.words, q) implies training::admissible(
        rules,
        v,
        corpus.freqs,
        q,
    ) by {
        lemma_same_admissible(rules, v, corpus, q);
    }
    if v.len() >= budget || !greedy::any_admissible(rules, v, corpus.freqs) {
        assert forall|q: Pair| v.len() < budget implies !#[trigger] is_mergeable(
            rules,
            v,
            corpus.words,
            q,
        ) by {
            if is_mergeable(rules, v, corpus.words, q) {
                assert(training::admissible(rules, v, corpus.freqs, q));
            }
        }
        Seq::empty()
    } else {
        let p = greedy::top(rules, v, corpus.freqs);
        greedy::lemma_top(rules, v, corpus.freqs);
        greedy::lemma_rewritten(rules, v, corpus, p);
        let w = greedy::grown(rules, v, p);
        let next = greedy::rewritten(v, corpus, p);
        greedy::lemma_step_keeps(rules, v, corpus, p, room);
        let rest = lemma_greedy_run(rules, w, next, budget, room);
        let (end_vocab, end) = greedy::greedy(rules, v, corpus, budget);
        let step = Step { vocab: v, words: corpus.words, pair: p };
        let steps = seq![step] + rest;
        lemma_same_admissible(rules, v, corpus, p);
        assert(is_right_step(rules, step, budget)) by {
            assert forall|q: Pair| #[trigger] is_mergeable(rules, v, corpus.words, q) implies is_as_good(
                v,
                corpus.words,
                p,
                q,
            ) by {
                lemma_same_admissible(rules, v, corpus, q);
                assert(training::admissible(rules, v, corpus.freqs, q));
                heap::law_rank_then_frequency(
                    greedy::standing(v, corpus.freqs, p),
                    greedy::standing(v, corpus.freqs, q),
                );
                assert(pairs::freq_of(corpus.freqs, p) == counting::pair_count(corpus.words, p));
                assert(pairs::freq_of(corpus.freqs, q) == counting::pair_count(corpus.words, q));
            }
        }
        assert(follows(rules, step, w, next.words)) by {
            lemma_words_alone(
                corpus,
                greedy::counted(corpus.words),
                p,
                vocabulary::merged_id(v, p.0, p.1),
            );
        }
        assert forall|i: int| 0 <= i < steps.len() implies is_right_step(
            rules,
            #[trigger] steps[i],
            budget,
        ) by {
            if i > 0 {
                assert(steps[i] == rest[i - 1]);
            }
        }
        assert forall|i: int| 0 <= i < steps.len() - 1 implies follows(
            rules,
            #[trigger] steps[i],
            steps[i + 1].vocab,
            steps[i + 1].words,
        ) by {
            assert(steps[i + 1] == rest[i]);
            if i > 0 {
                assert(steps[i] == rest[i - 1]);
            }
        }
        if rest.len() > 0 {
            assert(steps.last() == rest.last());
        } else {
            assert(steps.last() == step);
        }
        steps
    }
}

/// Training is a run: at each step the pair is merged whose script goes first and which, among
/// those of that rank, occurs most often in the words as they then are; and it goes on until
/// the vocabulary has the size that was asked for or no pair may be merged.
pub proof fn law_training_is_a_run(
    rules: TrainRules,
    v: Seq<EntryModel>,
    words: Seq<WordModel>,
    budget: usize,
) -> (steps: Seq<Step>)
    requires
        counting::total_weight(words) <= u64::MAX,
        greedy::none_empty(v, words),
        greedy::closed_under(v, words, budget),
    ensures
        is_run(
            rules,
            v,
            words,
            budget,
            steps,
            training::trained(
                rules,
                training::start(rules, v, greedy::counted(words)),
                budget,
            ).vocab,
            training::trained(
                rules,
                training::start(rules, v, greedy::counted(words)),
                budget,
            ).corpus.words,
        ),
{
    counting::law_counted_exact(words);
    greedy::law_training_is_greedy(rules, v, greedy::counted(words), budget);
    lemma_greedy_run(rules, v, greedy::counted(words), budget, budget)
}

/// The pair that is merged first is the most frequent: of all pairs that may be merged and
/// whose left token has the same rank, none occurs more often, and none may be merged whose
/// left token has a higher rank.
pub proof fn law_the_most_frequent_is_merged(
    rules: TrainRules,
    v: Seq<EntryModel>,
    words: Seq<WordModel>,
    p: Pair,
    q: Pair,
)
    requires
        counting::total_weight(words) <= u64::MAX,
        training::best(rules, training::start(rules, v, greedy::counted(words))).a == p.0,
        training::best(rules, training::start(rules, v, greedy::counted(words))).b == p.1,
        is_mergeable(rules, v, words, q),
    ensures
        is_mergeable(rules, v, words, p),
        vocabulary::script_of(v, p.0).spec_rank() >= vocabulary::script_of(v, q.0).spec_rank(),
        vocabulary::script_of(v, p.0).spec_rank() == vocabulary::script_of(v, q.0).spec_rank()
            ==> counting::pair_count(words, p) >= counting::pair_count(words, q),
{
    let corpus = greedy::counted(words);
    counting::law_counted_exact(words);
    let st = training::start(rules, v, corpus);
    let c = training::best(rules, st);
    let d = greedy::standing(v, corpus.freqs, q);
    lemma_same_admissible(rules, v, corpus, q);
    training::law_start_queue(rules, v, corpus.freqs, d);
    assert(corpus.freqs.contains_key(q));
    assert(st.queue.contains(d) && training::live(rules, v, corpus.freqs, d));
    training::lemma_best(rules, st);
    training::law_start_queue(rules, v, corpus.freqs, c);
    assert(st.queue.contains(c));
    lemma_same_admissible(rules, v, corpus, p);
    heap::law_rank_then_frequency(c, d);
    assert(pairs::freq_of(corpus.freqs, p) == counting::pair_count(words, p));
    assert(pairs::freq_of(corpus.freqs, q) == counting::pair_count(words, q));
}

/// Training a tokenizer is a run of the pass that is not Latin, with the threshold that was
/// given, on its vocabulary with the roots of all tokens looked up. Bilingual training goes on
/// with a run of the Latin pass on what the first run leaves, up to both budgets together.
pub proof fn law_learning_is_a_run(
    v: Seq<EntryModel>,
    paradigms: Seq<ParadigmModel>,
    words: Seq<WordModel>,
    dev_budget: usize,
    lat_budget: usize,
    theta: Frequency,
) -> (runs: (Seq<Step>, Seq<Step>))
    requires
        counting::total_weight(words) <= u64::MAX,
        dev_budget + lat_budget <= usize::MAX,
        greedy::none_empty(v, words),
        greedy::closed_under(v, words, (dev_budget + lat_budget) as usize),
    ensures
        ({
            let first = learning::learned(v, paradigms, words, dev_budget, theta);
            let second = learning::learned_bilingual(
                v,
                paradigms,
                words,
                dev_budget,
                lat_budget,
                theta,
            );
            &&& is_run(
                TrainRules { paradigms, theta, latin: false },
                vocabulary::tagged_all(v, paradigms),
                words,
                dev_budget,
                runs.0,
                first.vocab,
                first.corpus.words,
            )
            &&& is_run(
                TrainRules { paradigms, theta, latin: true },
                first.vocab,
                first.corpus.words,
                (dev_budget + lat_budget) as usize,
                runs.1,
                second.vocab,
                second.corpus.words,
            )
        }),
{
    let main = TrainRules { paradigms, theta, latin: false };
    let latin = TrainRules { paradigms, theta, latin: true };
    let tagged = vocabulary::tagged_all(v, paradigms);
    let corpus = greedy::counted(words);
    let total = (dev_budget + lat_budget) as usize;
    counting::law_counted_exact(words);
    assert forall|k: int, x: usize|
        0 <= k < words.len() && #[trigger] words[k].tokens.contains(x) && x < tagged.len() implies tagged[x as int].surface.len()
        > 0 by {
        assert(v[x as int].surface.len() > 0);
    }
    assert(greedy::closed_under(tagged, words, total)) by {
        assert forall|k: int, x: usize|
            0 <= k < words.len() && #[trigger] words[k].tokens.contains(x) implies x < tagged.len()
            || x >= total by {}
    }
    assert(greedy::closed_under(tagged, words, dev_budget)) by {
        assert forall|k: int, x: usize|
            0 <= k < words.len() && #[trigger] words[k].tokens.contains(x) implies x < tagged.len()
            || x >= dev_budget by {}
    }
    greedy::law_training_is_greedy(main, tagged, corpus, dev_budget);
    let first = lemma_greedy_run(main, tagged, corpus, dev_budget, total);
    let (w, left) = greedy::greedy(main, tagged, corpus, dev_budget);
    greedy::law_training_is_greedy(latin, w, left, total);
    let second = lemma_greedy_run(latin, w, left, total, total);
    (first, second)
}

} // verus!
