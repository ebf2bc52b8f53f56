//! How a tokenizer gets its vocabulary: by initialization, and by training on
//! sequences, on texts, or on counted words.
use crate::corpus::Corpus;
use crate::corpus;
use crate::counting::WordModel;
use crate::counting;
use crate::encoding;
use crate::greedy;
use crate::lossless;
use crate::normalizer::FoldRule;
use crate::normalizer;
use crate::pairs::{Frequency, Pair, TokenId};
use crate::pairs;
use crate::paradigm::{ParadigmModel, ParadigmRegistry};
use crate::script::Script;
use crate::text;
use crate::token::{Akshara, AksharaModel, TokenModel};
use crate::token;
use crate::tokenizer::NepBPETokenizer;
use crate::trainer::ConstrainedBPETrainer;
use crate::training::{TrainRules, TrainState};
use crate::training;
use crate::vocabulary::{EntryModel, Vocabulary};
use crate::vocabulary;
use crate::word_counts::WordCounts;
use crate::word_counts;
use vstd::prelude::*;

verus! {

/// Aksharas without roots.
pub open spec fn bare_aksharas(surfaces: Seq<Seq<char>>) -> Seq<AksharaModel> {
    surfaces.map_values(|s: Seq<char>| AksharaModel { surface: s, roots: Seq::empty() })
}

/// The token sequences of words that are not empty.
pub open spec fn encoded_words(v: Seq<EntryModel>, words: Seq<Seq<char>>) -> Seq<Seq<TokenId>>
    decreases words.len(),
{
    if words.len() == 0 {
        Seq::empty()
    } else {
        let rest = encoded_words(v, words.drop_last());
        let ids = encoding::encoded(v, words.last(), 0);
        if ids.len() > 0 {
            rest.push(ids)
        } else {
            rest
        }
    }
}

/// The rules of the pass that is not Latin.
pub open spec fn main_pass(paradigms: Seq<ParadigmModel>, theta: Frequency) -> TrainRules {
    TrainRules { paradigms, theta, latin: false }
}

/// The rules of the Latin pass.
pub open spec fn latin_pass(paradigms: Seq<ParadigmModel>, theta: Frequency) -> TrainRules {
    TrainRules { paradigms, theta, latin: true }
}

/// Where training on counted words ends: the roots of the tokens are looked up, and
/// the pass that is not Latin is run.
pub open spec fn learned(
    v: Seq<EntryModel>,
    paradigms: Seq<ParadigmModel>,
    words: Seq<WordModel>,
    budget: usize,
    theta: Frequency,
) -> TrainState {
    let rules = main_pass(paradigms, theta);
    training::trained(
        rules,
        training::start(rules, vocabulary::tagged_all(v, paradigms), greedy::counted(words)),
        budget,
    )
}

/// Where bilingual training ends: on what the first pass leaves, the Latin pass is
/// run, with the two budgets together.
pub open spec fn learned_bilingual(
    v: Seq<EntryModel>,
    paradigms: Seq<ParadigmModel>,
    words: Seq<WordModel>,
    dev_budget: usize,
    lat_budget: usize,
    theta: Frequency,
) -> TrainState {
    let first = learned(v, paradigms, words, dev_budget, theta);
    let rules = latin_pass(paradigms, theta);
    training::trained(
        rules,
        training::start(rules, first.vocab, first.corpus),
        (dev_budget + lat_budget) as usize,
    )
}

impl NepBPETokenizer {
    /// Whether only the vocabulary differs from an earlier state.
    pub open spec fn same_but_vocab(&self, other: &NepBPETokenizer) -> bool {
        &&& self.normalizer == other.normalizer
        &&& self.akshara_dfa == other.akshara_dfa
        &&& self.paradigm_registry@ == other.paradigm_registry@
        &&& self.byte_encoder == other.byte_encoder
    }

    /// Initializes the vocabulary. Returns how many tokens there are.
    pub fn initialize_vocab(
        &mut self,
        aksharas: Vec<String>,
        seed_morphemes: Vec<String>,
        punctuation: Vec<String>,
        v_strict: Vec<String>,
        v_ambiguous: Vec<String>,
    ) -> (n: usize)
        requires
            old(self).wf(),
        ensures
            final(self).wf(),
            final(self).same_but_vocab(old(self)),
            final(self).vocab@ == vocabulary::added_all(
                old(self).vocab@,
                vocabulary::initial_seeds(
                    bare_aksharas(text::texts(aksharas@)),
                    text::texts(seed_morphemes@),
                    text::texts(punctuation@),
                    text::texts(v_strict@),
                    text::texts(v_ambiguous@),
                    old(self).byte_encoder@,
                ),
            ),
            lossless::all_typed(old(self).vocab@) ==> encoding::lossless(final(self).vocab@),
            lossless::settled(old(self).vocab@) ==> lossless::settled(final(self).vocab@),
            n == final(self).vocab@.len(),
    {
        let mut base: Vec<Akshara> = Vec::new();
        for s in it: aksharas
            invariant
                it.seq() == aksharas@,
                base@.len() == it.index(),
                forall|k: int|
                    0 <= k < base@.len() ==> (#[trigger] base@[k]).surface@ == aksharas@[k]@
                        && base@[k].root_set@ == Seq::<usize>::empty(),
        {
            let root_set: Vec<usize> = Vec::new();
            assert(root_set@ =~= Seq::<usize>::empty());
            base.push(Akshara { surface: s, root_set });
        }
        assert(token::akshara_models(base@) =~= bare_aksharas(text::texts(aksharas@)));
        self.vocab.initialize(
            base,
            seed_morphemes,
            punctuation,
            v_strict,
            v_ambiguous,
            &self.byte_encoder,
        );
        self.vocab.len()
    }

    /// Looks up the paradigm roots of all tokens that take roots.
    pub fn assign_initial_roots(&mut self)
        requires
            old(self).wf(),
        ensures
            final(self).wf(),
            final(self).same_but_vocab(old(self)),
            final(self).vocab@ == vocabulary::tagged_all(
                old(self).vocab@,
                old(self).paradigm_registry@,
            ),
    {
        self.vocab.assign_roots_from_registry(&self.paradigm_registry);
    }

    /// Hands the vocabulary, with the roots of its tokens looked up, and the paradigms
    /// over to a trainer.
    pub fn begin_training(&mut self, theta: Frequency) -> (trainer: ConstrainedBPETrainer)
        requires
            old(self).wf(),
        ensures
            final(self).wf(),
            trainer.wf(),
            trainer.rules() == main_pass(old(self).paradigm_registry@, theta),
            trainer.vocab@ == vocabulary::tagged_all(
                old(self).vocab@,
                old(self).paradigm_registry@,
            ),
            final(self).vocab@ == Seq::<EntryModel>::empty(),
            final(self).paradigm_registry@ == Seq::<ParadigmModel>::empty(),
            final(self).normalizer == old(self).normalizer,
            final(self).akshara_dfa == old(self).akshara_dfa,
            final(self).byte_encoder == old(self).byte_encoder,
    {
        self.assign_initial_roots();
        let mut vocab = Vocabulary::new();
        let mut registry = ParadigmRegistry::new();
        std::mem::swap(&mut vocab, &mut self.vocab);
        std::mem::swap(&mut registry, &mut self.paradigm_registry);
        let mut trainer = ConstrainedBPETrainer::new(vocab, registry);
        trainer.theta = theta;
        trainer
    }

    /// Takes the vocabulary and the paradigms back from a trainer. Returns how many
    /// tokens there are.
    pub fn finish_training(&mut self, trainer: ConstrainedBPETrainer) -> (n: usize)
        requires
            old(self).wf(),
            trainer.wf(),
        ensures
            final(self).wf(),
            final(self).vocab == trainer.vocab,
            final(self).paradigm_registry == trainer.paradigm_registry,
            final(self).normalizer == old(self).normalizer,
            final(self).akshara_dfa == old(self).akshara_dfa,
            final(self).byte_encoder == old(self).byte_encoder,
            n == final(self).vocab@.len(),
    {
        self.vocab = trainer.vocab;
        self.paradigm_registry = trainer.paradigm_registry;
        self.vocab.len()
    }

    /// Trains the vocabulary on a corpus.
    fn train_on(&mut self, corpus: &mut Corpus, vocab_budget: usize, theta: Frequency) -> (n: usize)
        requires
            old(self).wf(),
            old(corpus).wf(),
        ensures
            final(self).wf(),
            final(self).same_but_vocab(old(self)),
            final(self).vocab@ == training::trained(
                main_pass(old(self).paradigm_registry@, theta),
                training::start(
                    main_pass(old(self).paradigm_registry@, theta),
                    vocabulary::tagged_all(old(self).vocab@, old(self).paradigm_registry@),
                    old(corpus)@,
                ),
                vocab_budget,
            ).vocab,
            n == final(self).vocab@.len(),
    {
        let mut trainer = self.begin_training(theta);
        trainer.train(corpus, vocab_budget);
        self.finish_training(trainer)
    }

    /// Trains the vocabulary on token sequences, each of which counts once. Returns how
    /// many tokens there are.
    pub fn train_bpe(
        &mut self,
        sequences: Vec<Vec<TokenId>>,
        vocab_budget: usize,
        theta: Frequency,
    ) -> (n: usize)
        requires
            old(self).wf(),
            counting::total_weight(corpus::sequence_models(sequences@)) <= u64::MAX,
        ensures
            final(self).wf(),
            final(self).same_but_vocab(old(self)),
            final(self).vocab@ == learned(
                old(self).vocab@,
                old(self).paradigm_registry@,
                corpus::sequence_models(sequences@),
                vocab_budget,
                theta,
            ).vocab,
            n == final(self).vocab@.len(),
    {
        let ghost words = corpus::sequence_models(sequences@);
        let mut corpus = Corpus::from_sequences(sequences, vocab_budget);
        assert(corpus@ == greedy::counted(words));
        self.train_on(&mut corpus, vocab_budget, theta)
    }

    /// Trains the vocabulary on counted words. Returns how many tokens there are.
    pub fn train_from_counts(
        &mut self,
        counts: WordCounts,
        vocab_budget: usize,
        theta: Frequency,
    ) -> (n: usize)
        requires
            old(self).wf(),
            counting::total_weight(counts@) <= u64::MAX,
        ensures
            final(self).wf(),
            final(self).same_but_vocab(old(self)),
            final(self).vocab@ == learned(
                old(self).vocab@,
                old(self).paradigm_registry@,
                counts@,
                vocab_budget,
                theta,
            ).vocab,
            n == final(self).vocab@.len(),
    {
        let ghost words = counts@;
        let mut corpus = Corpus::from_word_counts(counts, vocab_budget);
        assert(corpus@ == greedy::counted(words));
        self.train_on(&mut corpus, vocab_budget, theta)
    }

    /// Trains the vocabulary on counted words in two passes: first the Devanagari and
    /// punctuation pass up to `dev_budget` tokens, then the Latin pass up to both budgets
    /// together. Returns how many tokens there are after each.
    pub fn train_bilingual(
        &mut self,
        counts: WordCounts,
        dev_budget: usize,
        lat_budget: usize,
        theta: Frequency,
    ) -> (n: (usize, usize))
        requires
            old(self).wf(),
            counting::total_weight(counts@) <= u64::MAX,
            dev_budget + lat_budget <= usize::MAX,
        ensures
            final(self).wf(),
            final(self).same_but_vocab(old(self)),
            final(self).vocab@ == learned_bilingual(
                old(self).vocab@,
                old(self).paradigm_registry@,
                counts@,
                dev_budget,
                lat_budget,
                theta,
            ).vocab,
            n.0 == learned(
                old(self).vocab@,
                old(self).paradigm_registry@,
                counts@,
                dev_budget,
                theta,
            ).vocab.len(),
            n.1 == final(self).vocab@.len(),
    {
        let ghost words = counts@;
        let total: usize = dev_budget + lat_budget;
        let mut corpus = Corpus::from_word_counts(counts, total);
        assert(corpus@ == greedy::counted(words));
        let mut trainer = self.begin_training(theta);
        trainer.train(&mut corpus, dev_budget);
        let after_dev: usize = trainer.vocab.len();
        trainer.latin_pass = true;
        trainer.train(&mut corpus, total);
        let after_lat: usize = self.finish_training(trainer);
        (after_dev, after_lat)
    }

    /// The token sequences of texts. Texts without tokens are left out.
    pub fn encode_all(&self, texts: &Vec<String>) -> (sequences: Vec<Vec<TokenId>>)
        requires
            self.wf(),
        ensures
            word_counts::token_lists(sequences@) == encoded_words(
                self.vocab@,
                normalizer::normalized_all(self.normalizer@, text::texts(texts@)),
            ),
    {
        let mut normalized: Vec<String> = Vec::new();
        let mut i: usize = 0;
        while i < texts.len()
            invariant
                i <= texts@.len(),
                normalized@.len() == i,
                forall|k: int|
                    0 <= k < i ==> (#[trigger] normalized@[k])@ == normalizer::normalized(
                        self.normalizer@,
                        texts@[k]@,
                    ),
            decreases texts@.len() - i,
        {
            normalized.push(self.normalizer.normalize(texts[i].as_str()));
            i += 1;
        }
        assert(text::texts(normalized@) =~= normalizer::normalized_all(
            self.normalizer@,
            text::texts(texts@),
        ));
        self.encode_words(&normalized)
    }

    /// The token sequences of words that are normalized already. Words without tokens
    /// are left out.
    pub fn encode_words(&self, words: &Vec<String>) -> (sequences: Vec<Vec<TokenId>>)
        requires
            self.wf(),
        ensures
            word_counts::token_lists(sequences@) == encoded_words(self.vocab@, text::texts(words@)),
    {
        let mut out: Vec<Vec<TokenId>> = Vec::new();
        let ghost all = text::texts(words@);
        let mut i: usize = 0;
        assert(word_counts::token_lists(out@) =~= encoded_words(self.vocab@, all.take(0)));
        while i < words.len()
            invariant
                i <= words@.len(),
                self.wf(),
                all == text::texts(words@),
                word_counts::token_lists(out@) == encoded_words(self.vocab@, all.take(i as int)),
            decreases words@.len() - i,
        {
            let ghost before = out@;
            proof {
                assert(all.take(i + 1).drop_last() =~= all.take(i as int));
                assert(all.take(i + 1).last() == words@[i as int]@);
            }
            let ids = self.encode_normalized(words[i].as_str());
            if ids.len() > 0 {
                out.push(ids);
                assert(word_counts::token_lists(out@) =~= word_counts::token_lists(before).push(
                    ids@,
                ));
            }
            i += 1;
        }
        assert(all.take(all.len() as int) =~= all);
        out
    }

    /// Trains the vocabulary on texts. Returns how many tokens there are, or nothing
    /// where the texts have more pairs than the machine can count; the tokenizer is then
    /// unchanged. It is unchanged too where no text has tokens.
    pub fn train_from_text(
        &mut self,
        texts: &Vec<String>,
        vocab_budget: usize,
        theta: Frequency,
    ) -> (n: Option<usize>)
        requires
            old(self).wf(),
        ensures
            final(self).wf(),
            final(self).same_but_vocab(old(self)),
            ({
                let words = word_counts::once_each(
                    encoded_words(
                        old(self).vocab@,
                        normalizer::normalized_all(old(self).normalizer@, text::texts(texts@)),
                    ),
                );
                if words.len() == 0 {
                    final(self).vocab@ == old(self).vocab@ && n == Some(
                        old(self).vocab@.len() as usize,
                    )
                } else if counting::total_weight(words) <= u64::MAX {
                    final(self).vocab@ == learned(
                        old(self).vocab@,
                        old(self).paradigm_registry@,
                        words,
                        vocab_budget,
                        theta,
                    ).vocab && n == Some(final(self).vocab@.len() as usize)
                } else {
                    final(self).vocab@ == old(self).vocab@ && n is None
                }
            }),
    {
        let sequences = self.encode_all(texts);
        proof {
            assert(corpus::sequence_models(sequences@) =~= word_counts::once_each(
                word_counts::token_lists(sequences@),
            ));
        }
        if sequences.len() == 0 {
            return Some(self.vocab.len());
        }
        if !corpus::sequences_fit(&sequences) {
            return None;
        }
        Some(self.train_bpe(sequences, vocab_budget, theta))
    }

    /// Counts the words of a line: the line is normalized, split at white space, and
    /// each word is encoded; words without tokens are left out. Returns whether the line
    /// was counted, which it is not where more occurrences would be counted than the
    /// machine can; the dictionary is then unchanged.
    pub fn count_line(&self, line: &str, counts: &mut WordCounts) -> (counted: bool)
        requires
            self.wf(),
            old(counts).wf(),
        ensures
            final(counts).wf(),
            ({
                let words = line_words(self.vocab@, normalizer::normalized(self.normalizer@, line@));
                &&& counted == (old(counts).total() + words.len() <= u64::MAX)
                &&& counted ==> final(counts)@ == word_counts::tallied_all(old(counts)@, words)
                    && final(counts).total() == old(counts).total() + words.len()
                &&& !counted ==> final(counts)@ == old(counts)@ && final(counts).total() == old(
                    counts,
                ).total()
            }),
    {
        let normalized = self.normalizer.normalize(line);
        self.count_normalized(normalized.as_str(), counts)
    }

    /// Counts the words of a line that is normalized already.
    pub fn count_normalized(&self, normalized: &str, counts: &mut WordCounts) -> (counted: bool)
        requires
            self.wf(),
            old(counts).wf(),
        ensures
            final(counts).wf(),
            ({
                let words = line_words(self.vocab@, normalized@);
                &&& counted == (old(counts).total() + words.len() <= u64::MAX)
                &&& counted ==> final(counts)@ == word_counts::tallied_all(old(counts)@, words)
                    && final(counts).total() == old(counts).total() + words.len()
                &&& !counted ==> final(counts)@ == old(counts)@ && final(counts).total() == old(
                    counts,
                ).total()
            }),
    {
        let words = text::split_words(normalized);
        let sequences = self.encode_words(&words);
        let n: usize = sequences.len();
        if n as u64 > u64::MAX - counts.occurrences() {
            return false;
        }
        counts.add_words(sequences);
        true
    }
}

/// The token sequences of the words of a line.
pub open spec fn line_words(v: Seq<EntryModel>, line: Seq<char>) -> Seq<Seq<TokenId>> {
    encoded_words(v, text::words_from(line, 0))
}

// ---------------------------------------------------------------------------
// Laws
// ---------------------------------------------------------------------------

/// Training keeps the round trip: with a vocabulary that loses nothing, any text
/// comes back from its tokens after training, in one pass or in two. A vocabulary that
/// can be saved can still be.
pub proof fn law_trained_round_trip(
    v: Seq<EntryModel>,
    paradigms: Seq<ParadigmModel>,
    words: Seq<WordModel>,
    dev_budget: usize,
    lat_budget: usize,
    theta: Frequency,
    s: Seq<char>,
)
    requires
        v.len() <= usize::MAX,
        encoding::lossless(v),
        counting::total_weight(words) <= u64::MAX,
        dev_budget + lat_budget <= usize::MAX,
    ensures
        ({
            let w = learned(v, paradigms, words, dev_budget, theta).vocab;
            &&& encoding::lossless(w)
            &&& encoding::decoded(w, encoding::encoded(w, s, 0)) == s
            &&& lossless::settled(v) ==> lossless::settled(w)
        }),
        ({
            let w = learned_bilingual(v, paradigms, words, dev_budget, lat_budget, theta).vocab;
            &&& encoding::lossless(w)
            &&& encoding::decoded(w, encoding::encoded(w, s, 0)) == s
            &&& lossless::settled(v) ==> lossless::settled(w)
        }),
{
    counting::law_counted_exact(words);
    let rules = main_pass(paradigms, theta);
    let tagged = vocabulary::tagged_all(v, paradigms);
    lossless::law_tagging_keeps_lossless(v, paradigms);
    let st = training::start(rules, tagged, greedy::counted(words));
    lossless::law_training_keeps_lossless(rules, st, dev_budget);
    training::law_training_adds_legal_merges(rules, st, dev_budget);
    training::law_training_runs_to_the_end(rules, st, dev_budget);
    let first = training::trained(rules, st, dev_budget);
    encoding::law_round_trip(first.vocab, s);
    let rules2 = latin_pass(paradigms, theta);
    let st2 = training::start(rules2, first.vocab, first.corpus);
    let total = (dev_budget + lat_budget) as usize;
    lossless::law_training_keeps_lossless(rules2, st2, total);
    training::law_training_adds_legal_merges(rules2, st2, total);
    encoding::law_round_trip(training::trained(rules2, st2, total).vocab, s);
}

/// Whether a token was merged of two earlier tokens of its own script.
pub open spec fn of_one_script(v: Seq<EntryModel>, i: int) -> bool {
    exists|a: TokenId, b: TokenId| #[trigger] parts_of_one_script(v, i, a, b)
}

/// Whether a token was merged of two given earlier tokens of its own script.
pub open spec fn parts_of_one_script(v: Seq<EntryModel>, i: int, a: TokenId, b: TokenId) -> bool {
    &&& a < i && b < i
    &&& v[i].token == TokenModel::MergedToken(seq![a, b])
    &&& v[a as int].script == v[i].script
    &&& v[b as int].script == v[i].script
    &&& v[i].script == Script::DEV || v[i].script == Script::PUN || v[i].script == Script::LAT
}

/// Scripts stay separate: whatever the two passes of bilingual training add, no token
/// spans two scripts.
pub proof fn law_scripts_stay_separate(
    v: Seq<EntryModel>,
    paradigms: Seq<ParadigmModel>,
    words: Seq<WordModel>,
    dev_budget: usize,
    lat_budget: usize,
    theta: Frequency,
    i: int,
)
    requires
        v.len() <= usize::MAX,
        counting::total_weight(words) <= u64::MAX,
        dev_budget + lat_budget <= usize::MAX,
        v.len() <= i < learned_bilingual(
            v,
            paradigms,
            words,
            dev_budget,
            lat_budget,
            theta,
        ).vocab.len(),
    ensures
        of_one_script(
            learned_bilingual(v, paradigms, words, dev_budget, lat_budget, theta).vocab,
            i,
        ),
{
    counting::law_counted_exact(words);
    let rules = main_pass(paradigms, theta);
    let tagged = vocabulary::tagged_all(v, paradigms);
    let st = training::start(rules, tagged, greedy::counted(words));
    training::law_training_adds_legal_merges(rules, st, dev_budget);
    training::law_training_runs_to_the_end(rules, st, dev_budget);
    let first = training::trained(rules, st, dev_budget);
    let rules2 = latin_pass(paradigms, theta);
    let st2 = training::start(rules2, first.vocab, first.corpus);
    let total = (dev_budget + lat_budget) as usize;
    training::law_training_adds_legal_merges(rules2, st2, total);
    let w = training::trained(rules2, st2, total).vocab;
    vocabulary::lemma_extends(w, first.vocab);
    if i < first.vocab.len() {
        assert(training::well_merged(rules, first.vocab, i));
        let (a, b) = choose|a: TokenId, b: TokenId| #[trigger]
            training::merged_from(rules, first.vocab, i, a, b);
        assert(w[i] == first.vocab[i]);
        assert(w[a as int] == first.vocab[a as int]);
        assert(w[b as int] == first.vocab[b as int]);
        assert(parts_of_one_script(w, i, a, b));
    } else {
        assert(training::well_merged(rules2, w, i));
        let (a, b) = choose|a: TokenId, b: TokenId| #[trigger]
            training::merged_from(rules2, w, i, a, b);
        assert(parts_of_one_script(w, i, a, b));
    }
}

/// Whether all tokens of some sequences are in a vocabulary.
pub open spec fn lists_known(v: Seq<EntryModel>, ts: Seq<Seq<TokenId>>) -> bool {
    forall|k: int| 0 <= k < ts.len() ==> encoding::all_known(v, #[trigger] ts[k])
}

/// The token sequences of words have known tokens only, none of which has an empty
/// surface, and are not empty.
pub proof fn law_encoded_words_are_known(v: Seq<EntryModel>, words: Seq<Seq<char>>)
    requires
        v.len() <= usize::MAX,
    ensures
        lists_known(v, encoded_words(v, words)),
        vocabulary::bytes_visible(v) ==> greedy::none_empty(
            v,
            word_counts::once_each(encoded_words(v, words)),
        ),
        forall|k: int|
            0 <= k < encoded_words(v, words).len() ==> (#[trigger] encoded_words(v, words)[k]).len()
                > 0,
    decreases words.len(),
{
    let ts = encoded_words(v, words);
    let x = word_counts::once_each(ts);
    if words.len() > 0 {
        let pre = encoded_words(v, words.drop_last());
        law_encoded_words_are_known(v, words.drop_last());
        encoding::law_encoded_tokens_are_known(v, words.last());
        if vocabulary::bytes_visible(v) {
            let y = word_counts::once_each(pre);
            assert forall|k: int, a: TokenId|
                0 <= k < x.len() && #[trigger] x[k].tokens.contains(a) && a < v.len() implies v[a as int].surface.len()
                > 0 by {
                if k < pre.len() {
                    assert(y[k].tokens == x[k].tokens);
                    assert(y[k].tokens.contains(a));
                } else {
                    let ids = encoding::encoded(v, words.last(), 0);
                    let j = choose|j: int| 0 <= j < ids.len() && ids[j] == a;
                    assert(vocabulary::surface_of(v, ids[j]).len() > 0);
                }
            }
        }
    }
}

/// Training on counted words is greedy: where no token of theirs is yet to be minted, each
/// step merges the best admissible pair of all words.
pub proof fn law_learning_is_greedy(
    v: Seq<EntryModel>,
    paradigms: Seq<ParadigmModel>,
    words: Seq<WordModel>,
    budget: usize,
    theta: Frequency,
)
    requires
        counting::total_weight(words) <= u64::MAX,
        greedy::closed_under(v, words, budget),
    ensures
        learned(v, paradigms, words, budget, theta).vocab == greedy::greedy(
            main_pass(paradigms, theta),
            vocabulary::tagged_all(v, paradigms),
            greedy::counted(words),
            budget,
        ).0,
{
    let tagged = vocabulary::tagged_all(v, paradigms);
    assert(greedy::closed_under(tagged, words, budget)) by {
        assert forall|k: int, x: TokenId|
            0 <= k < words.len() && #[trigger] words[k].tokens.contains(x) implies x < tagged.len()
            || x >= budget by {}
    }
    counting::law_counted_exact(words);
    greedy::law_training_is_greedy(
        main_pass(paradigms, theta),
        tagged,
        greedy::counted(words),
        budget,
    );
}

/// Words that are alike give the same vocabulary, in one pass or in two, where no token
/// that stands in them has an empty surface.
pub proof fn law_learning_depends_on_counts(
    v: Seq<EntryModel>,
    paradigms: Seq<ParadigmModel>,
    x: Seq<WordModel>,
    y: Seq<WordModel>,
    dev_budget: usize,
    lat_budget: usize,
    theta: Frequency,
)
    requires
        greedy::alike(x, y),
        greedy::none_empty(v, x),
        counting::total_weight(x) <= u64::MAX,
    ensures
        learned(v, paradigms, x, dev_budget, theta).vocab == learned(
            v,
            paradigms,
            y,
            dev_budget,
            theta,
        ).vocab,
        learned_bilingual(v, paradigms, x, dev_budget, lat_budget, theta).vocab
            == learned_bilingual(v, paradigms, y, dev_budget, lat_budget, theta).vocab,
{
    let tagged = vocabulary::tagged_all(v, paradigms);
    assert(greedy::none_empty(tagged, x)) by {
        assert forall|k: int, a: TokenId|
            0 <= k < x.len() && #[trigger] x[k].tokens.contains(a) && a < tagged.len() implies tagged[a as int].surface.len()
            > 0 by {
            assert(v[a as int].surface.len() > 0);
        }
    }
    greedy::lemma_counted_alike(x, y);
    greedy::law_training_depends_on_counts(
        main_pass(paradigms, theta),
        tagged,
        greedy::counted(x),
        greedy::counted(y),
        dev_budget,
    );
    let p = learned(v, paradigms, x, dev_budget, theta);
    let q = learned(v, paradigms, y, dev_budget, theta);
    greedy::law_training_depends_on_counts(
        latin_pass(paradigms, theta),
        p.vocab,
        p.corpus,
        q.corpus,
        (dev_budget + lat_budget) as usize,
    );
}

/// Training on counted words is reproducible: where no token that stands in them has an
/// empty surface, it gives the same vocabulary in whatever order the words were counted.
pub proof fn law_learning_is_reproducible(
    v: Seq<EntryModel>,
    paradigms: Seq<ParadigmModel>,
    x: Seq<Seq<TokenId>>,
    y: Seq<Seq<TokenId>>,
    dev_budget: usize,
    lat_budget: usize,
    theta: Frequency,
)
    requires
        x.to_multiset() == y.to_multiset(),
        x.len() <= u64::MAX,
        greedy::none_empty(v, word_counts::once_each(x)),
        counting::total_weight(word_counts::once_each(x)) <= u64::MAX,
    ensures
        ({
            let d = word_counts::tallied_all(Seq::empty(), x);
            let e = word_counts::tallied_all(Seq::empty(), y);
            &&& learned(v, paradigms, d, dev_budget, theta).vocab == learned(
                v,
                paradigms,
                e,
                dev_budget,
                theta,
            ).vocab
            &&& learned_bilingual(v, paradigms, d, dev_budget, lat_budget, theta).vocab
                == learned_bilingual(v, paradigms, e, dev_budget, lat_budget, theta).vocab
        }),
{
    let d = word_counts::tallied_all(Seq::empty(), x);
    let e = word_counts::tallied_all(Seq::empty(), y);
    word_counts::law_counting_ignores_order(x, y);
    lemma_dictionary_alike(x);
    greedy::lemma_none_empty_alike(v, word_counts::once_each(x), d);
    greedy::lemma_alike_weight(word_counts::once_each(x), d, counting::any_pair());
    greedy::lemma_order_alike(d, e);
    law_learning_depends_on_counts(v, paradigms, d, e, dev_budget, lat_budget, theta);
}

proof fn lemma_tally_update(
    d: Seq<WordModel>,
    k: int,
    w: WordModel,
    g: spec_fn(Seq<TokenId>) -> nat,
)
    requires
        0 <= k < d.len(),
        w.tokens == d[k].tokens,
        w.count == d[k].count + 1,
    ensures
        greedy::tally(d.update(k, w), g) == greedy::tally(d, g) + g(w.tokens),
    decreases d.len(),
{
    let u = d.update(k, w);
    let y = g(w.tokens);
    if k < d.len() - 1 {
        lemma_tally_update(d.drop_last(), k, w, g);
        assert(u.drop_last() =~= d.drop_last().update(k, w));
    } else {
        assert(u.drop_last() =~= d.drop_last());
        let c = d[k].count as nat;
        assert((c + 1) * y == c * y + y) by (nonlinear_arith);
    }
}

/// A dictionary is alike the words that it counts.
proof fn lemma_dictionary_alike(ts: Seq<Seq<TokenId>>)
    requires
        ts.len() <= u64::MAX,
    ensures
        greedy::alike(word_counts::once_each(ts), word_counts::tallied_all(Seq::empty(), ts)),
    decreases ts.len(),
{
    let x = word_counts::once_each(ts);
    let y = word_counts::tallied_all(Seq::empty(), ts);
    assert forall|t: Seq<TokenId>| #[trigger] greedy::has_word(x, t) == greedy::has_word(y, t) by {
        word_counts::lemma_counted_words(ts, t);
        if ts.contains(t) {
            let i = choose|i: int| 0 <= i < ts.len() && ts[i] == t;
            assert(x[i].tokens == t);
        }
        if greedy::has_word(x, t) {
            let i = choose|i: int| 0 <= i < x.len() && (#[trigger] x[i]).tokens == t;
            assert(ts[i] == t);
        }
    }
    if ts.len() > 0 {
        let pre = ts.drop_last();
        let t = ts.last();
        lemma_dictionary_alike(pre);
        let d = word_counts::tallied_all(Seq::empty(), pre);
        word_counts::law_counting_words(pre);
        word_counts::lemma_place_of(d, t);
        assert(x.drop_last() =~= word_counts::once_each(pre));
        assert forall|g: spec_fn(Seq<TokenId>) -> nat| #[trigger] greedy::tally(x, g)
            == greedy::tally(y, g) by {
            assert(greedy::tally(word_counts::once_each(pre), g) == greedy::tally(d, g));
            assert(1 * g(t) == g(t));
            match word_counts::place_of(d, t) {
                Some(k) => {
                    word_counts::lemma_count_le_occurrences(d, k);
                    let w = WordModel { tokens: t, count: (d[k].count + 1) as u64 };
                    lemma_tally_update(d, k, w, g);
                },
                None => {
                    assert(y.drop_last() =~= d);
                },
            }
        }
    } else {
        assert(x =~= Seq::<WordModel>::empty());
    }
}

/// Deduplication keeps frequencies: the dictionary of some words holds every pair as often
/// as the words themselves do, and is recorded with the same frequencies.
pub proof fn law_deduplication_keeps_frequencies(ts: Seq<Seq<TokenId>>, p: Pair)
    requires
        ts.len() <= u64::MAX,
    ensures
        ({
            let x = word_counts::once_each(ts);
            let y = word_counts::tallied_all(Seq::empty(), ts);
            &&& counting::pair_count(x, p) == word_counts::raw_weight(ts, counting::is_pair(p))
            &&& counting::pair_count(y, p) == counting::pair_count(x, p)
            &&& counting::total_weight(x) == counting::total_weight(y)
            &&& counting::total_weight(x) <= u64::MAX ==> {
                &&& pairs::freq_of(counting::pair_table(x), p) == counting::pair_count(x, p)
                &&& pairs::freq_of(counting::pair_table(y), p) == counting::pair_count(x, p)
            }
        }),
{
    let x = word_counts::once_each(ts);
    let y = word_counts::tallied_all(Seq::empty(), ts);
    lemma_dictionary_alike(ts);
    word_counts::law_counting_words(ts);
    assert(counting::pair_count(y, p) == word_counts::raw_weight(ts, counting::is_pair(p)));
    greedy::lemma_alike_weight(x, y, counting::is_pair(p));
    greedy::lemma_alike_weight(x, y, counting::any_pair());
    if counting::total_weight(x) <= u64::MAX {
        greedy::lemma_counted_alike(x, y);
        assert(pairs::freq_of(greedy::counted(x).freqs, p) == counting::pair_count(x, p));
        assert(pairs::freq_of(greedy::counted(y).freqs, p) == counting::pair_count(y, p));
    }
}

/// Deduplication changes nothing: training on the dictionary of some words gives the
/// same vocabulary as training on the words one by one, in one pass or in two, where no
/// token that stands in them has an empty surface.
pub proof fn law_deduplication_changes_nothing(
    v: Seq<EntryModel>,
    paradigms: Seq<ParadigmModel>,
    ts: Seq<Seq<TokenId>>,
    dev_budget: usize,
    lat_budget: usize,
    theta: Frequency,
)
    requires
        ts.len() <= u64::MAX,
        greedy::none_empty(v, word_counts::once_each(ts)),
        counting::total_weight(word_counts::once_each(ts)) <= u64::MAX,
    ensures
        ({
            let x = word_counts::once_each(ts);
            let y = word_counts::tallied_all(Seq::empty(), ts);
            &&& learned(v, paradigms, x, dev_budget, theta).vocab == learned(
                v,
                paradigms,
                y,
                dev_budget,
                theta,
            ).vocab
            &&& learned_bilingual(v, paradigms, x, dev_budget, lat_budget, theta).vocab
                == learned_bilingual(v, paradigms, y, dev_budget, lat_budget, theta).vocab
        }),
{
    lemma_dictionary_alike(ts);
    law_learning_depends_on_counts(
        v,
        paradigms,
        word_counts::once_each(ts),
        word_counts::tallied_all(Seq::empty(), ts),
        dev_budget,
        lat_budget,
        theta,
    );
}

/// The words of lines, in order: each line is normalized and split at white space.
pub open spec fn words_of_lines(rules: Seq<FoldRule>, lines: Seq<Seq<char>>) -> Seq<Seq<char>>
    decreases lines.len(),
{
    if lines.len() == 0 {
        Seq::empty()
    } else {
        words_of_lines(rules, lines.drop_last()) + text::words_from(
            normalizer::normalized(rules, lines.last()),
            0,
        )
    }
}

/// The dictionary of lines that were counted one after the other.
pub open spec fn counted_lines(
    v: Seq<EntryModel>,
    rules: Seq<FoldRule>,
    lines: Seq<Seq<char>>,
) -> Seq<WordModel>
    decreases lines.len(),
{
    if lines.len() == 0 {
        Seq::empty()
    } else {
        word_counts::tallied_all(
            counted_lines(v, rules, lines.drop_last()),
            line_words(v, normalizer::normalized(rules, lines.last())),
        )
    }
}

proof fn lemma_encoded_words_concat(v: Seq<EntryModel>, x: Seq<Seq<char>>, y: Seq<Seq<char>>)
    ensures
        encoded_words(v, x + y) == encoded_words(v, x) + encoded_words(v, y),
    decreases y.len(),
{
    if y.len() == 0 {
        assert(x + y =~= x);
        assert(encoded_words(v, x) + encoded_words(v, y) =~= encoded_words(v, x));
    } else {
        lemma_encoded_words_concat(v, x, y.drop_last());
        assert((x + y).drop_last() =~= x + y.drop_last());
        assert(encoded_words(v, x + y) =~= encoded_words(v, x) + encoded_words(v, y));
    }
}

/// Counting line by line is counting all words of the lines.
pub proof fn law_counting_lines(v: Seq<EntryModel>, rules: Seq<FoldRule>, lines: Seq<Seq<char>>)
    ensures
        counted_lines(v, rules, lines) == word_counts::tallied_all(
            Seq::empty(),
            encoded_words(v, words_of_lines(rules, lines)),
        ),
    decreases lines.len(),
{
    if lines.len() > 0 {
        let d = lines.drop_last();
        let last = text::words_from(normalizer::normalized(rules, lines.last()), 0);
        law_counting_lines(v, rules, d);
        lemma_encoded_words_concat(v, words_of_lines(rules, d), last);
        word_counts::law_counting_in_goes(
            Seq::empty(),
            encoded_words(v, words_of_lines(rules, d)),
            encoded_words(v, last),
        );
    }
}

/// Training on lines whose words were counted gives the same vocabulary as training on
/// their words one by one, where one occurrence is enough for a word to be kept.
pub proof fn law_counted_lines_train_alike(
    v: Seq<EntryModel>,
    paradigms: Seq<ParadigmModel>,
    rules: Seq<FoldRule>,
    lines: Seq<Seq<char>>,
    min_count: Frequency,
    dev_budget: usize,
    lat_budget: usize,
    theta: Frequency,
)
    requires
        v.len() <= usize::MAX,
        vocabulary::bytes_visible(v),
        encoded_words(v, words_of_lines(rules, lines)).len() <= u64::MAX,
        counting::total_weight(
            word_counts::once_each(encoded_words(v, words_of_lines(rules, lines))),
        ) <= u64::MAX,
        min_count <= 1,
    ensures
        ({
            let x = word_counts::once_each(encoded_words(v, words_of_lines(rules, lines)));
            let y = word_counts::retained(counted_lines(v, rules, lines), min_count);
            &&& learned(v, paradigms, x, dev_budget, theta).vocab == learned(
                v,
                paradigms,
                y,
                dev_budget,
                theta,
            ).vocab
            &&& learned_bilingual(v, paradigms, x, dev_budget, lat_budget, theta).vocab
                == learned_bilingual(v, paradigms, y, dev_budget, lat_budget, theta).vocab
        }),
{
    let words = words_of_lines(rules, lines);
    let ts = encoded_words(v, words);
    law_counting_lines(v, rules, lines);
    law_encoded_words_are_known(v, words);
    word_counts::law_retaining_all(ts, min_count);
    law_deduplication_changes_nothing(v, paradigms, ts, dev_budget, lat_budget, theta);
}

proof fn lemma_lines_concat(
    v: Seq<EntryModel>,
    rules: Seq<FoldRule>,
    x: Seq<Seq<char>>,
    y: Seq<Seq<char>>,
)
    ensures
        encoded_words(v, words_of_lines(rules, x + y)) == encoded_words(v, words_of_lines(rules, x))
            + encoded_words(v, words_of_lines(rules, y)),
    decreases y.len(),
{
    let a = encoded_words(v, words_of_lines(rules, x));
    if y.len() == 0 {
        assert(x + y =~= x);
        assert(a + encoded_words(v, words_of_lines(rules, y)) =~= a);
    } else {
        let d = y.drop_last();
        let last = text::words_from(normalizer::normalized(rules, y.last()), 0);
        lemma_lines_concat(v, rules, x, d);
        assert((x + y).drop_last() =~= x + d);
        lemma_encoded_words_concat(v, words_of_lines(rules, x + d), last);
        lemma_encoded_words_concat(v, words_of_lines(rules, d), last);
        assert(encoded_words(v, words_of_lines(rules, x + y)) =~= a + encoded_words(
            v,
            words_of_lines(rules, y),
        ));
    }
}

/// The words of lines do not depend on the order of the lines, but for their own order.
proof fn lemma_lines_order(
    v: Seq<EntryModel>,
    rules: Seq<FoldRule>,
    x: Seq<Seq<char>>,
    y: Seq<Seq<char>>,
)
    requires
        x.to_multiset() == y.to_multiset(),
    ensures
        encoded_words(v, words_of_lines(rules, x)).to_multiset() == encoded_words(
            v,
            words_of_lines(rules, y),
        ).to_multiset(),
    decreases x.len(),
{
    broadcast use vstd::seq_lib::group_to_multiset_ensures;

    assert(x.len() == y.len()) by {
        assert(x.to_multiset().len() == x.len());
        assert(y.to_multiset().len() == y.len());
    }
    if x.len() > 0 {
        assert(x.contains(x[x.len() - 1]));
        assert(y.to_multiset().count(x.last()) > 0);
        assert(y.contains(x.last()));
        let j = choose|j: int| 0 <= j < y.len() && y[j] == x.last();
        let d = x.drop_last();
        assert(x.remove(x.len() - 1) =~= d);
        lemma_lines_order(v, rules, d, y.remove(j));
        let one = seq![y[j]];
        let l = y.take(j);
        let r = y.skip(j + 1);
        assert(x =~= d + one);
        assert(y =~= l + (one + r));
        assert(y.remove(j) =~= l + r);
        lemma_lines_concat(v, rules, d, one);
        lemma_lines_concat(v, rules, l, one + r);
        lemma_lines_concat(v, rules, one, r);
        lemma_lines_concat(v, rules, l, r);
        let a = encoded_words(v, words_of_lines(rules, d));
        let b = encoded_words(v, words_of_lines(rules, one));
        let c = encoded_words(v, words_of_lines(rules, l));
        let e = encoded_words(v, words_of_lines(rules, r));
        vstd::seq_lib::lemma_multiset_commutative(a, b);
        vstd::seq_lib::lemma_multiset_commutative(c, b + e);
        vstd::seq_lib::lemma_multiset_commutative(b, e);
        vstd::seq_lib::lemma_multiset_commutative(c, e);
        assert((a + b).to_multiset() =~= (c + (b + e)).to_multiset());
    } else {
        assert(x =~= y);
    }
}

/// The order of the lines never changes what is trained on their counted words, however
/// rare the words that are dropped.
pub proof fn law_line_order_has_no_say(
    v: Seq<EntryModel>,
    paradigms: Seq<ParadigmModel>,
    rules: Seq<FoldRule>,
    x: Seq<Seq<char>>,
    y: Seq<Seq<char>>,
    min_count: Frequency,
    dev_budget: usize,
    lat_budget: usize,
    theta: Frequency,
)
    requires
        x.to_multiset() == y.to_multiset(),
        v.len() <= usize::MAX,
        vocabulary::bytes_visible(v),
        encoded_words(v, words_of_lines(rules, x)).len() <= u64::MAX,
        counting::total_weight(
            word_counts::retained(counted_lines(v, rules, x), min_count),
        ) <= u64::MAX,
    ensures
        ({
            let d = word_counts::retained(counted_lines(v, rules, x), min_count);
            let e = word_counts::retained(counted_lines(v, rules, y), min_count);
            &&& learned(v, paradigms, d, dev_budget, theta).vocab == learned(
                v,
                paradigms,
                e,
                dev_budget,
                theta,
            ).vocab
            &&& learned_bilingual(v, paradigms, d, dev_budget, lat_budget, theta).vocab
                == learned_bilingual(v, paradigms, e, dev_budget, lat_budget, theta).vocab
        }),
{
    let p = encoded_words(v, words_of_lines(rules, x));
    let q = encoded_words(v, words_of_lines(rules, y));
    let all = counted_lines(v, rules, x);
    let d = word_counts::retained(all, min_count);
    let e = word_counts::retained(counted_lines(v, rules, y), min_count);
    law_counting_lines(v, rules, x);
    law_counting_lines(v, rules, y);
    lemma_lines_order(v, rules, x, y);
    word_counts::law_counting_ignores_order(p, q);
    word_counts::law_retaining_ignores_order(all, counted_lines(v, rules, y), min_count);
    law_encoded_words_are_known(v, words_of_lines(rules, x));
    lemma_dictionary_alike(p);
    greedy::lemma_none_empty_alike(v, word_counts::once_each(p), all);
    word_counts::lemma_retained(all, min_count);
    assert forall|k: int, a: TokenId|
        0 <= k < d.len() && #[trigger] d[k].tokens.contains(a) && a < v.len() implies v[a as int].surface.len()
        > 0 by {
        assert(all.contains(d[k]));
        let i = choose|i: int| 0 <= i < all.len() && all[i] == d[k];
        assert(all[i].tokens.contains(a));
    }
    greedy::lemma_order_alike(d, e);
    law_learning_depends_on_counts(v, paradigms, d, e, dev_budget, lat_budget, theta);
}

/// No text is left out that has tokens, and no text that has none is kept: the sequences are
/// those of the texts, in order. Where every text has tokens, the k-th sequence is that of the
/// k-th text, however long it is.
pub proof fn law_no_text_is_left_out(v: Seq<EntryModel>, texts: Seq<Seq<char>>, more: Seq<char>)
    ensures
        encoding::encoded(v, more, 0).len() > 0 ==> encoded_words(v, texts.push(more))
            == encoded_words(v, texts).push(encoding::encoded(v, more, 0)),
        encoding::encoded(v, more, 0).len() == 0 ==> encoded_words(v, texts.push(more))
            == encoded_words(v, texts),
        (forall|k: int|
            0 <= k < texts.len() ==> encoding::encoded(v, #[trigger] texts[k], 0).len() > 0)
            ==> encoded_words(v, texts).len() == texts.len() && forall|k: int|
            0 <= k < texts.len() ==> #[trigger] encoded_words(v, texts)[k] == encoding::encoded(
                v,
                texts[k],
                0,
            ),
    decreases texts.len(),
{
    assert(texts.push(more).drop_last() =~= texts);
    if (forall|k: int|
        0 <= k < texts.len() ==> encoding::encoded(v, #[trigger] texts[k], 0).len() > 0)
        && texts.len() > 0 {
        let d = texts.drop_last();
        assert forall|k: int| 0 <= k < d.len() implies encoding::encoded(
            v,
            #[trigger] d[k],
            0,
        ).len() > 0 by {
            assert(d[k] == texts[k]);
        }
        law_no_text_is_left_out(v, d, texts.last());
        assert(d.push(texts.last()) =~= texts);
        assert(encoding::encoded(v, texts[texts.len() - 1], 0).len() > 0);
        assert forall|k: int| 0 <= k < texts.len() implies #[trigger] encoded_words(v, texts)[k]
            == encoding::encoded(v, texts[k], 0) by {
            if k < d.len() {
                assert(encoded_words(v, texts)[k] == encoded_words(v, d)[k]);
                assert(d[k] == texts[k]);
            }
        }
    }
}

/// The words of a line are the texts between its white space, each encoded on its own: a line
/// that is parted by white space has the words of its two parts, and a line without white
/// space is one word.
pub proof fn law_words_of_a_line(v: Seq<EntryModel>, x: Seq<char>, c: char, y: Seq<char>)
    requires
        text::white_space(c),
    ensures
        line_words(v, x + seq![c] + y) == line_words(v, x) + line_words(v, y),
        (forall|i: int| 0 <= i < x.len() ==> !text::white_space(#[trigger] x[i]))
            && encoding::encoded(v, x, 0).len() > 0 ==> line_words(v, x) == seq![
            encoding::encoded(v, x, 0),
        ],
        (forall|i: int| 0 <= i < x.len() ==> !text::white_space(#[trigger] x[i]))
            && encoding::encoded(v, x, 0).len() == 0 ==> line_words(v, x).len() == 0,
{
    text::law_white_space_parts_words(x, c, y);
    lemma_encoded_words_concat(v, text::words_from(x, 0), text::words_from(y, 0));
    if forall|i: int| 0 <= i < x.len() ==> !text::white_space(#[trigger] x[i]) {
        let none = Seq::<Seq<char>>::empty();
        law_no_text_is_left_out(v, none, x);
        assert(none.push(x) =~= seq![x]);
        assert(encoded_words(v, none) =~= Seq::<Seq<TokenId>>::empty());
        if x.len() > 0 {
            assert(text::words_from(x, 0) == seq![x]);
            assert(line_words(v, x) =~= encoded_words(v, none.push(x)));
            if encoding::encoded(v, x, 0).len() > 0 {
                assert(line_words(v, x) =~= seq![encoding::encoded(v, x, 0)]);
            }
        } else {
            assert(text::words_from(x, 0) =~= none);
            assert(encoding::encoded(v, x, 0).len() == 0);
        }
    }
}

/// Every surface that is given is an akshara without roots, and every sequence is a word that
/// counts once.
pub proof fn law_given_lists(surfaces: Seq<Seq<char>>, sequences: Seq<Vec<TokenId>>, k: int)
    ensures
        bare_aksharas(surfaces).len() == surfaces.len(),
        0 <= k < surfaces.len() ==> bare_aksharas(surfaces)[k].surface == surfaces[k]
            && bare_aksharas(surfaces)[k].roots.len() == 0,
        corpus::sequence_models(sequences).len() == sequences.len(),
        0 <= k < sequences.len() ==> corpus::sequence_models(sequences)[k].tokens == sequences[k]@
            && corpus::sequence_models(sequences)[k].count == 1,
{
}

impl NepBPETokenizer {
    /// Tokenizers that differ in the vocabulary alone normalize, cut and spell alike and have
    /// the same paradigms.
    pub proof fn law_same_but_vocab(&self, other: &NepBPETokenizer)
        requires
            self.same_but_vocab(other),
        ensures
            self.normalizer@ == other.normalizer@,
            self.akshara_dfa@ == other.akshara_dfa@,
            self.paradigm_registry@ == other.paradigm_registry@,
            self.byte_encoder@ == other.byte_encoder@,
    {
    }
}

} // verus!
