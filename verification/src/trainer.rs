//! The constrained trainer: merges the best admissible pair until the vocabulary
//! has the size that was asked for.
use crate::corpus::Corpus;
use crate::counting;
use crate::heap::{CandidateHeap, MergeCandidate};
use crate::heap;
use crate::pairs::{Frequency, Pair, TokenId};
use crate::paradigm::ParadigmRegistry;
use crate::script::Script;
use crate::token::RootId;
use crate::training::{TrainRules, TrainState};
use crate::training;
use crate::vocabulary::Vocabulary;
use crate::vocabulary;
use vstd::multiset::Multiset;
use vstd::prelude::*;
use vstd::string::*;

verus! {

/// The trainer. It holds the vocabulary while it grows.
pub struct ConstrainedBPETrainer {
    pub vocab: Vocabulary,
    pub paradigm_registry: ParadigmRegistry,
    /// An ambiguous token merges only in pairs that are more frequent.
    pub theta: Frequency,
    /// Whether this is the Latin pass, which merges Latin tokens by frequency alone.
    pub latin_pass: bool,
}

impl ConstrainedBPETrainer {
    /// What the trainer goes by.
    pub open spec fn rules(&self) -> TrainRules {
        TrainRules {
            paradigms: self.paradigm_registry@,
            theta: self.theta,
            latin: self.latin_pass,
        }
    }

    pub open spec fn wf(&self) -> bool {
        self.vocab.wf() && self.paradigm_registry.wf()
    }

    /// Where training stands.
    pub open spec fn state(&self, corpus: &Corpus, queue: &CandidateHeap) -> TrainState {
        TrainState { vocab: self.vocab@, corpus: corpus@, queue: queue@ }
    }

    /// A trainer for a vocabulary, for the pass that is not Latin, with the threshold
    /// 100.
    pub fn new(vocab: Vocabulary, paradigm_registry: ParadigmRegistry) -> (r: Self)
        ensures
            r.vocab == vocab,
            r.paradigm_registry == paradigm_registry,
            r.theta == 100,
            !r.latin_pass,
    {
        ConstrainedBPETrainer { vocab, paradigm_registry, theta: 100, latin_pass: false }
    }

    /// Whether two tokens are of one script, and of one that the pass merges.
    pub fn script_compat(&self, a: TokenId, b: TokenId) -> (r: bool)
        ensures
            r == training::script_compat(self.rules(), self.vocab@, a, b),
    {
        let sa = self.vocab.get_script(a);
        let sb = self.vocab.get_script(b);
        if self.latin_pass {
            return sa == sb && sa == Script::LAT;
        }
        sa == sb && (sa == Script::DEV || sa == Script::PUN)
    }

    /// Whether scripts and tags let a pair merge.
    pub fn gate(&self, a: TokenId, b: TokenId, freq: Frequency) -> (r: bool)
        ensures
            r == training::gate(self.rules(), self.vocab@, a, b, freq),
    {
        if !self.script_compat(a, b) {
            return false;
        }
        if self.latin_pass {
            return true;
        }
        if self.vocab.is_strict(b) || self.vocab.is_ambiguous(b) {
            return false;
        }
        if self.vocab.is_strict(a) {
            return false;
        }
        if self.vocab.is_ambiguous(a) && freq <= self.theta {
            return false;
        }
        true
    }

    fn surface(&self, id: TokenId) -> (r: String)
        ensures
            r@ == vocabulary::surface_of(self.vocab@, id),
    {
        match self.vocab.get_surface(id) {
            Some(s) => s,
            None => String::new(),
        }
    }

    /// Whether morphology lets two tokens merge.
    pub fn morph(&self, a: TokenId, b: TokenId) -> (r: bool)
        requires
            self.wf(),
        ensures
            r == training::morph(self.rules(), self.vocab@, a, b),
    {
        if self.latin_pass {
            return true;
        }
        let root_set = self.vocab.get_root_set(a);
        if root_set.len() == 0 {
            return true;
        }
        let surface_a = self.surface(a);
        let surface_b = self.surface(b);
        let mut i: usize = 0;
        while i < root_set.len()
            invariant
                i <= root_set@.len(),
                self.wf(),
                root_set@ == vocabulary::roots_of(self.vocab@, a),
                surface_a@ == vocabulary::surface_of(self.vocab@, a),
                surface_b@ == vocabulary::surface_of(self.vocab@, b),
                forall|j: int|
                    0 <= j < i ==> !training::root_permits(
                        self.rules(),
                        self.vocab@,
                        a,
                        b,
                        #[trigger] root_set@[j],
                    ),
            decreases root_set@.len() - i,
        {
            if self.paradigm_registry.check_allowed(
                root_set[i],
                surface_a.as_str(),
                surface_b.as_str(),
            ) {
                assert(training::root_permits(
                    self.rules(),
                    self.vocab@,
                    a,
                    b,
                    root_set@[i as int],
                ));
                return true;
            }
            i += 1;
        }
        false
    }

    /// Whether a pair may be merged.
    pub fn legal(&self, a: TokenId, b: TokenId, freq: Frequency) -> (r: bool)
        requires
            self.wf(),
        ensures
            r == training::legal(self.rules(), self.vocab@, a, b, freq),
    {
        self.gate(a, b, freq) && self.morph(a, b)
    }

    /// The roots that the token has that two tokens merge into.
    pub fn narrow_root_set(&self, a: TokenId, b: TokenId) -> (r: Vec<RootId>)
        requires
            self.wf(),
        ensures
            r@ == training::narrowed(self.rules(), self.vocab@, a, b),
    {
        let mut out: Vec<RootId> = Vec::new();
        let ghost f = |root: RootId|
            training::root_permits(self.rules(), self.vocab@, a, b, root);
        if self.latin_pass {
            assert(out@ =~= Seq::<RootId>::empty());
            return out;
        }
        let roots = self.vocab.get_root_set(a);
        let surface_a = self.surface(a);
        let surface_b = self.surface(b);
        let mut i: usize = 0;
        proof {
            reveal(Seq::filter);
            assert(out@ =~= roots@.take(0).filter(f));
        }
        while i < roots.len()
            invariant
                i <= roots@.len(),
                self.wf(),
                f == (|root: RootId|
                    training::root_permits(self.rules(), self.vocab@, a, b, root)),
                roots@ == vocabulary::roots_of(self.vocab@, a),
                surface_a@ == vocabulary::surface_of(self.vocab@, a),
                surface_b@ == vocabulary::surface_of(self.vocab@, b),
                out@ == roots@.take(i as int).filter(f),
            decreases roots@.len() - i,
        {
            let root: usize = roots[i];
            proof {
                reveal(Seq::filter);
                assert(roots@.take(i + 1).drop_last() =~= roots@.take(i as int));
                assert(roots@.take(i + 1).last() == root);
            }
            if self.paradigm_registry.check_allowed(
                root,
                surface_a.as_str(),
                surface_b.as_str(),
            ) {
                out.push(root);
            }
            i += 1;
        }
        assert(roots@.take(roots@.len() as int) =~= roots@);
        out
    }

    /// The candidate that a pair is queued as.
    pub fn candidate(&self, a: TokenId, b: TokenId, freq: Frequency) -> (c: MergeCandidate)
        ensures
            c == training::candidate(self.vocab@, (a, b), freq),
    {
        MergeCandidate { rank: self.vocab.get_script(a).rank(), freq, a, b }
    }

    /// The queue that training starts from: a candidate for each legal pair of the
    /// corpus.
    pub fn initialize_heap(&self, corpus: &Corpus) -> (queue: CandidateHeap)
        requires
            self.wf(),
            corpus.wf(),
        ensures
            queue.wf(),
            queue@ == training::start_queue(self.rules(), self.vocab@, corpus@.freqs),
    {
        broadcast use vstd::multiset::group_multiset_axioms;

        let mut queue = CandidateHeap::new();
        let all = corpus.pairs();
        let ghost freqs = corpus@.freqs;
        let ghost v = self.vocab@;
        let ghost rules = self.rules();
        let mut i: usize = 0;
        while i < all.len()
            invariant
                i <= all@.len(),
                self.wf(),
                queue.wf(),
                freqs == corpus@.freqs,
                v == self.vocab@,
                rules == self.rules(),
                all@.no_duplicates(),
                all@.to_set() == freqs.dom(),
                forall|c: MergeCandidate| #[trigger]
                    queue@.count(c) == (if training::seeded(rules, v, freqs, c) && all@.take(
                        i as int,
                    ).contains((c.a, c.b)) {
                        1nat
                    } else {
                        0nat
                    }),
            decreases all@.len() - i,
        {
            let (a, b) = all[i];
            let ghost p: Pair = (a, b);
            let ghost before = queue@;
            let ghost old_pairs = all@.take(i as int);
            let ghost new_pairs = all@.take(i + 1);
            proof {
                assert(all@.to_set().contains(all@[i as int]));
                assert(freqs.contains_key(p));
                assert forall|q: Pair| #[trigger] new_pairs.contains(q) <==> old_pairs.contains(q) || q == p by {
                    if old_pairs.contains(q) {
                        let j = choose|j: int| 0 <= j < old_pairs.len() && old_pairs[j] == q;
                        assert(new_pairs[j] == q);
                    }
                    if new_pairs.contains(q) {
                        let j = choose|j: int| 0 <= j < new_pairs.len() && new_pairs[j] == q;
                        if j < i {
                            assert(old_pairs[j] == q);
                        }
                    }
                    assert(new_pairs[i as int] == p);
                }
                assert(!old_pairs.contains(p));
            }
            let freq: u64 = corpus.get_freq(a, b);
            let ghost fresh = training::candidate(v, p, freq);
            if self.legal(a, b, freq) {
                queue.push(self.candidate(a, b, freq));
                assert(training::seeded(rules, v, freqs, fresh));
            }
            proof {
                assert forall|c: MergeCandidate| #[trigger] queue@.count(c) == (if training::seeded(
                    rules,
                    v,
                    freqs,
                    c,
                ) && new_pairs.contains((c.a, c.b)) {
                    1nat
                } else {
                    0nat
                }) by {
                    assert(before.count(c) == (if training::seeded(rules, v, freqs, c)
                        && old_pairs.contains((c.a, c.b)) {
                        1nat
                    } else {
                        0nat
                    }));
                }
            }
            i += 1;
        }
        proof {
            assert(all@.take(all@.len() as int) =~= all@);
            corpus.lemma_wf();
            training::lemma_start_queue(rules, v, freqs);
            assert forall|c: MergeCandidate| #[trigger] queue@.count(c) == training::start_queue(
                rules,
                v,
                freqs,
            ).count(c) by {
                if training::seeded(rules, v, freqs, c) {
                    assert(all@.to_set().contains((c.a, c.b)));
                }
            }
            assert(queue@ =~= training::start_queue(rules, v, freqs));
        }
        queue
    }

    /// Takes candidates out of the queue until one is live.
    fn pop_live(&self, corpus: &Corpus, queue: &mut CandidateHeap) -> (r: Option<MergeCandidate>)
        requires
            self.wf(),
            old(queue).wf(),
        ensures
            final(queue).wf(),
            match r {
                Some(c) => {
                    &&& training::is_best(self.rules(), self.state(corpus, old(queue)), c)
                    &&& final(queue)@ == training::dequeued(old(queue)@, c)
                },
                None => {
                    &&& !training::has_live(self.rules(), self.state(corpus, old(queue)))
                    &&& final(queue)@ == Multiset::<MergeCandidate>::empty()
                },
            },
    {
        broadcast use vstd::multiset::group_multiset_axioms;

        let ghost q0 = queue@;
        let ghost v = self.vocab@;
        let ghost freqs = corpus@.freqs;
        let ghost rules = self.rules();
        loop
            invariant
                self.wf(),
                queue.wf(),
                q0 == old(queue)@,
                v == self.vocab@,
                freqs == corpus@.freqs,
                rules == self.rules(),
                forall|d: MergeCandidate| #[trigger] queue@.count(d) <= q0.count(d),
                forall|d: MergeCandidate| #[trigger]
                    queue@.count(d) != q0.count(d) ==> !training::live(rules, v, freqs, d),
                forall|d: MergeCandidate, e: MergeCandidate|
                    #![trigger queue@.count(d), queue@.count(e)]
                    queue@.count(d) != q0.count(d) && queue@.count(e) > 0 ==> !heap::ranks_below(
                        d,
                        e,
                    ),
            decreases queue@.len(),
        {
            let ghost q1 = queue@;
            match queue.pop() {
                None => {
                    proof {
                        assert forall|c: MergeCandidate| #[trigger] q0.contains(c) implies !training::live(rules, v, freqs, c) by {
                            assert(queue@.count(c) == 0);
                        }
                    }
                    return None;
                },
                Some(c) => {
                    proof {
                        assert(q1.contains(c));
                        assert(queue@ == q1.remove(c));
                        assert forall|d: MergeCandidate| #[trigger] queue@.count(d) == (if d == c {
                            (q1.count(d) - 1) as nat
                        } else {
                            q1.count(d)
                        }) by {}
                    }
                    let current: u64 = corpus.get_freq(c.a, c.b);
                    if current == c.freq && current != 0 && self.legal(c.a, c.b, current) {
                        proof {
                            self.lemma_popped_is_best(corpus, old(queue), q1, c);
                            assert(queue@ =~= training::dequeued(q0, c)) by {
                                let f = |d: MergeCandidate| !heap::ranks_below(c, d);
                                assert forall|d: MergeCandidate| #[trigger] queue@.count(d)
                                    == training::dequeued(q0, c).count(d) by {
                                    assert(q0.filter(f).count(d) == if f(d) {
                                        q0.count(d)
                                    } else {
                                        0
                                    });
                                    assert(q1.count(d) > 0 ==> q1.contains(d));
                                    heap::law_candidate_order(c, d, c);
                                    assert(q1.count(c) == q0.count(c));
                                }
                            }
                        }
                        return Some(c);
                    }
                    assert(!training::live(rules, v, freqs, c));
                    proof {
                        assert forall|d: MergeCandidate, e: MergeCandidate|
                            #![trigger queue@.count(d), queue@.count(e)]
                            queue@.count(d) != q0.count(d) && queue@.count(e) > 0 implies !heap::ranks_below(d, e) by {
                            assert(q1.count(e) > 0);
                            assert(q1.contains(e));
                            if q1.count(d) == q0.count(d) {
                                assert(d == c);
                            }
                        }
                    }
                },
            }
        }
    }

    /// A live candidate that ranks highest in what is left of a queue is the best in
    /// the queue, where only candidates that were not live were taken out.
    proof fn lemma_popped_is_best(
        &self,
        corpus: &Corpus,
        queue: &CandidateHeap,
        left: Multiset<MergeCandidate>,
        c: MergeCandidate,
    )
        requires
            left.contains(c),
            training::live(self.rules(), self.vocab@, corpus@.freqs, c),
            forall|d: MergeCandidate| left.contains(d) ==> !heap::ranks_below(c, d),
            forall|d: MergeCandidate| #[trigger] left.count(d) <= queue@.count(d),
            forall|d: MergeCandidate| #[trigger]
                left.count(d) != queue@.count(d) ==> !training::live(
                    self.rules(),
                    self.vocab@,
                    corpus@.freqs,
                    d,
                ),
        ensures
            training::is_best(self.rules(), self.state(corpus, queue), c),
    {
        let st = self.state(corpus, queue);
        assert(left.count(c) <= queue@.count(c));
        assert forall|d: MergeCandidate| #[trigger]
            st.queue.contains(d) && training::live(
                self.rules(),
                st.vocab,
                st.corpus.freqs,
                d,
            ) implies !heap::ranks_below(c, d) by {
            assert(left.count(d) == queue@.count(d));
            assert(left.contains(d));
        }
    }

    /// Makes the next merge. Returns whether there was one to make.
    pub fn train_step(&mut self, corpus: &mut Corpus, queue: &mut CandidateHeap) -> (merged: bool)
        requires
            old(self).wf(),
            old(corpus).wf(),
            old(queue).wf(),
        ensures
            final(self).wf(),
            final(corpus).wf(),
            final(queue).wf(),
            final(self).rules() == old(self).rules(),
            final(corpus).budget() == old(corpus).budget(),
            merged == training::has_live(old(self).rules(), old(self).state(old(corpus), old(queue))),
            merged ==> final(self).state(final(corpus), final(queue)) == training::merge_step(
                old(self).rules(),
                old(self).state(old(corpus), old(queue)),
                training::best(old(self).rules(), old(self).state(old(corpus), old(queue))),
            ),
            !merged ==> final(self).vocab@ == old(self).vocab@ && final(corpus)@ == old(corpus)@
                && final(queue)@ == Multiset::<MergeCandidate>::empty(),
    {
        let ghost st = self.state(corpus, queue);
        let ghost rules = self.rules();
        match self.pop_live(corpus, queue) {
            None => false,
            Some(c) => {
                proof {
                    assert(st.queue.contains(c) && training::live(
                        rules,
                        st.vocab,
                        st.corpus.freqs,
                        c,
                    ));
                    training::lemma_best(rules, st);
                }
                let roots = self.narrow_root_set(c.a, c.b);
                let new_id = self.vocab.create_merged(c.a, c.b, roots);
                let touched = corpus.apply_merge(c.a, c.b, new_id);
                self.requeue(corpus, queue, &touched);
                true
            },
        }
    }

    /// Queues those of some pairs afresh that are admissible.
    fn requeue(&self, corpus: &Corpus, queue: &mut CandidateHeap, touched: &Vec<Pair>)
        requires
            self.wf(),
            old(queue).wf(),
        ensures
            final(queue).wf(),
            final(queue)@ == training::requeued(
                self.rules(),
                self.vocab@,
                corpus@.freqs,
                old(queue)@,
                touched@,
            ),
    {
        let ghost q0 = queue@;
        let mut i: usize = 0;
        while i < touched.len()
            invariant
                i <= touched@.len(),
                self.wf(),
                queue.wf(),
                queue@ == training::requeued(
                    self.rules(),
                    self.vocab@,
                    corpus@.freqs,
                    q0,
                    touched@.take(i as int),
                ),
            decreases touched@.len() - i,
        {
            let (x, y) = touched[i];
            proof {
                assert(touched@.take(i + 1).drop_last() =~= touched@.take(i as int));
                assert(touched@.take(i + 1).last() == (x, y));
            }
            let f: u64 = corpus.get_freq(x, y);
            if f > 0 && self.legal(x, y, f) {
                queue.push(self.candidate(x, y, f));
            }
            i += 1;
        }
        assert(touched@.take(touched@.len() as int) =~= touched@);
    }

    /// Makes up to `limit` merges, and none once the vocabulary has `budget` tokens.
    /// Returns how many were made. Where there were fewer than the limit, training is
    /// done.
    pub fn train_some(
        &mut self,
        corpus: &mut Corpus,
        queue: &mut CandidateHeap,
        budget: usize,
        limit: u64,
    ) -> (merges: u64)
        requires
            old(self).wf(),
            old(corpus).wf(),
            old(queue).wf(),
        ensures
            final(self).wf(),
            final(corpus).wf(),
            final(queue).wf(),
            final(self).rules() == old(self).rules(),
            final(corpus).budget() == old(corpus).budget(),
            merges == training::merges_made(
                old(self).rules(),
                old(self).state(old(corpus), old(queue)),
                budget,
                limit as nat,
            ),
            final(self).vocab@ == training::advanced(
                old(self).rules(),
                old(self).state(old(corpus), old(queue)),
                budget,
                limit as nat,
            ).vocab,
            final(corpus)@ == training::advanced(
                old(self).rules(),
                old(self).state(old(corpus), old(queue)),
                budget,
                limit as nat,
            ).corpus,
            merges == limit ==> final(queue)@ == training::advanced(
                old(self).rules(),
                old(self).state(old(corpus), old(queue)),
                budget,
                limit as nat,
            ).queue,
    {
        let ghost rules = self.rules();
        let ghost first = self.state(corpus, queue);
        let ghost size = corpus.budget();
        let mut merges: u64 = 0;
        proof {
            corpus.lemma_wf();
            training::lemma_advanced(rules, first, budget, limit as nat);
        }
        while merges < limit && self.vocab.len() < budget
            invariant
                merges <= limit,
                self.wf(),
                corpus.wf(),
                queue.wf(),
                self.rules() == rules,
                corpus.budget() == size,
                first == old(self).state(old(corpus), old(queue)),
                rules == old(self).rules(),
                size == old(corpus).budget(),
                training::advanced(
                    rules,
                    self.state(corpus, queue),
                    budget,
                    (limit - merges) as nat,
                ) == training::advanced(rules, first, budget, limit as nat),
                merges + training::merges_made(
                    rules,
                    self.state(corpus, queue),
                    budget,
                    (limit - merges) as nat,
                ) == training::merges_made(rules, first, budget, limit as nat),
            decreases limit - merges,
        {
            if !self.train_step(corpus, queue) {
                return merges;
            }
            merges += 1;
        }
        merges
    }

    /// Merges until the vocabulary has `budget` tokens, or no merge is admissible. The
    /// budget is a total size, not a number of merges.
    pub fn train(&mut self, corpus: &mut Corpus, budget: usize)
        requires
            old(self).wf(),
            old(corpus).wf(),
        ensures
            final(self).wf(),
            final(corpus).wf(),
            final(self).rules() == old(self).rules(),
            final(corpus).budget() == old(corpus).budget(),
            final(self).vocab@ == training::trained(
                old(self).rules(),
                training::start(old(self).rules(), old(self).vocab@, old(corpus)@),
                budget,
            ).vocab,
            final(corpus)@ == training::trained(
                old(self).rules(),
                training::start(old(self).rules(), old(self).vocab@, old(corpus)@),
                budget,
            ).corpus,
    {
        let ghost rules = self.rules();
        let ghost first = training::start(rules, self.vocab@, corpus@);
        let ghost size = corpus.budget();
        let limit: u64 = u64::MAX;
        let mut queue = self.initialize_heap(corpus);
        let mut merges: u64 = limit;
        proof {
            corpus.lemma_wf();
        }
        while merges == limit
            invariant
                limit == u64::MAX,
                self.wf(),
                corpus.wf(),
                corpus@.wf(),
                queue.wf(),
                self.rules() == rules,
                corpus.budget() == size,
                merges == limit ==> training::trained(rules, self.state(corpus, &queue), budget)
                    == training::trained(rules, first, budget),
                merges != limit ==> self.vocab@ == training::trained(rules, first, budget).vocab
                    && corpus@ == training::trained(rules, first, budget).corpus,
            decreases counting::token_count(corpus@.words) + (if merges == limit {
                1int
            } else {
                0
            }),
        {
            let ghost st = self.state(corpus, &queue);
            proof {
                training::lemma_advanced(rules, st, budget, limit as nat);
            }
            merges = self.train_some(corpus, &mut queue, budget, limit);
            proof {
                corpus.lemma_wf();
            }
        }
    }
}

impl ConstrainedBPETrainer {
    /// A trainer goes by its own paradigms, its threshold and its pass.
    pub proof fn law_rules(&self)
        ensures
            self.rules().paradigms == self.paradigm_registry@,
            self.rules().theta == self.theta,
            self.rules().latin == self.latin_pass,
    {
    }
}

impl ConstrainedBPETrainer {
    /// A state of training is made of the vocabulary, the words and the queue as they are.
    pub proof fn law_state(&self, corpus: &Corpus, queue: &CandidateHeap)
        ensures
            self.state(corpus, queue).vocab == self.vocab@,
            self.state(corpus, queue).corpus == corpus@,
            self.state(corpus, queue).queue == queue@,
    {
    }
}

} // verus!
