use nepbpe::corpus::Corpus;
use nepbpe::paradigm::{Paradigm, ParadigmRegistry};
use nepbpe::script::Script;
use nepbpe::token::Token;
use nepbpe::tokenizer::NepBPETokenizer;
use nepbpe::trainer::ConstrainedBPETrainer;
use nepbpe::word_counts::WordCounts;

fn strings(list: &[&str]) -> Vec<String> {
    list.iter().map(|s| s.to_string()).collect()
}

const KA: usize = 0;
const KHA: usize = 1;
const GA: usize = 2;
const RA: usize = 3;
const KO: usize = 4;
const KHAA: usize = 5;
const DANDA: usize = 6;
const BANG: usize = 7;
const A: usize = 8;
const B: usize = 9;

/// क ख ग र, को strict, खा ambiguous, । and !, then the Latin alphabet.
fn tokenizer() -> NepBPETokenizer {
    let mut t = NepBPETokenizer::new(vec![], ParadigmRegistry::new());
    t.initialize_vocab(
        strings(&["क", "ख", "ग", "र"]),
        strings(&["को", "खा"]),
        strings(&["।", "!"]),
        strings(&["को"]),
        strings(&["खा"]),
    );
    assert_eq!(t.vocab.get_id_by_surface("र"), Some(RA));
    assert_eq!(t.vocab.get_id_by_surface("को"), Some(KO));
    assert_eq!(t.vocab.get_id_by_surface("खा"), Some(KHAA));
    assert_eq!(t.vocab.get_id_by_surface("!"), Some(BANG));
    assert_eq!(t.vocab.get_id_by_surface("a"), Some(A));
    t
}

fn times(seq: &[usize], n: usize) -> Vec<Vec<usize>> {
    vec![seq.to_vec(); n]
}

fn new_surfaces(t: &NepBPETokenizer, from: usize) -> Vec<String> {
    (from..t.vocab.len()).map(|id| t.vocab.get_surface(id).unwrap()).collect()
}

#[test]
fn the_most_frequent_pair_is_merged_first() {
    let mut t = tokenizer();
    let n = t.vocab.len();
    let got = t.train_bpe(vec![vec![KA, KHA, KA, KHA], vec![KHA, GA]], n + 1, 1);
    assert_eq!(got, n + 1);
    assert_eq!(new_surfaces(&t, n), strings(&["कख"]));
    assert!(matches!(&**t.vocab.get_token(n).unwrap(), Token::MergedToken(p) if *p == vec![KA, KHA]));
}

#[test]
fn merges_build_on_merges() {
    let mut t = tokenizer();
    let n = t.vocab.len();
    t.train_bpe(vec![vec![KA, KHA, KA, KHA]], n + 10, 1);
    // Nothing is left to merge after two steps, though the budget is larger.
    assert_eq!(new_surfaces(&t, n), strings(&["कख", "कखकख"]));
    assert_eq!(t.encode("कखकखक"), vec![n + 1, KA]);
}

#[test]
fn ties_are_broken_by_the_greater_ids() {
    let mut t = tokenizer();
    let n = t.vocab.len();
    t.train_bpe(vec![vec![KA, KHA], vec![GA, RA], vec![GA, KHA]], n + 2, 1);
    assert_eq!(new_surfaces(&t, n), strings(&["गर", "गख"]));
}

#[test]
fn devanagari_goes_before_punctuation() {
    let mut t = tokenizer();
    let n = t.vocab.len();
    let mut seqs = times(&[BANG, BANG], 9);
    seqs.extend(times(&[KA, KHA], 2));
    t.train_bpe(seqs, n + 2, 1);
    assert_eq!(new_surfaces(&t, n), strings(&["कख", "!!"]));
    assert_eq!(t.vocab.get_script(n + 1), Script::PUN);
}

#[test]
fn the_budget_is_a_total_size() {
    let mut t = tokenizer();
    let n = t.vocab.len();
    assert_eq!(t.train_bpe(times(&[KA, KHA], 5), n, 1), n);
    assert_eq!(t.train_bpe(times(&[KA, KHA], 5), 3, 1), n);
}

#[test]
fn scripts_are_never_mixed() {
    let mut t = tokenizer();
    let n = t.vocab.len();
    let mut seqs = times(&[KA, A], 100);
    seqs.extend(times(&[A, KA], 100));
    seqs.extend(times(&[KA, DANDA], 100));
    seqs.extend(times(&[A, B], 100));
    assert_eq!(t.train_bpe(seqs, n + 10, 1), n);
}

#[test]
fn a_strict_token_never_merges() {
    let mut t = tokenizer();
    let n = t.vocab.len();
    let mut seqs = times(&[KA, KO], 300);
    seqs.extend(times(&[KO, KA], 300));
    assert_eq!(t.train_bpe(seqs, n + 10, 1), n);
}

#[test]
fn an_ambiguous_token_needs_more_than_the_threshold() {
    for (freq, theta, merges) in [(1, 1, 0), (2, 1, 1), (5, 5, 0), (6, 5, 1), (5, 6, 0), (1, 0, 1)] {
        let mut t = tokenizer();
        let n = t.vocab.len();
        t.train_bpe(times(&[KHAA, RA], freq), n + 10, theta);
        assert_eq!(t.vocab.len(), n + merges);
    }
    // As the right part it never merges.
    let mut t = tokenizer();
    let n = t.vocab.len();
    assert_eq!(t.train_bpe(times(&[KA, KHAA], 300), n + 10, 1), n);
}

fn with_paradigm() -> NepBPETokenizer {
    let mut t = tokenizer();
    let mut p = Paradigm::new(11);
    p.set_transitions("ग".to_string(), strings(&["र"]));
    p.set_transitions("गर".to_string(), strings(&["क"]));
    t.paradigm_registry.add_paradigm(p);
    t
}

#[test]
fn paradigms_block_what_they_do_not_allow() {
    let mut t = with_paradigm();
    let n = t.vocab.len();
    let mut seqs = times(&[GA, KA], 300);
    seqs.extend(times(&[GA, RA, KHA], 2));
    seqs.extend(times(&[GA, RA, KA], 2));
    t.train_bpe(seqs, n + 10, 1);
    // ग + क is frequent but not allowed; ग + र is; गर keeps the root and continues by it.
    assert_eq!(new_surfaces(&t, n), strings(&["गर", "गरक"]));
    assert_eq!(t.vocab.get_root_set(n), &[11]);
    assert_eq!(t.vocab.get_root_set(n + 1), &[11]);
    // The paradigms are given back.
    assert!(t.paradigm_registry.check_allowed(11, "ग", "र"));
}

#[test]
fn roots_are_tagged_on_demand() {
    let mut t = with_paradigm();
    assert!(t.vocab.get_root_set(GA).is_empty());
    t.assign_initial_roots();
    assert_eq!(t.vocab.get_root_set(GA), &[11]);
    assert!(t.vocab.get_root_set(KA).is_empty());
}

#[test]
fn training_does_not_depend_on_the_order_of_words() {
    let words = vec![
        vec![KA, KHA, GA],
        vec![KHA, GA, RA],
        vec![GA, RA],
        vec![KA, KHA],
        vec![RA, KA, KHA, GA],
        vec![DANDA, BANG],
    ];
    let mut first = tokenizer();
    let budget = first.vocab.len() + 6;
    first.train_bpe(words.clone(), budget, 1);
    for k in 1..words.len() {
        let mut rotated = words.clone();
        rotated.rotate_left(k);
        let mut t = tokenizer();
        t.train_bpe(rotated, budget, 1);
        assert_eq!(t.vocab.get_all_surfaces(), first.vocab.get_all_surfaces());
    }
}

#[test]
fn every_merge_is_the_best_of_the_corpus() {
    // Recount the corpus before each merge and take the best legal pair.
    let words = vec![vec![KA, KHA, KA, KHA, GA], vec![KHA, GA, KHA, GA], vec![GA, RA, KA], vec![RA, KA, KHA]];
    let mut t = tokenizer();
    let n = t.vocab.len();
    t.train_bpe(words.clone(), n + 5, 1);
    let mut current = words;
    for step in 0..(t.vocab.len() - n) {
        let corpus = Corpus::from_sequences(current.clone(), 0);
        let mut best = (0, 0, 0);
        for (a, b) in corpus.pairs() {
            best = best.max((corpus.get_freq(a, b), a, b));
        }
        let id = n + step;
        assert!(matches!(&**t.vocab.get_token(id).unwrap(), Token::MergedToken(p) if *p == vec![best.1, best.2]));
        for w in current.iter_mut() {
            let mut i = 0;
            while i + 1 < w.len() {
                if w[i] == best.1 && w[i + 1] == best.2 {
                    w[i] = id;
                    w.remove(i + 1);
                } else {
                    i += 1;
                }
            }
        }
    }
}

#[test]
fn tokens_that_were_there_stay() {
    let mut t = tokenizer();
    let before = t.vocab.get_all_surfaces();
    t.train_bpe(times(&[KA, KHA, GA], 4), before.len() + 3, 1);
    assert_eq!(t.vocab.get_all_surfaces()[..before.len()], before[..]);
    assert!(t.vocab.is_strict(KO) && t.vocab.is_ambiguous(KHAA));
    assert!(t.verify_roundtrip("कखग कख 😀 é\u{200C}"));
}

#[test]
fn training_from_text() {
    let mut t = tokenizer();
    let n = t.vocab.len();
    assert_eq!(t.train_from_text(&strings(&["कख", "कख ग", ""]), n + 1, 1), Some(n + 1));
    assert_eq!(new_surfaces(&t, n), strings(&["कख"]));
    assert_eq!(t.train_from_text(&strings(&["", "\u{200D}"]), n + 9, 1), Some(n + 1));
    assert_eq!(t.train_from_text(&vec![], n + 9, 1), Some(n + 1));
}

#[test]
fn words_of_lines_are_counted() {
    let t = tokenizer();
    let mut counts = WordCounts::new();
    assert!(t.count_line("कख  कख\tग ", &mut counts));
    assert!(t.count_line("", &mut counts));
    assert!(t.count_line("ग\u{200D} \u{200D} कख", &mut counts));
    assert_eq!(counts.occurrences(), 5);
    let words: Vec<(Vec<usize>, u64)> =
        counts.into_words().into_iter().map(|w| (w.tokens, w.count)).collect();
    assert_eq!(words, vec![(vec![KA, KHA], 3), (vec![GA], 2)]);
}

#[test]
fn counted_words_train_like_sequences() {
    let lines = ["कखग कख", "कखग गर", "!! ।। कख"];
    let mut counted = tokenizer();
    let n = counted.vocab.len();
    let mut counts = WordCounts::new();
    let mut sequences = vec![];
    for line in lines {
        counted.count_line(line, &mut counts);
        for word in line.split_whitespace() {
            sequences.push(counted.encode(word));
        }
    }
    let mut raw = tokenizer();
    assert!(counts.fits());
    assert_eq!(
        counted.train_from_counts(counts, n + 4, 1),
        raw.train_bpe(sequences, n + 4, 1)
    );
    assert_eq!(counted.vocab.get_all_surfaces(), raw.vocab.get_all_surfaces());
    assert_eq!(counted.vocab.len(), n + 4);
}

#[test]
fn the_order_of_counting_has_no_say() {
    let lines = ["कखग कख गर", "कखग गर !!", "।। कख रक कखग"];
    let mut first = tokenizer();
    let n = first.vocab.len();
    let mut counts = WordCounts::new();
    for line in lines {
        first.count_line(line, &mut counts);
    }
    first.train_from_counts(counts, n + 6, 1);
    let mut second = tokenizer();
    let mut counts = WordCounts::new();
    let all = lines.join(" ");
    let mut words: Vec<&str> = all.split_whitespace().collect();
    words.reverse();
    for word in words {
        second.count_line(word, &mut counts);
    }
    second.train_from_counts(counts, n + 6, 1);
    assert_eq!(first.vocab.get_all_surfaces(), second.vocab.get_all_surfaces());
    assert_eq!(first.vocab.len(), n + 6);
}

#[test]
fn rare_words_are_left_out_of_training() {
    let mut t = tokenizer();
    let n = t.vocab.len();
    let mut counts = WordCounts::new();
    t.count_line("कख कख गर", &mut counts);
    t.train_from_counts(counts.retain_min(2), n + 9, 1);
    assert_eq!(new_surfaces(&t, n), strings(&["कख"]));
}

#[test]
fn bilingual_training_has_two_passes() {
    let mut t = tokenizer();
    let n = t.vocab.len();
    let mut counts = WordCounts::new();
    t.count_line("कखग कखग abc abc abc xy", &mut counts);
    // The first pass makes one token, the Latin pass what is left of both budgets.
    let got = t.train_bilingual(counts, n + 1, 2, 1);
    assert_eq!(got, (n + 1, n + 3));
    assert_eq!(new_surfaces(&t, n), strings(&["खग", "bc", "abc"]));
    assert_eq!(t.vocab.get_script(n), Script::DEV);
    assert_eq!(t.vocab.get_script(n + 1), Script::LAT);
    assert_eq!(t.vocab.get_script(n + 2), Script::LAT);
    assert_eq!(t.encode("abcab"), vec![n + 2, A, B]);
}

#[test]
fn the_latin_pass_merges_latin_alone() {
    let mut t = tokenizer();
    let n = t.vocab.len();
    let trainer = t.begin_training(1);
    let mut trainer = trainer;
    trainer.latin_pass = true;
    let mut seqs = times(&[KA, KHA], 9);
    seqs.extend(times(&[BANG, BANG], 9));
    seqs.extend(times(&[A, B], 1));
    let mut corpus = Corpus::from_sequences(seqs, n + 9);
    trainer.train(&mut corpus, n + 9);
    assert_eq!(t.finish_training(trainer), n + 1);
    assert_eq!(new_surfaces(&t, n), strings(&["ab"]));
}

#[test]
fn a_trainer_starts_with_its_defaults() {
    let t = tokenizer();
    let trainer = ConstrainedBPETrainer::new(t.vocab, t.paradigm_registry);
    assert_eq!(trainer.theta, 100);
    assert!(!trainer.latin_pass);
    assert!(trainer.script_compat(KA, KO) && trainer.script_compat(DANDA, BANG));
    assert!(!trainer.script_compat(KA, DANDA) && !trainer.script_compat(A, B));
    assert!(trainer.gate(KA, KHA, 1));
    assert!(!trainer.gate(KA, KO, 1000) && !trainer.gate(KO, KA, 1000));
    assert!(!trainer.gate(KHAA, KA, 100) && trainer.gate(KHAA, KA, 101));
    assert!(!trainer.gate(KA, 100000, 5));
    assert!(trainer.morph(KA, KHA) && trainer.legal(KA, KHA, 1));
    assert!(trainer.narrow_root_set(KA, KHA).is_empty());
    let c = trainer.candidate(KA, KHA, 7);
    assert_eq!((c.rank, c.freq, c.a, c.b), (2, 7, KA, KHA));
}

#[test]
fn merged_tokens_are_of_one_script_and_two_characters() {
    let mut t = tokenizer();
    let n = t.vocab.len();
    let mut counts = WordCounts::new();
    t.count_line("कखग!! कखगab abab!! a।। कab गर!!ab", &mut counts);
    let (_, total) = t.train_bilingual(counts, n + 5, 5, 1);
    assert!(total > n + 5);
    for id in n..total {
        let Token::MergedToken(parts) = &**t.vocab.get_token(id).unwrap() else {
            panic!("a new token is a merge");
        };
        assert!(parts.iter().all(|p| *p < id));
        assert!(parts.iter().all(|p| t.vocab.get_script(*p) == t.vocab.get_script(id)));
        assert!(t.vocab.get_surface(id).unwrap().chars().count() >= 2);
    }
    assert!(t.verify_roundtrip("कखग!! abab 😀"));
}

#[test]
fn training_can_be_interrupted() {
    let words = vec![vec![KA, KHA, GA, RA], vec![KHA, GA, RA], vec![GA, RA], vec![KA, KHA]];
    let mut whole = tokenizer();
    let budget = whole.vocab.len() + 20;
    whole.train_bpe(words.clone(), budget, 1);

    let mut t = tokenizer();
    let n = t.vocab.len();
    let mut trainer = t.begin_training(1);
    let mut corpus = Corpus::from_sequences(words, budget);
    let mut queue = trainer.initialize_heap(&corpus);
    let mut merges = 0;
    loop {
        let made = trainer.train_some(&mut corpus, &mut queue, budget, 2);
        merges += made;
        if made < 2 {
            break;
        }
    }
    assert!(!trainer.train_step(&mut corpus, &mut queue));
    t.finish_training(trainer);
    assert_eq!(merges as usize, t.vocab.len() - n);
    assert_eq!(t.vocab.get_all_surfaces(), whole.vocab.get_all_surfaces());
}

#[test]
fn a_token_with_an_empty_surface_leaves_words_shorter() {
    let mut t = NepBPETokenizer::new(vec![], ParadigmRegistry::new());
    t.initialize_vocab(strings(&["क"]), strings(&[""]), vec![], vec![], vec![]);
    let n = t.vocab.len();
    let empty = t.vocab.get_id_by_surface("").unwrap();
    // Merging with it mints nothing, and training ends.
    assert_eq!(t.train_bpe(vec![vec![KA, empty, empty], vec![empty, KA]], n + 5, 1), n);
}

#[test]
fn an_empty_morpheme_that_no_word_has_changes_nothing() {
    let fresh = || {
        let mut t = NepBPETokenizer::new(vec![], ParadigmRegistry::new());
        t.initialize_vocab(strings(&["क", "ख", "ग"]), strings(&[""]), vec![], vec![], vec![]);
        t
    };
    let lines = ["कखग कख", "कखग गख", "कख गखग"];
    let mut counted = fresh();
    let n = counted.vocab.len();
    let mut counts = WordCounts::new();
    let mut sequences = vec![];
    for line in lines {
        counted.count_line(line, &mut counts);
        for word in line.split_whitespace() {
            sequences.push(counted.encode(word));
        }
    }
    let counts = counts.retain_min(1);
    let mut raw = fresh();
    assert_eq!(
        counted.train_from_counts(counts, n + 4, 1),
        raw.train_bpe(sequences.clone(), n + 4, 1)
    );
    assert_eq!(counted.vocab.get_all_surfaces(), raw.vocab.get_all_surfaces());
    sequences.reverse();
    let mut reversed = fresh();
    reversed.train_bpe(sequences, n + 4, 1);
    assert_eq!(reversed.vocab.get_all_surfaces(), raw.vocab.get_all_surfaces());
}

#[test]
fn unknown_tokens_leave_training_reproducible() {
    let n = tokenizer().vocab.len();
    // The id of the first token that is minted, and one beyond all.
    let words = vec![
        vec![KA, KHA, n],
        vec![n, GA],
        vec![KA, KHA],
        vec![GA, n, GA],
        vec![usize::MAX, KA, KHA],
        vec![RA, GA, RA],
    ];
    let mut first = tokenizer();
    first.train_bpe(words.clone(), n + 5, 1);
    assert!(first.vocab.len() > n);
    for k in 1..words.len() {
        let mut rotated = words.clone();
        rotated.rotate_left(k);
        let mut t = tokenizer();
        t.train_bpe(rotated, n + 5, 1);
        assert_eq!(t.vocab.get_all_surfaces(), first.vocab.get_all_surfaces());
    }
}

#[test]
fn bilingual_training_does_not_depend_on_the_order_of_words() {
    let words = ["कखग", "abc", "ab", "कख", "bc", "abc", "गख"];
    let n = tokenizer().vocab.len();
    let run = |order: Vec<&str>| {
        let mut t = tokenizer();
        let mut counts = WordCounts::new();
        for w in order {
            t.count_line(w, &mut counts);
        }
        t.train_bilingual(counts, n + 2, 3, 1);
        t.vocab.get_all_surfaces()
    };
    let first = run(words.to_vec());
    assert!(first.len() > n + 2);
    for k in 1..words.len() {
        let mut rotated = words.to_vec();
        rotated.rotate_left(k);
        assert_eq!(run(rotated), first);
    }
}

#[test]
fn an_empty_surface_in_the_words_can_give_their_order_a_say() {
    // The condition on reproducibility matters: token 2 has no surface.
    let words = vec![vec![0, 2, 2, 1, 2, 0, 2, 1], vec![0, 1, 2, 1, 1, 2, 2, 1]];
    let run = |order: Vec<Vec<usize>>| {
        let mut t = NepBPETokenizer::new(vec![], ParadigmRegistry::new());
        t.load_vocab(vec![(0, "ख".to_string()), (1, "क".to_string()), (2, "".to_string())]);
        t.train_bpe(order, 20, 1)
    };
    assert_eq!(run(words.clone()), 9);
    assert_eq!(run(words.into_iter().rev().collect()), 8);
}
