use nepbpe::alphabet::{bytes_to_unicode, invert_alphabet};
use nepbpe::corpus::{sequences_fit, Corpus};
use nepbpe::dfa::AksharaDFA;
use nepbpe::heap::{CandidateHeap, MergeCandidate};
use nepbpe::pairs::{PairSet, PairTable};
use nepbpe::paradigm::{Paradigm, ParadigmRegistry};
use nepbpe::script::{ascii_alnum, classify_char, Script};
use nepbpe::sorting::sort_numbered;
use nepbpe::text::{char_string, chars_of, split_words, string_of, string_set};
use nepbpe::token::{Akshara, Token};
use nepbpe::tsv::{parse_line, parse_lines, unescape_tsv};
use nepbpe::word_counts::WordCounts;
use std::collections::HashSet;

fn strings(list: &[&str]) -> Vec<String> {
    list.iter().map(|s| s.to_string()).collect()
}

// --- the byte alphabet ---

#[test]
fn byte_alphabet_values() {
    let table = bytes_to_unicode();
    assert_eq!(table[0x00], '\u{100}');
    assert_eq!(table[0x20], '\u{120}');
    assert_eq!(table[0x21], '!');
    assert_eq!(table[0x41], 'A');
    assert_eq!(table[0x7E], '~');
    assert_eq!(table[0x7F], '\u{121}');
    assert_eq!(table[0x80], '\u{122}');
    assert_eq!(table[0xA0], '\u{142}');
    assert_eq!(table[0xA1], '\u{A1}');
    assert_eq!(table[0xAC], '\u{AC}');
    assert_eq!(table[0xAD], '\u{143}');
    assert_eq!(table[0xAE], '\u{AE}');
    assert_eq!(table[0xFF], '\u{FF}');
}

#[test]
fn byte_alphabet_is_injective() {
    let table = bytes_to_unicode();
    let set: HashSet<char> = table.iter().copied().collect();
    assert_eq!(set.len(), 256);
    let decoder = invert_alphabet(&table);
    assert_eq!(decoder.len(), 256);
    for b in 0..256usize {
        assert_eq!(decoder.get(&(table[b] as u32)).copied(), Some(b as u8));
    }
}

// --- scripts and tokens ---

#[test]
fn every_character_has_a_script() {
    assert_eq!(classify_char('\u{200C}'), Script::FMT);
    assert_eq!(classify_char('\u{200D}'), Script::MAL);
    assert_eq!(classify_char('!'), Script::PUN);
    assert_eq!(classify_char('~'), Script::PUN);
    assert_eq!(classify_char('।'), Script::PUN);
    assert_eq!(classify_char('॥'), Script::PUN);
    assert_eq!(classify_char('a'), Script::LAT);
    assert_eq!(classify_char('Z'), Script::LAT);
    assert_eq!(classify_char('5'), Script::MAL);
    assert_eq!(classify_char('क'), Script::DEV);
    assert_eq!(classify_char('\u{0900}'), Script::DEV);
    assert_eq!(classify_char('\u{097F}'), Script::DEV);
    assert_eq!(classify_char('\u{0980}'), Script::MAL);
    assert_eq!(classify_char(' '), Script::MAL);
    assert_eq!(classify_char('é'), Script::MAL);
    assert!(ascii_alnum('7') && ascii_alnum('q') && ascii_alnum('Q'));
    assert!(!ascii_alnum('_') && !ascii_alnum('७'));
}

#[test]
fn script_ranks() {
    assert_eq!(Script::DEV.rank(), 2);
    assert_eq!(Script::PUN.rank(), 1);
    assert_eq!(Script::LAT.rank(), 0);
    assert_eq!(Script::FMT.rank(), 0);
    assert_eq!(Script::MAL.rank(), 0);
}

#[test]
fn token_scripts() {
    let akshara = Akshara { surface: "क".to_string(), root_set: vec![] };
    assert_eq!(Token::Akshara(akshara).script(), Script::DEV);
    assert_eq!(Token::Punctuation("!".to_string()).script(), Script::PUN);
    assert_eq!(Token::ZWNJ.script(), Script::FMT);
    assert_eq!(Token::ByteFallback(7).script(), Script::MAL);
    assert_eq!(Token::SeededMorpheme("को".to_string()).script(), Script::DEV);
    assert_eq!(Token::MergedToken(vec![1, 2]).script(), Script::DEV);
    assert_eq!(Token::Latin("a".to_string()).script(), Script::LAT);
    assert_eq!(Token::Loaded("x".to_string()).script(), Script::DEV);
}

// --- text ---

#[test]
fn strings_and_characters() {
    assert_eq!(chars_of("aकb"), vec!['a', 'क', 'b']);
    assert_eq!(string_of(&['a', 'क', 'b'], 1, 3), "कb");
    assert_eq!(string_of(&['a'], 1, 1), "");
    assert_eq!(char_string('क'), "क");
    let set = string_set(&strings(&["x", "y", "x"]));
    assert_eq!(set.len(), 2);
    assert!(set.contains("x") && set.contains("y") && !set.contains("z"));
}

#[test]
fn words_are_split_at_white_space() {
    assert_eq!(split_words("  एक\tदुई\u{3000}तीन\n"), strings(&["एक", "दुई", "तीन"]));
    assert_eq!(split_words("one"), strings(&["one"]));
    assert!(split_words(" \t\n\u{00A0}").is_empty());
    assert!(split_words("").is_empty());
    // The non-joiner is no white space.
    assert_eq!(split_words("a\u{200C}b c"), strings(&["a\u{200C}b", "c"]));
}

#[test]
fn white_space_is_what_unicode_lists() {
    let listed = |n: u32| {
        matches!(
            n,
            0x09..=0x0D | 0x20 | 0x85 | 0xA0 | 0x1680 | 0x2000..=0x200A | 0x2028..=0x2029 | 0x202F
                | 0x205F | 0x3000
        )
    };
    let mut found = 0;
    for c in (0..=0x10FFFF).filter_map(char::from_u32) {
        let words = split_words(&c.to_string());
        assert_eq!(words.is_empty(), listed(c as u32));
        assert_eq!(c.is_whitespace(), listed(c as u32));
        if words.is_empty() {
            found += 1;
        }
    }
    assert_eq!(found, 25);
}

#[test]
fn words_together_are_the_text_without_white_space() {
    let text = " क ख\u{2003}ग\u{85}घ  ";
    let words = split_words(text);
    let joined: String = words.concat();
    let kept: String = text.chars().filter(|c| !c.is_whitespace()).collect();
    assert_eq!(joined, kept);
    assert!(words.iter().all(|w| !w.is_empty() && !w.contains(char::is_whitespace)));
}

// --- sorting ---

#[test]
fn sorting_is_stable() {
    let items = vec![(2, 'a'), (1, 'b'), (2, 'c'), (0, 'd'), (1, 'e')];
    assert_eq!(sort_numbered(items), vec![(0, 'd'), (1, 'b'), (1, 'e'), (2, 'a'), (2, 'c')]);
    let empty: Vec<(usize, char)> = vec![];
    assert!(sort_numbered(empty).is_empty());
}

#[test]
fn many_items_are_sorted() {
    let mut x: usize = 7;
    let mut items = vec![];
    for i in 0..20_000usize {
        x = (x * 48271) % 2147483647;
        items.push((x % 1000, i));
    }
    let mut expected = items.clone();
    expected.sort_by_key(|p| p.0);
    assert_eq!(sort_numbered(items), expected);
}

// --- the akshara automaton ---

fn akshara_dfa() -> AksharaDFA {
    // क and ख, perhaps with a vowel sign; क् ख as a conjunct.
    let mut dfa = AksharaDFA::new();
    dfa.add_transition(0, 'क', 1, true);
    dfa.add_transition(0, 'ख', 2, true);
    dfa.add_transition(1, 'ि', 3, true);
    dfa.add_transition(1, '्', 4, false);
    dfa.add_transition(4, 'ख', 2, true);
    dfa
}

fn surfaces(aksharas: Vec<Akshara>) -> Vec<String> {
    aksharas.into_iter().map(|a| a.surface).collect()
}

#[test]
fn dfa_takes_the_longest_akshara() {
    let dfa = akshara_dfa();
    assert_eq!(surfaces(dfa.tokenize("कि")), strings(&["कि"]));
    assert_eq!(surfaces(dfa.tokenize("क्खक")), strings(&["क्ख", "क"]));
    // The virama leads to no accepting state: the longest akshara ends before it.
    assert_eq!(surfaces(dfa.tokenize("क्कि")), strings(&["क", "्", "कि"]));
    assert_eq!(surfaces(dfa.tokenize("xक")), strings(&["x", "क"]));
    assert!(dfa.tokenize("").is_empty());
    assert!(dfa.tokenize("कख").iter().all(|a| a.root_set.is_empty()));
}

#[test]
fn dfa_pieces_are_the_text() {
    let dfa = akshara_dfa();
    for text in ["क्खकिx्", "कककक", "zzz", "क्"] {
        let pieces = surfaces(dfa.tokenize(text));
        assert_eq!(pieces.concat(), text);
        assert!(pieces.iter().all(|p| !p.is_empty()));
    }
}

#[test]
fn empty_dfa_gives_single_characters() {
    let dfa = AksharaDFA::new();
    assert_eq!(surfaces(dfa.tokenize("कि")), strings(&["क", "ि"]));
}

#[test]
fn dfa_transitions() {
    let mut dfa = akshara_dfa();
    assert_eq!(dfa.has_transition(0, 'क'), Some(1));
    assert_eq!(dfa.has_transition(0, 'ग'), None);
    assert_eq!(dfa.has_transition(7, 'क'), None);
    let mut from1 = dfa.get_transitions_from(1);
    from1.sort();
    let mut expected = vec![('ि', 3, true), ('्', 4, false)];
    expected.sort();
    assert_eq!(from1, expected);
    assert!(dfa.get_transitions_from(9).is_empty());
    dfa.add_transition(0, 'क', 5, false);
    assert_eq!(dfa.has_transition(0, 'क'), Some(5));
    dfa.add_transition(usize::MAX, '\u{10FFFF}', usize::MAX, true);
    assert_eq!(dfa.get_transitions_from(usize::MAX), vec![('\u{10FFFF}', usize::MAX, true)]);
}

// --- paradigms ---

#[test]
fn paradigm_transitions() {
    let mut p = Paradigm::new(3);
    assert_eq!(p.root_id, 3);
    assert!(!p.has_prefix("खा"));
    p.set_transitions("खा".to_string(), strings(&["र", "न"]));
    assert!(p.has_prefix("खा"));
    assert!(p.allows("खा", "र") && p.allows("खा", "न"));
    assert!(!p.allows("खा", "को") && !p.allows("गा", "र"));
    p.set_transitions("खा".to_string(), strings(&["ने"]));
    assert!(p.allows("खा", "ने") && !p.allows("खा", "र"));
}

#[test]
fn the_latest_paradigm_of_a_root_counts() {
    let mut first = Paradigm::new(1);
    first.set_transitions("a".to_string(), strings(&["b"]));
    let mut second = Paradigm::new(1);
    second.set_transitions("a".to_string(), strings(&["c"]));
    let mut other = Paradigm::new(2);
    other.set_transitions("x".to_string(), strings(&["y"]));
    let mut registry = ParadigmRegistry::new();
    assert!(registry.get_root_set("a").is_empty());
    registry.add_paradigm(first);
    registry.add_paradigm(other);
    registry.add_paradigm(second);
    assert_eq!(registry.get_root_set("a"), vec![1, 1]);
    assert_eq!(registry.get_root_set("x"), vec![2]);
    assert!(registry.check_allowed(1, "a", "c"));
    assert!(!registry.check_allowed(1, "a", "b"));
    assert!(registry.check_allowed(2, "x", "y"));
    assert!(!registry.check_allowed(9, "a", "c"));
}

// --- pairs ---

#[test]
fn pair_table_counts() {
    let mut t = PairTable::new();
    t.inc_pair(1, 2, 5);
    t.inc_pair(1, 2, 3);
    t.inc_pair(usize::MAX, 0, 1);
    assert_eq!(t.get(1, 2), 8);
    assert_eq!(t.get(2, 1), 0);
    t.dec_pair(1, 2, 3);
    assert_eq!(t.get(1, 2), 5);
    t.dec_pair(1, 2, 9);
    assert_eq!(t.get(1, 2), 0);
    t.dec_pair(4, 4, 1);
    assert_eq!(t.keys(), vec![(usize::MAX, 0)]);
    t.remove(usize::MAX, 0);
    assert!(t.keys().is_empty());
}

#[test]
fn pair_set_keeps_each_pair_once() {
    let mut s = PairSet::new();
    s.insert(1, 2);
    s.insert(2, 1);
    s.insert(1, 2);
    assert_eq!(s.into_vec(), vec![(1, 2), (2, 1)]);
}

// --- the queue ---

#[test]
fn candidates_come_best_first() {
    let mut heap = CandidateHeap::new();
    let all = [(0, 9, 1, 1), (2, 3, 5, 1), (2, 3, 5, 2), (2, 3, 4, 9), (1, 50, 0, 0), (2, 4, 0, 0)];
    for (rank, freq, a, b) in all {
        heap.push(MergeCandidate { rank, freq, a, b });
    }
    assert_eq!(heap.len(), 6);
    let mut order = vec![];
    while let Some(c) = heap.pop() {
        order.push((c.rank, c.freq, c.a, c.b));
    }
    assert_eq!(
        order,
        vec![(2, 4, 0, 0), (2, 3, 5, 2), (2, 3, 5, 1), (2, 3, 4, 9), (1, 50, 0, 0), (0, 9, 1, 1)]
    );
    assert!(heap.pop().is_none());
}

#[test]
fn candidate_order_is_total() {
    let x = MergeCandidate { rank: 1, freq: 2, a: 3, b: 4 };
    let y = MergeCandidate { rank: 1, freq: 2, a: 3, b: 5 };
    assert!(x.is_below(&y) && !y.is_below(&x) && !x.is_below(&x));
}

#[test]
fn heap_sorts_many() {
    let mut heap = CandidateHeap::new();
    let mut state: u64 = 12345;
    let mut expected = vec![];
    for i in 0..500usize {
        state = state.wrapping_mul(6364136223846793005).wrapping_add(1442695040888963407);
        let freq = (state >> 40) % 50;
        heap.push(MergeCandidate { rank: (state % 3) as u8, freq, a: i, b: 0 });
        expected.push(((state % 3) as u8, freq, i));
    }
    expected.sort();
    expected.reverse();
    let mut got = vec![];
    while let Some(c) = heap.pop() {
        got.push((c.rank, c.freq, c.a));
    }
    assert_eq!(got, expected);
}

// --- the corpus ---

#[test]
fn corpus_counts_pairs() {
    let corpus = Corpus::from_sequences(vec![vec![1, 2, 1, 2], vec![2, 1], vec![3], vec![]], 10);
    assert_eq!(corpus.get_freq(1, 2), 2);
    assert_eq!(corpus.get_freq(2, 1), 2);
    assert_eq!(corpus.get_freq(3, 3), 0);
    let mut pairs = corpus.pairs();
    pairs.sort();
    assert_eq!(pairs, vec![(1, 2), (2, 1)]);
}

#[test]
fn merging_updates_the_neighbours() {
    let mut corpus = Corpus::from_sequences(vec![vec![5, 1, 2, 6], vec![1, 2], vec![5, 6]], 10);
    let mut touched = corpus.apply_merge(1, 2, 9);
    touched.sort();
    assert_eq!(touched, vec![(2, 6), (5, 1), (5, 9), (9, 6)]);
    assert_eq!(corpus.get_freq(1, 2), 0);
    assert_eq!(corpus.get_freq(5, 1), 0);
    assert_eq!(corpus.get_freq(2, 6), 0);
    assert_eq!(corpus.get_freq(5, 9), 1);
    assert_eq!(corpus.get_freq(9, 6), 1);
    assert_eq!(corpus.get_freq(5, 6), 1);
}

#[test]
fn merging_equal_tokens_goes_from_left_to_right() {
    let mut corpus = Corpus::from_sequences(vec![vec![1, 1, 1]], 10);
    assert_eq!(corpus.get_freq(1, 1), 2);
    corpus.apply_merge(1, 1, 9);
    assert_eq!(corpus.get_freq(9, 1), 1);
    assert_eq!(corpus.get_freq(1, 1), 0);
    assert_eq!(corpus.get_freq(1, 9), 0);
    assert_eq!(corpus.pairs(), vec![(9, 1)]);
}

#[test]
fn incremental_counts_equal_a_recount() {
    let words = vec![vec![1, 2, 3, 1, 2], vec![2, 1, 2, 1, 2, 3], vec![3, 1, 2, 2], vec![1, 2, 1, 2]];
    let mut corpus = Corpus::from_sequences(words.clone(), 10);
    corpus.apply_merge(1, 2, 7);
    let mut rewritten = vec![];
    for w in words {
        let mut out: Vec<usize> = vec![];
        let mut i = 0;
        while i < w.len() {
            if i + 1 < w.len() && w[i] == 1 && w[i + 1] == 2 {
                out.push(7);
                i += 2;
            } else {
                out.push(w[i]);
                i += 1;
            }
        }
        rewritten.push(out);
    }
    let fresh = Corpus::from_sequences(rewritten, 10);
    for a in 0..8 {
        for b in 0..8 {
            assert_eq!(corpus.get_freq(a, b), fresh.get_freq(a, b));
        }
    }
}

#[test]
fn no_dead_entries_are_left() {
    let mut corpus = Corpus::from_sequences(vec![vec![1, 2, 3], vec![1, 2, 4], vec![5, 1, 2]], 10);
    corpus.apply_merge(1, 2, 9);
    for (a, b) in corpus.pairs() {
        assert!(corpus.get_freq(a, b) > 0);
    }
    let mut pairs = corpus.pairs();
    pairs.sort();
    assert_eq!(pairs, vec![(5, 9), (9, 3), (9, 4)]);
}

#[test]
fn sequences_that_fit() {
    assert!(sequences_fit(&vec![vec![1, 2, 3], vec![], vec![4]]));
}

// --- counted words ---

#[test]
fn words_are_counted_once_each() {
    let mut counts = WordCounts::new();
    counts.add_words(vec![vec![1, 2], vec![2, 1], vec![1, 2], vec![1, 2, 3], vec![1, 2]]);
    counts.add_word(vec![2, 1]);
    assert_eq!(counts.len(), 3);
    assert_eq!(counts.occurrences(), 6);
    assert!(counts.fits());
    let words: Vec<(Vec<usize>, u64)> =
        counts.into_words().into_iter().map(|w| (w.tokens, w.count)).collect();
    assert_eq!(words, vec![(vec![1, 2], 3), (vec![2, 1], 2), (vec![1, 2, 3], 1)]);
}

#[test]
fn rare_words_are_dropped() {
    let mut counts = WordCounts::new();
    counts.add_words(vec![vec![1], vec![2], vec![1], vec![3], vec![3], vec![3]]);
    let kept = counts.retain_min(2);
    assert_eq!(kept.len(), 2);
    assert_eq!(kept.occurrences(), 6);
    let mut again = kept.retain_min(3);
    assert_eq!(again.len(), 1);
    again.add_word(vec![1]);
    again.add_word(vec![3]);
    let words: Vec<(Vec<usize>, u64)> =
        again.into_words().into_iter().map(|w| (w.tokens, w.count)).collect();
    assert_eq!(words, vec![(vec![3], 4), (vec![1], 1)]);
}

#[test]
fn deduplication_keeps_frequencies() {
    let words = vec![vec![1, 2, 1], vec![1, 2], vec![1, 2, 1], vec![2, 2], vec![1, 2, 1]];
    let raw = Corpus::from_sequences(words.clone(), 10);
    let mut counts = WordCounts::new();
    counts.add_words(words);
    let deduplicated = Corpus::from_word_counts(counts, 10);
    for a in 1..3 {
        for b in 1..3 {
            assert_eq!(raw.get_freq(a, b), deduplicated.get_freq(a, b));
        }
    }
    assert_eq!(raw.get_freq(1, 2), 4);
    assert_eq!(deduplicated.get_freq(1, 2), 4);
    assert_eq!(deduplicated.get_freq(2, 1), 3);
}

#[test]
fn words_can_be_counted_in_goes_and_in_any_order() {
    let words = vec![vec![1, 2], vec![3], vec![1, 2], vec![4, 5], vec![3]];
    let mut once = WordCounts::new();
    once.add_words(words.clone());
    let mut goes = WordCounts::new();
    goes.add_words(words[..2].to_vec());
    goes.add_words(words[2..].to_vec());
    let mut reversed = WordCounts::new();
    reversed.add_words(words.into_iter().rev().collect());
    let list = |c: WordCounts| -> Vec<(Vec<usize>, u64)> {
        c.into_words().into_iter().map(|w| (w.tokens, w.count)).collect()
    };
    let once = list(once);
    assert_eq!(list(goes), once);
    let mut a = once;
    let mut b = list(reversed);
    a.sort();
    b.sort();
    assert_eq!(a, b);
}

#[test]
fn many_words_are_told_apart() {
    let mut counts = WordCounts::new();
    for _ in 0..3 {
        for i in 0..400usize {
            counts.add_word(vec![i % 20, i / 20]);
        }
    }
    assert_eq!(counts.len(), 400);
    assert!(counts.into_words().iter().all(|w| w.count == 3));
}

// --- saved vocabularies ---

fn escape(s: &str) -> String {
    s.replace('\\', "\\\\").replace('\t', "\\t").replace('\n', "\\n")
}

#[test]
fn escapes_are_reversed() {
    assert_eq!(unescape_tsv("a\\tb"), "a\tb");
    assert_eq!(unescape_tsv("a\\nb"), "a\nb");
    assert_eq!(unescape_tsv("a\\\\tb"), "a\\tb");
    assert_eq!(unescape_tsv("a\\xb"), "a\\xb");
    assert_eq!(unescape_tsv("a\\"), "a\\");
    assert_eq!(unescape_tsv("\\\\\\t"), "\\\t");
    assert_eq!(unescape_tsv(""), "");
    assert_eq!(unescape_tsv("क\tख"), "क\tख");
}

#[test]
fn unescaping_inverts_escaping() {
    for s in ["", "\\", "\\t", "\t", "\n\n", "a\\\\b", "क\\n\tख", "\\\\n\\"] {
        assert_eq!(unescape_tsv(&escape(s)), s);
        assert!(!escape(s).contains('\t') && !escape(s).contains('\n'));
    }
}

#[test]
fn lines_are_parsed() {
    assert_eq!(parse_line("12\tक"), Some((12, "क".to_string())));
    assert_eq!(parse_line("+7\tx"), Some((7, "x".to_string())));
    assert_eq!(parse_line("007\tx"), Some((7, "x".to_string())));
    assert_eq!(parse_line("5"), Some((5, "".to_string())));
    assert_eq!(parse_line("5\t"), Some((5, "".to_string())));
    assert_eq!(parse_line("1\ta\\tb\tc"), Some((1, "a\tb\tc".to_string())));
    assert_eq!(parse_line(""), None);
    assert_eq!(parse_line("\tx"), None);
    assert_eq!(parse_line("+\tx"), None);
    assert_eq!(parse_line("-1\tx"), None);
    assert_eq!(parse_line(" 1\tx"), None);
    assert_eq!(parse_line("1x\ty"), None);
    assert_eq!(parse_line("१\tx"), None);
    assert_eq!(parse_line(&format!("{}\tx", usize::MAX)), Some((usize::MAX, "x".to_string())));
    assert_eq!(parse_line("18446744073709551616\tx"), None);
    assert_eq!(parse_line("99999999999999999999999999\tx"), None);
}

#[test]
fn saved_lines_are_read_back() {
    let pairs = vec![
        (0, "क".to_string()),
        (1, "a\tb".to_string()),
        (20, "\\n".to_string()),
        (300, "".to_string()),
    ];
    let mut lines: Vec<String> =
        pairs.iter().map(|(id, s)| format!("{}\t{}", id, escape(s))).collect();
    assert_eq!(parse_lines(&lines), pairs);
    lines.insert(1, "".to_string());
    lines.insert(3, "no id\tx".to_string());
    assert_eq!(parse_lines(&lines), pairs);
}
