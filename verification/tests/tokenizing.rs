use nepbpe::paradigm::ParadigmRegistry;
use nepbpe::tokenizer::{NepBPETokenizer, Part};

fn strings(list: &[&str]) -> Vec<String> {
    list.iter().map(|s| s.to_string()).collect()
}

fn rules(list: &[(&str, &str)]) -> Vec<(String, String)> {
    list.iter().map(|(p, r)| (p.to_string(), r.to_string())).collect()
}

/// क 0, ख 1, का 2, को 3, । 4, a-z 5.., A-Z 31.., 0-9 57.., bytes from 67 on, ZWNJ 261.
fn tokenizer() -> NepBPETokenizer {
    let mut t = NepBPETokenizer::new(rules(&[("सङ्ग", "संग")]), ParadigmRegistry::new());
    let n = t.initialize_vocab(
        strings(&["क", "ख", "का"]),
        strings(&["को"]),
        strings(&["।"]),
        strings(&["को"]),
        vec![],
    );
    assert_eq!(n, 262);
    t
}

#[test]
fn a_new_tokenizer_is_empty() {
    let t = NepBPETokenizer::new(vec![], ParadigmRegistry::new());
    assert!(t.vocab.is_empty());
    assert!(t.encode("क a !\u{200C}").is_empty());
    assert_eq!(t.decode(&[1, 2, 3]), "");
    assert!(t.verify_roundtrip(""));
    assert!(!t.verify_roundtrip("क"));
}

#[test]
fn runs_are_encoded_by_script() {
    let t = tokenizer();
    assert_eq!(t.encode("क"), vec![0]);
    // Longest match.
    assert_eq!(t.encode("काकख"), vec![2, 0, 1]);
    assert_eq!(t.encode("कोका"), vec![3, 2]);
    // Latin, and a digit, which is spelled as a byte under its Latin token.
    assert_eq!(t.encode("ab7"), vec![5, 6, 64]);
    // Space is byte 0x20.
    assert_eq!(t.encode("क ख"), vec![0, 99, 1]);
    // Punctuation, by its own token or by its byte.
    assert_eq!(t.encode("।!"), vec![4, 100]);
    assert_eq!(t.encode("\u{200C}"), vec![261]);
    assert_eq!(t.encode(""), Vec::<usize>::new());
}

#[test]
fn tokens_of_a_text_are_in_the_vocabulary() {
    let t = tokenizer();
    for text in ["कखगघ", "abc 123 !?", "\u{200C}\u{200C}", "😀é", ""] {
        assert!(t.encode(text).iter().all(|id| *id < t.vocab.len()));
    }
    let words = t.encode_words(&strings(&["कख", "", "a"]));
    assert_eq!(words, vec![vec![0, 1], vec![5]]);
    assert_eq!(t.encode_all(&strings(&["क\u{200D}", "\u{200D}"])), vec![vec![0]]);
}

#[test]
fn unknown_characters_are_spelled_in_bytes() {
    let t = tokenizer();
    // ग is E0 A4 97.
    let byte_id = |b: u8| t.vocab.get_id_by_surface(&t.byte_encoder[b as usize].to_string()).unwrap();
    assert_eq!(t.encode("गक"), vec![byte_id(0xE0), byte_id(0xA4), byte_id(0x97), 0]);
    assert_eq!(t.encode("é"), vec![byte_id(0xC3), byte_id(0xA9)]);
    assert_eq!(t.encode("\u{0965}"), vec![byte_id(0xE0), byte_id(0xA5), byte_id(0xA5)]);
}

#[test]
fn encoding_normalizes_first() {
    let t = tokenizer();
    assert_eq!(t.encode("e\u{301}"), t.encode("\u{E9}"));
    assert_eq!(t.encode("क\u{200D}ख"), vec![0, 1]);
    assert_eq!(t.encode("सङ्ग"), t.encode_normalized("संग"));
    assert_ne!(t.encode_normalized("e\u{301}"), t.encode("e\u{301}"));
}

#[test]
fn decoding_goes_by_kind() {
    let t = tokenizer();
    assert_eq!(t.decode(&[0, 99, 1, 261, 4]), "क ख\u{200C}।");
    // Bytes are collected over adjacent tokens.
    let ids = t.encode("😀");
    assert_eq!(ids.len(), 4);
    assert_eq!(t.decode(&ids), "😀");
    assert_eq!(t.decode(&[]), "");
}

#[test]
fn decoding_is_lossy_on_broken_bytes() {
    let t = tokenizer();
    let ids = t.encode("ग");
    assert_eq!(t.decode(&ids[..2]), "\u{FFFD}");
    assert_eq!(t.decode(&[ids[0], 0]), "\u{FFFD}क");
    assert_eq!(t.decode(&[ids[1]]), "\u{FFFD}");
    // An unknown token stands for nothing, but parts the bytes around it.
    assert_eq!(t.decode(&[0, 100000, 1]), "कख");
    assert_eq!(t.decode(&[ids[0], 100000, ids[1], ids[2]]), "\u{FFFD}\u{FFFD}\u{FFFD}");
}

#[test]
fn parts_are_bytes_and_text() {
    let t = tokenizer();
    let ids = t.encode("ग");
    let parts = t.decode_parts(&[ids[0], ids[1], 0, 99999, ids[2], 99]);
    assert_eq!(parts.len(), 4);
    assert!(matches!(&parts[0], Part::Bytes(b) if *b == vec![0xE0, 0xA4]));
    assert!(matches!(&parts[1], Part::Text(s) if s == "क"));
    assert!(matches!(&parts[2], Part::Text(s) if s.is_empty()));
    assert!(matches!(&parts[3], Part::Bytes(b) if *b == vec![0x97, 0x20]));
    assert!(t.decode_parts(&[]).is_empty());
}

#[test]
fn the_byte_alphabet_has_no_say_in_decoding() {
    // The same kinds under other surfaces: what the tokens stand for is the same.
    let t = tokenizer();
    let ids = t.encode("ग é");
    let mut other = NepBPETokenizer::new(vec![], ParadigmRegistry::new());
    let mut swapped = other.byte_encoder;
    swapped.swap(0x90, 0xA5);
    swapped.swap(0x97, 0x01);
    let aksharas = ["क", "ख", "का"]
        .iter()
        .map(|s| nepbpe::token::Akshara { surface: s.to_string(), root_set: vec![] })
        .collect();
    other.vocab.initialize(
        aksharas,
        strings(&["को"]),
        strings(&["।"]),
        vec![],
        vec![],
        &swapped,
    );
    assert_ne!(other.vocab.get_surface(ids[2]), t.vocab.get_surface(ids[2]));
    assert_eq!(other.decode(&ids), t.decode(&ids));
}

fn assert_round_trip(t: &NepBPETokenizer, text: &str) {
    let normal = t.normalizer.normalize(text);
    assert_eq!(t.decode(&t.encode(text)), normal);
    assert!(t.verify_roundtrip(text));
}

#[test]
fn round_trip_200_consonants() {
    assert_round_trip(&tokenizer(), &"क".repeat(200));
}

#[test]
fn round_trip_long_sentence_50_times() {
    let sentence = "नेपालको संविधानले सबै नागरिकलाई समान अधिकार दिएको छ। ";
    assert_round_trip(&tokenizer(), &sentence.repeat(50));
}

#[test]
fn round_trip_zwnj() {
    let t = tokenizer();
    assert_eq!(t.decode(&t.encode("क\u{200C}ख")), "क\u{200C}ख");
    assert_round_trip(&t, "\u{200C}");
    assert_round_trip(&t, "श्री\u{200C}मान्");
    // A run of non-joiners keeps all of them.
    assert_eq!(t.encode("क\u{200C}\u{200C}\u{200C}"), vec![0, 261, 261, 261]);
    assert_eq!(t.decode(&t.encode("\u{200C}\u{200C}")), "\u{200C}\u{200C}");
}

#[test]
fn round_trip_zwj_is_stripped() {
    let t = tokenizer();
    assert_eq!(t.decode(&t.encode("र\u{200D}क")), "रक");
    assert_round_trip(&t, "र\u{200D}\u{200D}क\u{200D}");
}

#[test]
fn round_trip_mixed() {
    assert_round_trip(&tokenizer(), "नेपाल Nepal 2081 - १२३, \"hello\" (कखग)! a1b2।॥");
}

#[test]
fn round_trip_emoji() {
    let t = tokenizer();
    assert_round_trip(&t, "😀 🚀 👨\u{200D}👩\u{200D}👧");
    assert_round_trip(&t, "\u{10FFFF}\u{1F1F3}\u{1F1F5}");
}

#[test]
fn round_trip_empty_white_space_and_control() {
    let t = tokenizer();
    assert_round_trip(&t, "");
    assert_round_trip(&t, "   \t\n\r  ");
    assert_round_trip(&t, "\u{0}\u{1}\u{7}\u{1B}\u{7F}\u{80}\u{AD}\u{FFFD}");
}

#[test]
fn round_trip_brahmi() {
    assert_round_trip(&tokenizer(), "𑀲");
}

#[test]
fn round_trip_byte_surfaces_as_text() {
    // Characters that are themselves surfaces of bytes.
    assert_round_trip(&tokenizer(), "Ā Ġ Ń ¡ ÿ é Ģ");
}

#[test]
fn round_trip_every_ascii_character() {
    let all: String = (0u8..128).map(|b| b as char).collect();
    assert_round_trip(&tokenizer(), &all);
    for b in 0u8..128 {
        assert_round_trip(&tokenizer(), &(b as char).to_string());
    }
}

#[test]
fn round_trip_whatever_is_listed() {
    // Surfaces of bytes are listed: of space, of 0xAB, of 0xF7 and of 0xC2.
    let mut t = NepBPETokenizer::new(vec![], ParadigmRegistry::new());
    t.initialize_vocab(
        strings(&["\u{120}", "क"]),
        strings(&["\u{F7}"]),
        strings(&["\u{AB}", "\u{C2}"]),
        vec![],
        vec![],
    );
    let texts = ["a b", "\u{AB}", "\u{F7}", "\u{120} \u{C2}\u{AB}क\u{BB}", "é ÷ 2", "\u{0}\u{7F}\u{AD}"];
    for text in texts {
        assert_round_trip(&t, text);
        assert!(t.verify_roundtrip(text));
    }
    t.train_from_text(&strings(&["कक \u{AB}कक\u{AB}"]), 300, 1);
    let mut loaded = NepBPETokenizer::new(vec![], ParadigmRegistry::new());
    loaded.load_vocab(t.vocab.get_all_surfaces());
    for text in texts {
        assert!(t.verify_roundtrip(text));
        assert!(loaded.verify_roundtrip(text));
        assert_eq!(loaded.encode(text), t.encode(text));
    }
}

#[test]
fn round_trip_every_character_of_two_bytes() {
    let mut t = NepBPETokenizer::new(vec![], ParadigmRegistry::new());
    let listed: Vec<String> = t.byte_encoder.iter().map(|c| c.to_string()).collect();
    t.initialize_vocab(vec![], vec![], listed, vec![], vec![]);
    let all: String = (0x80u32..0x800).filter_map(char::from_u32).collect();
    assert_round_trip(&t, &all);
}

#[test]
fn a_loaded_vocabulary_encodes_alike() {
    let mut t = tokenizer();
    t.train_from_text(&strings(&["कखकख कख", "abab ab"]), 270, 1);
    let mut loaded = NepBPETokenizer::new(rules(&[("सङ्ग", "संग")]), ParadigmRegistry::new());
    let mut pairs = t.vocab.get_all_surfaces();
    pairs.reverse();
    loaded.load_vocab(pairs);
    assert_eq!(loaded.vocab.len(), t.vocab.len());
    for text in ["कखकख", "ab!", "नेपाल 7 😀\u{200C}\u{200C}।", "सङ्ग"] {
        assert_eq!(loaded.encode(text), t.encode(text));
        assert_eq!(loaded.decode(&loaded.encode(text)), t.normalizer.normalize(text));
        assert!(loaded.verify_roundtrip(text));
    }
}

#[test]
fn a_vocabulary_is_loaded_from_lines() {
    let t = tokenizer();
    let escape = |s: &str| s.replace('\\', "\\\\").replace('\t', "\\t").replace('\n', "\\n");
    let mut lines: Vec<String> = t
        .vocab
        .get_all_surfaces()
        .iter()
        .map(|(id, s)| format!("{}\t{}", id, escape(s)))
        .collect();
    lines.push("not an id\tx".to_string());
    lines.push("".to_string());
    let mut loaded = NepBPETokenizer::new(vec![], ParadigmRegistry::new());
    assert_eq!(loaded.load_vocab_lines(&lines), 262);
    assert_eq!(loaded.vocab.get_all_surfaces(), t.vocab.get_all_surfaces());
    assert!(loaded.verify_roundtrip("क \\ \t\n é"));
}
