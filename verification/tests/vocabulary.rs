use nepbpe::alphabet::{bytes_to_unicode, invert_alphabet};
use nepbpe::paradigm::{Paradigm, ParadigmRegistry};
use nepbpe::script::Script;
use nepbpe::token::{Akshara, Token};
use nepbpe::vocabulary::Vocabulary;

fn strings(list: &[&str]) -> Vec<String> {
    list.iter().map(|s| s.to_string()).collect()
}

fn akshara(s: &str, roots: &[usize]) -> Akshara {
    Akshara { surface: s.to_string(), root_set: roots.to_vec() }
}

fn seeded() -> Vocabulary {
    let mut v = Vocabulary::new();
    v.initialize(
        vec![akshara("क", &[4, 5]), akshara("ख", &[]), akshara("क", &[9])],
        strings(&["को", "खा", "क"]),
        strings(&["।", "!"]),
        strings(&["को", "क"]),
        strings(&["खा"]),
        &bytes_to_unicode(),
    );
    v
}

#[test]
fn initial_ids_and_tags() {
    let v = seeded();
    // 2 aksharas, 2 morphemes, 2 marks, 62 Latin, 256 bytes of which 62 + 1 are taken, 1.
    assert_eq!(v.len(), 2 + 2 + 2 + 62 + (256 - 63) + 1);
    assert_eq!(v.get_id_by_surface("क"), Some(0));
    assert_eq!(v.get_id_by_surface("ख"), Some(1));
    assert_eq!(v.get_id_by_surface("को"), Some(2));
    assert_eq!(v.get_id_by_surface("खा"), Some(3));
    assert_eq!(v.get_id_by_surface("।"), Some(4));
    assert_eq!(v.get_id_by_surface("!"), Some(5));
    assert_eq!(v.get_id_by_surface("a"), Some(6));
    assert_eq!(v.get_id_by_surface("z"), Some(31));
    assert_eq!(v.get_id_by_surface("A"), Some(32));
    assert_eq!(v.get_id_by_surface("Z"), Some(57));
    assert_eq!(v.get_id_by_surface("0"), Some(58));
    assert_eq!(v.get_id_by_surface("9"), Some(67));
    assert_eq!(v.get_id_by_surface("\u{100}"), Some(68));
    assert_eq!(v.get_id_by_surface("\u{120}"), Some(100));
    assert_eq!(v.get_id_by_surface("\""), Some(101));
    assert_eq!(v.get_id_by_surface("\u{200C}"), Some(v.len() - 1));
    assert_eq!(v.get_id_by_surface("none"), None);
    assert_eq!(v.max_surface_len(), 2);
    // The first token under a surface has it: the morpheme क was not added.
    assert!(!v.is_strict(0));
    assert!(v.is_strict(2) && !v.is_ambiguous(2));
    assert!(v.is_ambiguous(3) && !v.is_strict(3));
    assert_eq!(v.get_root_set(0), &[4, 5]);
    assert!(v.get_root_set(1).is_empty());
    assert!(v.get_root_set(100000).is_empty());
}

#[test]
fn kinds_and_scripts() {
    let v = seeded();
    assert!(matches!(&**v.get_token(0).unwrap(), Token::Akshara(a) if a.surface == "क"));
    assert!(matches!(&**v.get_token(2).unwrap(), Token::SeededMorpheme(s) if s == "को"));
    assert!(matches!(&**v.get_token(5).unwrap(), Token::Punctuation(s) if s == "!"));
    assert!(matches!(&**v.get_token(6).unwrap(), Token::Latin(s) if s == "a"));
    assert!(matches!(&**v.get_token(68).unwrap(), Token::ByteFallback(0)));
    assert!(matches!(&**v.get_token(v.len() - 1).unwrap(), Token::ZWNJ));
    assert!(v.get_token(v.len()).is_none());
    assert_eq!(v.get_script(0), Script::DEV);
    assert_eq!(v.get_script(4), Script::PUN);
    assert_eq!(v.get_script(6), Script::LAT);
    assert_eq!(v.get_script(68), Script::MAL);
    assert_eq!(v.get_script(v.len() - 1), Script::FMT);
    assert_eq!(v.get_script(v.len()), Script::MAL);
    assert_eq!(v.get_surface(3), Some("खा".to_string()));
    assert_eq!(v.get_surface(v.len()), None);
    assert!(!v.is_strict(v.len()) && !v.is_ambiguous(v.len()));
}

#[test]
fn an_empty_vocabulary() {
    let v = Vocabulary::default();
    assert!(v.is_empty());
    assert_eq!(v.len(), 0);
    assert_eq!(v.max_surface_len(), 0);
    assert!(!v.contains_surface("a"));
    assert!(v.get_all_surfaces().is_empty());
}

#[test]
fn a_merged_token_has_the_script_of_its_left_part() {
    let mut v = seeded();
    let n = v.len();
    assert_eq!(v.create_merged(6, 7, vec![8]), n);
    assert_eq!(v.get_surface(n), Some("ab".to_string()));
    assert_eq!(v.get_script(n), Script::LAT);
    assert_eq!(v.get_root_set(n), &[8]);
    assert!(matches!(&**v.get_token(n).unwrap(), Token::MergedToken(p) if *p == vec![6, 7]));
    assert_eq!(v.create_merged(5, 5, vec![]), n + 1);
    assert_eq!(v.get_script(n + 1), Script::PUN);
    assert_eq!(v.create_merged(n, n, vec![]), n + 2);
    assert_eq!(v.get_surface(n + 2), Some("abab".to_string()));
    assert_eq!(v.max_surface_len(), 4);
    assert!(v.contains_surface("abab"));
    assert_eq!(v.len(), n + 3);
}

#[test]
fn a_merge_never_overwrites() {
    let mut v = seeded();
    let n = v.len();
    let ab = v.create_merged(6, 7, vec![1]);
    let abc = v.create_merged(ab, 8, vec![2]);
    let bc = v.create_merged(7, 8, vec![3]);
    // Another way to the same surface.
    assert_eq!(v.create_merged(6, bc, vec![9]), abc);
    assert_eq!(v.get_root_set(abc), &[2]);
    assert!(matches!(&**v.get_token(abc).unwrap(), Token::MergedToken(p) if *p == vec![ab, 8]));
    assert_eq!(v.len(), n + 3);
}

#[test]
fn merging_unknown_tokens() {
    let mut v = seeded();
    let n = v.len();
    assert_eq!(v.create_merged(n + 5, 6, vec![]), 6);
    assert_eq!(v.create_merged(n + 5, n + 6, vec![]), n);
    assert_eq!(v.get_surface(n), Some("".to_string()));
    assert_eq!(v.get_script(n), Script::DEV);
}

#[test]
fn roots_are_assigned_by_prefix() {
    let mut registry = ParadigmRegistry::new();
    let mut p = Paradigm::new(7);
    p.set_transitions("खा".to_string(), strings(&["र"]));
    p.set_transitions("a".to_string(), strings(&["b"]));
    registry.add_paradigm(p);
    let mut v = seeded();
    v.assign_roots_from_registry(&registry);
    assert_eq!(v.get_root_set(3), &[7]);
    // A token without a matching prefix keeps what it has; a Latin token takes no roots.
    assert_eq!(v.get_root_set(0), &[4, 5]);
    assert!(v.get_root_set(6).is_empty());
    v.assign_roots_from_registry(&registry);
    assert_eq!(v.get_root_set(3), &[7]);
}

#[test]
fn tagging_without_paradigms_does_nothing() {
    let mut v = seeded();
    v.assign_roots_from_registry(&ParadigmRegistry::new());
    assert_eq!(v.get_root_set(0), &[4, 5]);
    assert!(v.get_root_set(1).is_empty() && v.get_root_set(3).is_empty());
}

#[test]
fn letters_and_digits_are_latin_and_no_bytes() {
    let v = seeded();
    for c in ('a'..='z').chain('A'..='Z').chain('0'..='9') {
        let id = v.get_id_by_surface(&c.to_string()).unwrap();
        assert_eq!(v.get_script(id), Script::LAT);
        assert!(matches!(&**v.get_token(id).unwrap(), Token::Latin(_)));
    }
}

#[test]
fn surfaces_come_in_the_order_of_ids() {
    let v = seeded();
    let all = v.get_all_surfaces();
    assert_eq!(all.len(), v.len());
    for (i, (id, surface)) in all.iter().enumerate() {
        assert_eq!(i, *id);
        assert_eq!(v.get_id_by_surface(surface), Some(*id));
    }
}

#[test]
fn surfaces_are_distinct() {
    let mut v = seeded();
    v.create_merged(0, 1, vec![]);
    v.create_merged(0, 1, vec![]);
    let mut surfaces: Vec<String> = v.get_all_surfaces().into_iter().map(|p| p.1).collect();
    let n = surfaces.len();
    surfaces.sort();
    surfaces.dedup();
    assert_eq!(surfaces.len(), n);
}

#[test]
fn loading_classifies_surfaces() {
    let decoder = invert_alphabet(&bytes_to_unicode());
    let mut v = seeded();
    v.load_from_pairs(
        vec![
            (3, "ab".to_string()),
            (0, "क".to_string()),
            (1, "a".to_string()),
            (2, "\u{120}".to_string()),
            (4, "!".to_string()),
            (5, "".to_string()),
            (6, "a!".to_string()),
            (7, "7".to_string()),
        ],
        &decoder,
    );
    assert_eq!(v.len(), 8);
    assert!(matches!(&**v.get_token(0).unwrap(), Token::Loaded(s) if s == "क"));
    assert!(matches!(&**v.get_token(1).unwrap(), Token::Latin(s) if s == "a"));
    assert!(matches!(&**v.get_token(2).unwrap(), Token::ByteFallback(0x20)));
    assert!(matches!(&**v.get_token(3).unwrap(), Token::Latin(s) if s == "ab"));
    assert!(matches!(&**v.get_token(4).unwrap(), Token::ByteFallback(0x21)));
    assert!(matches!(&**v.get_token(5).unwrap(), Token::Loaded(s) if s.is_empty()));
    assert!(matches!(&**v.get_token(6).unwrap(), Token::Loaded(s) if s == "a!"));
    assert!(matches!(&**v.get_token(7).unwrap(), Token::Latin(s) if s == "7"));
    assert_eq!(v.get_script(0), Script::DEV);
    assert_eq!(v.get_script(3), Script::LAT);
    assert_eq!(v.get_script(4), Script::MAL);
    assert_eq!(v.get_script(5), Script::DEV);
    assert_eq!(v.max_surface_len(), 2);
    assert_eq!(v.get_id_by_surface("को"), None);
    assert!(!v.is_strict(2) && !v.is_ambiguous(3) && v.get_root_set(0).is_empty());
}

#[test]
fn a_byte_that_is_no_graphic_ascii_has_a_token_of_its_own() {
    let mut v = Vocabulary::new();
    v.initialize(
        vec![akshara("\u{120}", &[])],
        strings(&["\u{F7}", "x"]),
        strings(&["\u{AB}", "!"]),
        vec![],
        vec![],
        &bytes_to_unicode(),
    );
    // The marks keep their surfaces; the bytes are found by themselves.
    assert_eq!(v.get_id_by_surface("\u{120}"), Some(0));
    assert_eq!(v.get_id_by_surface("\u{F7}"), Some(1));
    assert_eq!(v.get_id_by_surface("\u{AB}"), Some(3));
    for b in 0u8..=255 {
        let own = v.get_id_by_byte(b);
        if (0x21..=0x7E).contains(&b) && (b.is_ascii_alphanumeric() || b == b'!') {
            assert_eq!(own, None);
        } else {
            assert!(matches!(&**v.get_token(own.unwrap()).unwrap(), Token::ByteFallback(x) if *x == b));
        }
    }
    assert!(matches!(&**v.get_token(0).unwrap(), Token::Akshara(_)));
    // 5 listed, 61 more letters and digits, 193 bytes, 1.
    assert_eq!(v.len(), 5 + 61 + (256 - 63) + 1);
    // A second initialization adds nothing.
    let n = v.len();
    v.initialize(vec![], vec![], strings(&["\u{AB}"]), vec![], vec![], &bytes_to_unicode());
    assert_eq!(v.len(), n);
}

#[test]
fn loading_finds_a_shared_surface_under_its_byte() {
    let encoder = bytes_to_unicode();
    let mut v = Vocabulary::new();
    v.initialize(vec![], vec![], strings(&["\u{AB}"]), vec![], vec![], &encoder);
    let byte = v.get_id_by_byte(0xAB).unwrap();
    assert_eq!(v.get_id_by_surface("\u{AB}"), Some(0));
    let mut w = Vocabulary::new();
    w.load_from_pairs(v.get_all_surfaces(), &invert_alphabet(&encoder));
    assert_eq!(w.get_id_by_byte(0xAB), Some(byte));
    assert_eq!(w.get_id_by_surface("\u{AB}"), Some(byte));
    assert_eq!(w.get_all_surfaces(), v.get_all_surfaces());
}

#[test]
fn of_equal_surfaces_the_last_loaded_is_found() {
    let decoder = invert_alphabet(&bytes_to_unicode());
    let mut v = Vocabulary::new();
    v.load_from_pairs(
        vec![(0, "x".to_string()), (1, "y".to_string()), (2, "x".to_string())],
        &decoder,
    );
    assert_eq!(v.len(), 3);
    assert_eq!(v.get_id_by_surface("x"), Some(2));
}

#[test]
fn loading_what_was_saved_restores_all_surfaces() {
    let decoder = invert_alphabet(&bytes_to_unicode());
    let mut v = seeded();
    v.create_merged(0, 1, vec![]);
    let saved = v.get_all_surfaces();
    let mut shuffled = saved.clone();
    shuffled.reverse();
    shuffled.swap(3, 40);
    let mut w = Vocabulary::new();
    w.load_from_pairs(shuffled, &decoder);
    assert_eq!(w.get_all_surfaces(), saved);
    assert_eq!(w.max_surface_len(), v.max_surface_len());
    for (_, s) in saved {
        assert_eq!(w.get_id_by_surface(&s), v.get_id_by_surface(&s));
    }
}
