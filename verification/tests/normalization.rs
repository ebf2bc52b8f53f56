use nepbpe::normalizer::{strip_zwj, Normalizer};

fn rules(list: &[(&str, &str)]) -> Vec<(String, String)> {
    list.iter().map(|(p, r)| (p.to_string(), r.to_string())).collect()
}

#[test]
fn text_is_composed() {
    let n = Normalizer::new(vec![]);
    assert_eq!(n.normalize("e\u{301}"), "\u{E9}");
    assert_eq!(n.normalize("\u{212B}"), "\u{C5}");
    // Composition exclusions stay decomposed.
    assert_eq!(n.normalize("\u{0958}"), "\u{0915}\u{093C}");
    assert_eq!(n.normalize("नेपाल"), "नेपाल");
    assert_eq!(n.normalize(""), "");
}

#[test]
fn sequences_are_folded() {
    let n = Normalizer::new(rules(&[("सङ्ग", "संग"), ("सँग", "संग")]));
    assert_eq!(n.normalize("सङ्ग"), "संग");
    assert_eq!(n.normalize("सँगै"), "संगै");
    assert_eq!(n.normalize("xसङ्गyसँगz"), "xसंगyसंगz");
    assert_eq!(n.normalize("संग"), "संग");
}

#[test]
fn the_longest_rule_wins() {
    let n = Normalizer::new(rules(&[("a", "1"), ("abc", "3"), ("ab", "2")]));
    assert_eq!(n.fold("abcabaxa"), "3" .to_string() + "2" + "1" + "x" + "1");
    let n = Normalizer::new(rules(&[("ङ", "न"), ("ङ्ग", "ंग")]));
    assert_eq!(n.fold("ङ्ग"), "ंग");
    assert_eq!(n.fold("ङ"), "न");
}

#[test]
fn of_equal_patterns_the_first_given_wins() {
    let n = Normalizer::new(rules(&[("ab", "first"), ("ab", "second"), ("xyz", "long")]));
    assert_eq!(n.fold("ab"), "first");
}

#[test]
fn an_empty_pattern_never_applies() {
    let n = Normalizer::new(rules(&[("", "!")]));
    assert_eq!(n.fold("ab"), "ab");
}

#[test]
fn replacements_are_not_folded_again() {
    let n = Normalizer::new(rules(&[("a", "aa")]));
    assert_eq!(n.fold("aba"), "aabaa");
}

#[test]
fn joiners_are_stripped_and_non_joiners_kept() {
    let n = Normalizer::new(vec![]);
    assert_eq!(n.normalize("क\u{200D}ख\u{200C}ग\u{200D}"), "कख\u{200C}ग");
    assert_eq!(n.normalize("\u{200C}\u{200C}"), "\u{200C}\u{200C}");
    // A rule can take a joiner before it is stripped; one that it brings in is stripped.
    let n = Normalizer::new(rules(&[("र\u{200D}", "R"), ("x", "-\u{200D}-")]));
    assert_eq!(n.fold("र\u{200D}य\u{200D}"), "Rय\u{200D}");
    assert_eq!(n.normalize("र\u{200D}य\u{200D}"), "Rय");
    assert_eq!(n.normalize("axb"), "a--b");
    assert_eq!(strip_zwj("\u{200D}a\u{200D}\u{200C}\u{200D}"), "a\u{200C}");
}

#[test]
fn without_rules_only_joiners_go() {
    let n = Normalizer::new(vec![]);
    let text = "a\u{200D}\u{200D}b c\u{200C}";
    let expected: String = text.chars().filter(|c| *c != '\u{200D}').collect();
    assert_eq!(n.normalize(text), expected);
}

#[test]
fn normalizing_twice_changes_nothing() {
    let n = Normalizer::new(rules(&[("सङ्ग", "संग"), ("सँग", "संग")]));
    for text in ["सङ्ग र सँग", "e\u{301}", "क\u{200C}ख", "abc", ""] {
        let once = n.normalize(text);
        assert_eq!(n.normalize(&once), once);
    }
}

#[test]
fn rules_that_apply_but_change_nothing_leave_normalizing_idempotent() {
    let n = Normalizer::new(rules(&[("a", "a"), ("bc", "bc")]));
    let once = n.normalize("abc\u{200D}a");
    assert_eq!(once, "abca");
    assert_eq!(n.normalize(&once), once);
}

#[test]
fn a_rule_that_leaves_a_pattern_behind_applies_again() {
    // The condition on idempotence matters: here the rule goes on.
    let n = Normalizer::new(rules(&[("ab", "b")]));
    assert_eq!(n.normalize("aab"), "ab");
    assert_eq!(n.normalize("ab"), "b");
}

#[test]
fn stripping_a_joiner_can_undo_composition() {
    // The condition on idempotence matters: here the result is not composed.
    let n = Normalizer::new(vec![]);
    let once = n.normalize("e\u{200D}\u{301}");
    assert_eq!(once, "e\u{301}");
    assert_eq!(n.normalize(&once), "\u{E9}");
}
