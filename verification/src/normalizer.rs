//! Normalization: composition, folding of spellings, and removal of joiners.
use crate::script;
use crate::sorting;
use crate::text;
use vstd::prelude::*;
use vstd::string::*;

verus! {

/// A folding rule: where the pattern stands, the replacement is written.
pub struct FoldRule {
    pub pattern: Seq<char>,
    pub replacement: Seq<char>,
}

impl FoldRule {
    /// Whether the rule applies at a place of a text. An empty pattern never does.
    pub open spec fn applies(self, s: Seq<char>, i: int) -> bool {
        &&& self.pattern.len() > 0
        &&& 0 <= i
        &&& i + self.pattern.len() <= s.len()
        &&& s.subrange(i, i + self.pattern.len()) == self.pattern
    }
}

/// The key that brings longer patterns to the front.
pub open spec fn longer_first() -> spec_fn(FoldRule) -> int {
    |r: FoldRule| -(r.pattern.len() as int)
}

/// Rules in the order in which they are tried: longer patterns first, patterns of
/// the same length as given.
pub open spec fn ordered(rules: Seq<FoldRule>) -> Seq<FoldRule> {
    sorting::sort_by(rules, longer_first())
}

/// The first rule that applies at a place of a text.
pub open spec fn rule_at(rules: Seq<FoldRule>, s: Seq<char>, i: int) -> Option<FoldRule>
    decreases rules.len(),
{
    if rules.len() == 0 {
        None
    } else {
        match rule_at(rules.drop_last(), s, i) {
            Some(r) => Some(r),
            None => if rules.last().applies(s, i) {
                Some(rules.last())
            } else {
                None
            },
        }
    }
}

/// A rule that was found applies, and is one of the rules.
pub proof fn lemma_rule_at(rules: Seq<FoldRule>, s: Seq<char>, i: int)
    ensures
        match rule_at(rules, s, i) {
            Some(r) => r.applies(s, i) && rules.contains(r),
            None => forall|k: int| 0 <= k < rules.len() ==> !(#[trigger] rules[k]).applies(s, i),
        },
    decreases rules.len(),
{
    if rules.len() > 0 {
        let d = rules.drop_last();
        lemma_rule_at(d, s, i);
        match rule_at(d, s, i) {
            Some(r) => {
                let k = choose|k: int| 0 <= k < d.len() && d[k] == r;
                assert(rules[k] == r);
            },
            None => {
                assert(rules.contains(rules[rules.len() - 1]));
                assert forall|k: int| 0 <= k < rules.len() && !rules.last().applies(s, i) implies !(
                #[trigger] rules[k]).applies(s, i) by {
                    if k < d.len() {
                        assert(d[k] == rules[k]);
                    }
                }
            },
        }
    }
}

/// A text from a place on, folded from left to right: where a rule applies its
/// replacement is written, and the pattern is passed over.
pub open spec fn folded(rules: Seq<FoldRule>, s: Seq<char>, i: int) -> Seq<char>
    decreases s.len() - i,
{
    if i < 0 || i >= s.len() {
        Seq::empty()
    } else {
        proof {
            lemma_rule_at(rules, s, i);
        }
        match rule_at(rules, s, i) {
            Some(r) => r.replacement + folded(rules, s, i + r.pattern.len()),
            None => seq![s[i]] + folded(rules, s, i + 1),
        }
    }
}

/// A text without its joiners.
pub open spec fn without_zwj(s: Seq<char>) -> Seq<char> {
    s.filter(|c: char| c != script::ZWJ)
}

/// The normal form of a text: it is composed, then folded, then stripped of joiners.
pub open spec fn normalized(rules: Seq<FoldRule>, s: Seq<char>) -> Seq<char> {
    without_zwj(folded(rules, text::nfc(s), 0))
}

/// The normal forms of texts.
pub open spec fn normalized_all(rules: Seq<FoldRule>, list: Seq<Seq<char>>) -> Seq<Seq<char>> {
    list.map_values(|s: Seq<char>| normalized(rules, s))
}

/// The rules that pairs of a pattern and a replacement stand for.
pub open spec fn given_rules(rules: Seq<(String, String)>) -> Seq<FoldRule> {
    rules.map_values(|r: (String, String)| FoldRule { pattern: r.0@, replacement: r.1@ })
}

/// The normalizer: folding rules, in the order in which they are tried.
pub struct Normalizer {
    fold_rules: Vec<(Vec<char>, String)>,
}

impl View for Normalizer {
    type V = Seq<FoldRule>;

    closed spec fn view(&self) -> Seq<FoldRule> {
        self.fold_rules@.map_values(
            |r: (Vec<char>, String)| FoldRule { pattern: r.0@, replacement: r.1@ },
        )
    }
}

impl Normalizer {
    /// A normalizer with folding rules. Longer patterns are tried first.
    pub fn new(fold_rules: Vec<(String, String)>) -> (r: Self)
        ensures
            r@ == ordered(given_rules(fold_rules@)),
    {
        let mut keyed: Vec<(usize, (Vec<char>, String))> = Vec::new();
        for rule in it: fold_rules
            invariant
                it.seq() == fold_rules@,
                keyed@.len() == it.index(),
                forall|k: int|
                    0 <= k < keyed@.len() ==> {
                        &&& (#[trigger] keyed@[k]).1.0@ == fold_rules@[k].0@
                        &&& keyed@[k].1.1@ == fold_rules@[k].1@
                        &&& keyed@[k].0 == usize::MAX - fold_rules@[k].0@.len()
                        &&& fold_rules@[k].0@.len() <= usize::MAX
                    },
        {
            let (p, r) = rule;
            let pattern = text::chars_of(p.as_str());
            let key: usize = usize::MAX - pattern.len();
            keyed.push((key, (pattern, r)));
        }
        let ghost view_of = |x: (usize, (Vec<char>, String))|
            FoldRule { pattern: x.1.0@, replacement: x.1.1@ };
        let sorted = sorting::sort_numbered(keyed);
        proof {
            assert(keyed@.map_values(view_of) =~= given_rules(fold_rules@));
            sorting::lemma_sort_map(
                keyed@,
                sorting::number_of::<(Vec<char>, String)>(),
                view_of,
                longer_first(),
            );
        }
        let mut rules: Vec<(Vec<char>, String)> = Vec::new();
        for x in it: sorted
            invariant
                it.seq() == sorted@,
                rules@.len() == it.index(),
                forall|k: int| 0 <= k < rules@.len() ==> #[trigger] rules@[k] == sorted@[k].1,
        {
            rules.push(x.1);
        }
        let n = Normalizer { fold_rules: rules };
        assert(n@ =~= sorted@.map_values(view_of));
        n
    }

    /// The place in the list of the first rule that applies at a place of a text.
    fn find_rule(&self, chars: &Vec<char>, i: usize) -> (r: Option<usize>)
        requires
            i <= chars@.len(),
        ensures
            match r {
                Some(k) => k < self@.len() && rule_at(self@, chars@, i as int) == Some(
                    self@[k as int],
                ),
                None => rule_at(self@, chars@, i as int) is None,
            },
    {
        let mut k: usize = 0;
        while k < self.fold_rules.len()
            invariant
                k <= self.fold_rules@.len(),
                i <= chars@.len(),
                rule_at(self@.take(k as int), chars@, i as int) is None,
            decreases self.fold_rules@.len() - k,
        {
            let pattern = &self.fold_rules[k].0;
            let plen: usize = pattern.len();
            let ghost rule = self@[k as int];
            proof {
                assert(self@.take(k + 1).drop_last() =~= self@.take(k as int));
            }
            if plen > 0 && plen <= chars.len() - i {
                let mut j: usize = 0;
                while j < plen && chars[i + j] == pattern[j]
                    invariant
                        plen == pattern@.len(),
                        j <= plen,
                        i + plen <= chars@.len() <= usize::MAX,
                        forall|x: int| 0 <= x < j ==> #[trigger] pattern@[x] == chars@[i + x],
                    decreases plen - j,
                {
                    j += 1;
                }
                proof {
                    let sub = chars@.subrange(i as int, i + plen);
                    if j == plen {
                        assert(sub =~= pattern@);
                    } else {
                        assert(sub[j as int] == chars@[i + j]);
                        assert(sub != pattern@);
                    }
                }
                if j == plen {
                    proof {
                        lemma_rule_prefix(self@, chars@, i as int, k + 1);
                    }
                    return Some(k);
                }
            }
            assert(!rule.applies(chars@, i as int));
            k += 1;
        }
        assert(self@.take(self@.len() as int) =~= self@);
        None
    }

    /// Folds a composed text.
    pub fn fold(&self, composed: &str) -> (r: String)
        ensures
            r@ == folded(self@, composed@, 0),
    {
        let chars = text::chars_of(composed);
        let mut result = String::new();
        let mut i: usize = 0;
        while i < chars.len()
            invariant
                i <= chars@.len(),
                chars@ == composed@,
                result@ + folded(self@, chars@, i as int) == folded(self@, composed@, 0),
            decreases chars@.len() - i,
        {
            let ghost before = result@;
            let ghost at = i as int;
            match self.find_rule(&chars, i) {
                Some(k) => {
                    proof {
                        lemma_rule_at(self@, chars@, at);
                    }
                    result.append(self.fold_rules[k].1.as_str());
                    i += self.fold_rules[k].0.len();
                    assert(result@ + folded(self@, chars@, i as int) =~= before + folded(
                        self@,
                        chars@,
                        at,
                    ));
                },
                None => {
                    result.push(chars[i]);
                    i += 1;
                    assert(result@ + folded(self@, chars@, i as int) =~= before + folded(
                        self@,
                        chars@,
                        at,
                    ));
                },
            }
        }
        assert(result@ + folded(self@, chars@, i as int) =~= result@);
        result
    }

    /// Normalizes a text: composes it, folds it, and strips it of joiners. Non-joiners
    /// stay.
    pub fn normalize(&self, s: &str) -> (r: String)
        ensures
            r@ == normalized(self@, s@),
    {
        let composed = text::to_nfc(s);
        let folded = self.fold(composed.as_str());
        strip_zwj(folded.as_str())
    }
}

/// Strips a text of joiners.
pub fn strip_zwj(s: &str) -> (r: String)
    ensures
        r@ == without_zwj(s@),
{
    let chars = text::chars_of(s);
    let mut out = String::new();
    let mut i: usize = 0;
    proof {
        reveal(Seq::filter);
        assert(out@ =~= without_zwj(chars@.take(0)));
    }
    while i < chars.len()
        invariant
            i <= chars@.len(),
            out@ == without_zwj(chars@.take(i as int)),
        decreases chars@.len() - i,
    {
        let ch: char = chars[i];
        proof {
            reveal(Seq::filter);
            assert(chars@.take(i + 1).drop_last() =~= chars@.take(i as int));
            assert(chars@.take(i + 1).last() == ch);
        }
        if ch != script::ZWJ {
            out.push(ch);
        }
        i += 1;
    }
    assert(chars@.take(chars@.len() as int) =~= chars@);
    out
}

/// A rule that is found among the first rules is found among all.
proof fn lemma_rule_prefix(rules: Seq<FoldRule>, s: Seq<char>, i: int, k: int)
    requires
        0 <= k <= rules.len(),
        rule_at(rules.take(k), s, i) is Some,
    ensures
        rule_at(rules, s, i) == rule_at(rules.take(k), s, i),
    decreases rules.len(),
{
    if k < rules.len() {
        assert(rules.drop_last().take(k) =~= rules.take(k));
        lemma_rule_prefix(rules.drop_last(), s, i, k);
    } else {
        assert(rules.take(k) =~= rules);
    }
}

// ---------------------------------------------------------------------------
// Laws
// ---------------------------------------------------------------------------

/// How the rule that is found changes when one more rule is put in.
proof fn lemma_rule_insert(rules: Seq<FoldRule>, x: FoldRule, s: Seq<char>, i: int)
    requires
        sorting::is_sorted_by(rules, longer_first()),
    ensures
        rule_at(sorting::insert_by(rules, x, longer_first()), s, i) == (match rule_at(rules, s, i) {
            Some(r) => if x.applies(s, i) && x.pattern.len() > r.pattern.len() {
                Some(x)
            } else {
                Some(r)
            },
            None => if x.applies(s, i) {
                Some(x)
            } else {
                None
            },
        }),
    decreases rules.len(),
{
    let key = longer_first();
    let t = sorting::insert_by(rules, x, key);
    lemma_rule_at(rules, s, i);
    if rules.len() == 0 || key(rules.last()) <= key(x) {
        assert(t.drop_last() =~= rules);
        if let Some(r) = rule_at(rules, s, i) {
            let k = choose|k: int| 0 <= k < rules.len() && rules[k] == r;
            assert(key(rules[k]) <= key(rules[rules.len() - 1]));
        }
    } else {
        let d = rules.drop_last();
        assert forall|a: int, b: int| 0 <= a <= b < d.len() implies key(#[trigger] d[a]) <= key(
            #[trigger] d[b],
        ) by {
            assert(d[a] == rules[a] && d[b] == rules[b]);
        }
        lemma_rule_insert(d, x, s, i);
        assert(t.drop_last() =~= sorting::insert_by(d, x, key));
    }
}

/// Of the rules that apply at a place, the one with the longest pattern is taken,
/// and of those that have the same pattern the one that was given first. Where
/// none is taken, none applies.
pub proof fn law_longest_rule_wins(rules: Seq<FoldRule>, s: Seq<char>, i: int)
    ensures
        match rule_at(ordered(rules), s, i) {
            Some(r) => exists|k: int|
                #![trigger rules[k]]
                0 <= k < rules.len() && rules[k] == r && r.applies(s, i) && (forall|j: int|
                    0 <= j < rules.len() && (#[trigger] rules[j]).applies(s, i)
                        ==> rules[j].pattern.len() < r.pattern.len() || (rules[j].pattern
                        == r.pattern && k <= j)),
            None => forall|k: int| 0 <= k < rules.len() ==> !(#[trigger] rules[k]).applies(s, i),
        },
    decreases rules.len(),
{
    if rules.len() > 0 {
        let d = rules.drop_last();
        let x = rules.last();
        law_longest_rule_wins(d, s, i);
        sorting::law_sort(d, longer_first());
        lemma_rule_insert(ordered(d), x, s, i);
        let last = rules.len() - 1;
        match rule_at(ordered(d), s, i) {
            Some(r) => {
                let k = choose|k: int|
                    #![trigger d[k]]
                    0 <= k < d.len() && d[k] == r && r.applies(s, i) && (forall|j: int|
                        0 <= j < d.len() && (#[trigger] d[j]).applies(s, i)
                            ==> d[j].pattern.len() < r.pattern.len() || (d[j].pattern == r.pattern
                            && k <= j));
                assert forall|j: int| 0 <= j < d.len() && (#[trigger] rules[j]).applies(s, i) implies
                rules[j].pattern.len() < r.pattern.len() || (rules[j].pattern == r.pattern && k
                    <= j) by {
                    assert(d[j] == rules[j]);
                }
                assert(rules[k] == r);
                assert(rules[last] == x);
            },
            None => {
                assert forall|j: int| 0 <= j < d.len() implies !(#[trigger] rules[j]).applies(s, i) by {
                    assert(d[j] == rules[j]);
                }
                assert(rules[last] == x);
            },
        }
    }
}

/// The zero width non-joiners of a text.
pub open spec fn zwnj_only(s: Seq<char>) -> Seq<char> {
    s.filter(|c: char| c == script::ZWNJ)
}

/// Without rules, normalizing composes and strips the joiners, and does nothing else.
pub proof fn law_normalize_without_rules(s: Seq<char>)
    ensures
        normalized(Seq::empty(), s) == without_zwj(text::nfc(s)),
{
    law_nothing_to_fold(Seq::empty(), text::nfc(s));
}

/// Joiners are stripped: whatever the rules, the normal form of a text has none.
pub proof fn law_zwj_stripped(rules: Seq<FoldRule>, s: Seq<char>)
    ensures
        !normalized(rules, s).contains(script::ZWJ),
{
    lemma_without_zwj(folded(rules, text::nfc(s), 0));
}

proof fn lemma_without_zwj(s: Seq<char>)
    ensures
        !without_zwj(s).contains(script::ZWJ),
        zwnj_only(without_zwj(s)) == zwnj_only(s),
        !s.contains(script::ZWJ) ==> without_zwj(s) == s,
    decreases s.len(),
{
    reveal(Seq::filter);
    if s.len() > 0 {
        let d = s.drop_last();
        let c = s.last();
        lemma_without_zwj(d);
        let e = without_zwj(d);
        let r = without_zwj(s);
        assert(s[s.len() - 1] == c);
        if c != script::ZWJ {
            assert(r == e.push(c));
            assert(r.drop_last() =~= e);
            if r.contains(script::ZWJ) {
                let j = choose|j: int| 0 <= j < r.len() && r[j] == script::ZWJ;
                assert(e[j] == script::ZWJ);
            }
        } else {
            assert(r == e);
        }
        if !s.contains(script::ZWJ) {
            if d.contains(script::ZWJ) {
                let j = choose|j: int| 0 <= j < d.len() && d[j] == script::ZWJ;
                assert(s[j] == script::ZWJ);
            }
            assert(d.push(c) =~= s);
        }
    }
}

/// Non-joiners are preserved: unless a rule speaks of them, the normal form of a
/// text has all that the composed text has.
pub proof fn law_zwnj_preserved(rules: Seq<FoldRule>, s: Seq<char>)
    requires
        forall|k: int|
            0 <= k < rules.len() ==> !(#[trigger] rules[k]).pattern.contains(script::ZWNJ)
                && !rules[k].replacement.contains(script::ZWNJ),
    ensures
        zwnj_only(normalized(rules, s)) == zwnj_only(text::nfc(s)),
{
    let t = text::nfc(s);
    lemma_zwnj_preserved(rules, t, 0);
    lemma_without_zwj(folded(rules, t, 0));
    assert(t.skip(0) =~= t);
}

proof fn lemma_no_zwnj(s: Seq<char>)
    requires
        !s.contains(script::ZWNJ),
    ensures
        zwnj_only(s) == Seq::<char>::empty(),
    decreases s.len(),
{
    reveal(Seq::filter);
    if s.len() > 0 {
        let d = s.drop_last();
        assert(s[s.len() - 1] != script::ZWNJ);
        if d.contains(script::ZWNJ) {
            let j = choose|j: int| 0 <= j < d.len() && d[j] == script::ZWNJ;
            assert(s[j] == script::ZWNJ);
        }
        lemma_no_zwnj(d);
    }
}

proof fn lemma_zwnj_preserved(rules: Seq<FoldRule>, s: Seq<char>, i: int)
    requires
        0 <= i <= s.len(),
        forall|k: int|
            0 <= k < rules.len() ==> !(#[trigger] rules[k]).pattern.contains(script::ZWNJ)
                && !rules[k].replacement.contains(script::ZWNJ),
    ensures
        zwnj_only(folded(rules, s, i)) == zwnj_only(s.skip(i)),
    decreases s.len() - i,
{
    let f = |c: char| c == script::ZWNJ;
    if i < s.len() {
        lemma_rule_at(rules, s, i);
        match rule_at(rules, s, i) {
            Some(r) => {
                let n = r.pattern.len() as int;
                let k = choose|k: int| 0 <= k < rules.len() && rules[k] == r;
                assert(!rules[k].pattern.contains(script::ZWNJ));
                lemma_zwnj_preserved(rules, s, i + n);
                lemma_no_zwnj(r.replacement);
                lemma_no_zwnj(r.pattern);
                assert(s.skip(i) =~= r.pattern + s.skip(i + n)) by {
                    assert(s.skip(i) =~= s.subrange(i, i + n) + s.skip(i + n));
                }
                Seq::filter_distributes_over_add(r.pattern, s.skip(i + n), f);
                Seq::filter_distributes_over_add(r.replacement, folded(rules, s, i + n), f);
                assert(zwnj_only(folded(rules, s, i)) =~= zwnj_only(s.skip(i)));
            },
            None => {
                lemma_zwnj_preserved(rules, s, i + 1);
                let one = seq![s[i]];
                assert(s.skip(i) =~= one + s.skip(i + 1));
                Seq::filter_distributes_over_add(one, s.skip(i + 1), f);
                Seq::filter_distributes_over_add(one, folded(rules, s, i + 1), f);
                assert(zwnj_only(folded(rules, s, i)) =~= zwnj_only(s.skip(i)));
            },
        }
    } else {
        assert(s.skip(i) =~= folded(rules, s, i));
    }
}

/// Whether no rule applies anywhere in a text.
pub open spec fn nothing_applies(rules: Seq<FoldRule>, s: Seq<char>) -> bool {
    forall|k: int, i: int|
        0 <= k < rules.len() && 0 <= i < s.len() ==> !(#[trigger] rules[k].applies(s, i))
}

/// Normalizing is idempotent where its result is stable under composition and under the
/// rules: the normal form of a text is then its own normal form.
pub proof fn law_normalize_idempotent(rules: Seq<FoldRule>, s: Seq<char>)
    requires
        text::nfc(normalized(rules, s)) == normalized(rules, s),
        folded(rules, normalized(rules, s), 0) == normalized(rules, s),
    ensures
        normalized(rules, normalized(rules, s)) == normalized(rules, s),
{
    law_zwj_stripped(rules, s);
    lemma_without_zwj(normalized(rules, s));
}

/// A text in which no rule applies is stable under the rules.
pub proof fn law_nothing_to_fold(rules: Seq<FoldRule>, s: Seq<char>)
    requires
        nothing_applies(rules, s),
    ensures
        folded(rules, s, 0) == s,
{
    lemma_fixed(rules, s, 0);
    assert(s.skip(0) =~= s);
}

proof fn lemma_fixed(rules: Seq<FoldRule>, s: Seq<char>, i: int)
    requires
        0 <= i <= s.len(),
        nothing_applies(rules, s),
    ensures
        folded(rules, s, i) == s.skip(i),
    decreases s.len() - i,
{
    if i < s.len() {
        lemma_rule_at(rules, s, i);
        if let Some(r) = rule_at(rules, s, i) {
            let k = choose|k: int| 0 <= k < rules.len() && rules[k] == r;
            assert(!rules[k].applies(s, i));
        }
        lemma_fixed(rules, s, i + 1);
        assert(s.skip(i) =~= seq![s[i]] + s.skip(i + 1));
    } else {
        assert(s.skip(i) =~= folded(rules, s, i));
    }
}

/// Whether a text stands in another at a place.
pub open spec fn stands_at(p: Seq<char>, s: Seq<char>, i: int) -> bool {
    0 <= i && i + p.len() <= s.len() && s.subrange(i, i + p.len()) == p
}

/// Where a rule applies does not depend on what stands before the place.
proof fn lemma_rule_shift(rules: Seq<FoldRule>, p: Seq<char>, y: Seq<char>, i: int)
    requires
        0 <= i <= y.len(),
    ensures
        rule_at(rules, p + y, p.len() + i) == rule_at(rules, y, i),
    decreases rules.len(),
{
    if rules.len() > 0 {
        lemma_rule_shift(rules.drop_last(), p, y, i);
        let n = rules.last().pattern.len() as int;
        if i + n <= y.len() {
            assert((p + y).subrange(p.len() + i, p.len() + i + n) =~= y.subrange(i, i + n));
        }
    }
}

proof fn lemma_folded_shift(rules: Seq<FoldRule>, p: Seq<char>, y: Seq<char>, i: int)
    requires
        0 <= i <= y.len(),
    ensures
        folded(rules, p + y, p.len() + i) == folded(rules, y, i),
    decreases y.len() - i,
{
    let s = p + y;
    if i < y.len() {
        lemma_rule_shift(rules, p, y, i);
        lemma_rule_at(rules, y, i);
        match rule_at(rules, y, i) {
            Some(r) => {
                lemma_folded_shift(rules, p, y, i + r.pattern.len());
            },
            None => {
                assert(s[p.len() + i] == y[i]);
                lemma_folded_shift(rules, p, y, i + 1);
            },
        }
    }
}

proof fn lemma_folded_skips(rules: Seq<FoldRule>, s: Seq<char>, i: int, n: int)
    requires
        0 <= i <= n <= s.len(),
        forall|j: int| i <= j < n ==> rule_at(rules, s, j) is None,
    ensures
        folded(rules, s, i) == s.subrange(i, n) + folded(rules, s, n),
    decreases n - i,
{
    if i < n {
        lemma_folded_skips(rules, s, i + 1, n);
        assert(rule_at(rules, s, i) is None);
        assert(s.subrange(i, n) =~= seq![s[i]] + s.subrange(i + 1, n));
        assert(folded(rules, s, i) =~= s.subrange(i, n) + folded(rules, s, n));
    } else {
        assert(s.subrange(i, n) + folded(rules, s, n) =~= folded(rules, s, n));
    }
}

/// Folding rewrites the first place where a pattern stands, and goes on behind it: what is
/// before the place stays, the pattern gives way to the replacement, and the rest is folded
/// on its own. Of the patterns that stand at the place the longest is rewritten, by the rule
/// that was given first.
pub proof fn law_folding_rewrites(rules: Seq<FoldRule>, x: Seq<char>, k: int, y: Seq<char>)
    requires
        0 <= k < rules.len(),
        rules[k].pattern.len() > 0,
        forall|j: int, i: int|
            0 <= j < rules.len() && 0 <= i < x.len() && rules[j].pattern.len() > 0
                ==> !#[trigger] stands_at(rules[j].pattern, x + rules[k].pattern + y, i),
        forall|j: int|
            0 <= j < rules.len() && rules[j].pattern.len() > rules[k].pattern.len()
                ==> !#[trigger] stands_at(
                rules[j].pattern,
                x + rules[k].pattern + y,
                x.len() as int,
            ),
        forall|j: int| 0 <= j < k ==> (#[trigger] rules[j]).pattern != rules[k].pattern,
    ensures
        folded(ordered(rules), x + rules[k].pattern + y, 0) == x + rules[k].replacement + folded(
            ordered(rules),
            y,
            0,
        ),
{
    let p = rules[k].pattern;
    let s = x + p + y;
    let all = ordered(rules);
    let n = x.len() as int;
    assert forall|i: int| 0 <= i < n implies rule_at(all, s, i) is None by {
        law_longest_rule_wins(rules, s, i);
        if let Some(r) = rule_at(all, s, i) {
            let j = choose|j: int| #![trigger rules[j]] 0 <= j < rules.len() && rules[j] == r
                && r.applies(s, i);
            assert(stands_at(rules[j].pattern, s, i));
        }
    }
    lemma_folded_skips(all, s, 0, n);
    assert(s.subrange(0, n) =~= x);
    assert(s.subrange(n, n + p.len()) =~= p);
    law_longest_rule_wins(rules, s, n);
    assert(rules[k].applies(s, n));
    let r = rule_at(all, s, n)->0;
    let j = choose|j: int| #![trigger rules[j]]
        0 <= j < rules.len() && rules[j] == r && r.applies(s, n) && (forall|m: int|
            0 <= m < rules.len() && (#[trigger] rules[m]).applies(s, n) ==> rules[m].pattern.len()
                < r.pattern.len() || (rules[m].pattern == r.pattern && j <= m));
    assert(stands_at(rules[j].pattern, s, n));
    assert(j == k);
    lemma_folded_shift(all, x + p, y, 0);
    assert(folded(all, s, n) == rules[k].replacement + folded(all, y, 0));
    assert(folded(all, s, 0) =~= x + rules[k].replacement + folded(all, y, 0));
}

/// Folding changes nothing where no pattern stands.
pub proof fn law_folding_needs_a_pattern(rules: Seq<FoldRule>, s: Seq<char>)
    requires
        forall|j: int, i: int|
            0 <= j < rules.len() && 0 <= i < s.len() && rules[j].pattern.len() > 0
                ==> !#[trigger] stands_at(rules[j].pattern, s, i),
    ensures
        folded(ordered(rules), s, 0) == s,
{
    let all = ordered(rules);
    assert forall|i: int| 0 <= i < s.len() implies rule_at(all, s, i) is None by {
        law_longest_rule_wins(rules, s, i);
        if let Some(r) = rule_at(all, s, i) {
            let j = choose|j: int| #![trigger rules[j]] 0 <= j < rules.len() && rules[j] == r
                && r.applies(s, i);
            assert(stands_at(rules[j].pattern, s, i));
        }
    }
    lemma_folded_skips(all, s, 0, s.len() as int);
    assert(s.subrange(0, s.len() as int) + folded(all, s, s.len() as int) =~= s);
}

/// A text is composed first and folded then. Of what comes of it only the joiners are taken
/// out: every other character stays, in its order.
pub proof fn law_normalizing_in_steps(rules: Seq<FoldRule>, s: Seq<char>, x: Seq<char>, y: Seq<char>)
    requires
        folded(rules, text::nfc(s), 0) == x + y,
    ensures
        normalized(rules, s) == without_zwj(x) + without_zwj(y),
        (forall|i: int| 0 <= i < x.len() ==> #[trigger] x[i] == '\u{200D}') ==> without_zwj(x).len()
            == 0,
        (forall|i: int| 0 <= i < x.len() ==> #[trigger] x[i] != '\u{200D}') ==> without_zwj(x) == x,
{
    Seq::filter_distributes_over_add(x, y, |c: char| c != script::ZWJ);
    if forall|i: int| 0 <= i < x.len() ==> #[trigger] x[i] == '\u{200D}' {
        lemma_only_zwj(x);
    }
    if forall|i: int| 0 <= i < x.len() ==> #[trigger] x[i] != '\u{200D}' {
        assert(!x.contains(script::ZWJ));
        lemma_without_zwj(x);
    }
}

proof fn lemma_only_zwj(x: Seq<char>)
    requires
        forall|i: int| 0 <= i < x.len() ==> #[trigger] x[i] == script::ZWJ,
    ensures
        without_zwj(x).len() == 0,
    decreases x.len(),
{
    reveal(Seq::filter);
    if x.len() > 0 {
        let d = x.drop_last();
        assert forall|i: int| 0 <= i < d.len() implies #[trigger] d[i] == script::ZWJ by {
            assert(d[i] == x[i]);
        }
        lemma_only_zwj(d);
        assert(x[x.len() - 1] == script::ZWJ);
    }
}

/// Every pair that was given is a rule, with its pattern and its replacement, and every text
/// of a list is normalized.
pub proof fn law_given_rules(
    pairs: Seq<(String, String)>,
    rules: Seq<FoldRule>,
    list: Seq<Seq<char>>,
    k: int,
)
    ensures
        given_rules(pairs).len() == pairs.len(),
        0 <= k < pairs.len() ==> given_rules(pairs)[k].pattern == pairs[k].0@ && given_rules(
            pairs,
        )[k].replacement == pairs[k].1@,
        normalized_all(rules, list).len() == list.len(),
        0 <= k < list.len() ==> normalized_all(rules, list)[k] == normalized(rules, list[k]),
{
}

} // verus!
