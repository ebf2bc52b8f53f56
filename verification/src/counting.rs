//! What a corpus is, as mathematics: words with how often they occur, the
//! weight of the adjacent pairs in them, and what merging a pair does to both.
use crate::pairs::{Frequency, Pair, TokenId};
use crate::pairs;
use vstd::prelude::*;

verus! {

/// One word type: its tokens, and how often it occurs.
pub struct WordModel {
    pub tokens: Seq<TokenId>,
    pub count: Frequency,
}

/// A corpus: its words, and the table of pair frequencies kept beside them.
pub struct CorpusModel {
    pub words: Seq<WordModel>,
    pub freqs: Map<Pair, Frequency>,
}

/// The predicate that singles out one pair.
pub open spec fn is_pair(p: Pair) -> spec_fn(Pair) -> bool {
    |q: Pair| q == p
}

/// The predicate that every pair meets.
pub open spec fn any_pair() -> spec_fn(Pair) -> bool {
    |q: Pair| true
}

/// What the adjacent pairs of a word that meet a predicate weigh together, each
/// occurrence weighing `c`.
pub open spec fn weight(t: Seq<TokenId>, c: nat, f: spec_fn(Pair) -> bool) -> nat
    decreases t.len(),
{
    if t.len() < 2 {
        0
    } else {
        weight(t.drop_last(), c, f) + (if f((t[t.len() - 2], t[t.len() - 1])) {
            c
        } else {
            0
        })
    }
}

/// The adjacent pairs of a word, from left to right.
pub open spec fn adjacent(t: Seq<TokenId>) -> Seq<Pair> {
    Seq::new((t.len() - (if t.len() > 0 { 1int } else { 0 })) as nat, |i: int| (t[i], t[i + 1]))
}

/// What the adjacent pairs of all words that meet a predicate weigh together,
/// each occurrence weighing as often as its word occurs.
pub open spec fn words_weight(words: Seq<WordModel>, f: spec_fn(Pair) -> bool) -> nat
    decreases words.len(),
{
    if words.len() == 0 {
        0
    } else {
        words_weight(words.drop_last(), f) + weight(
            words.last().tokens,
            words.last().count as nat,
            f,
        )
    }
}

/// How often a pair occurs in a corpus.
pub open spec fn pair_count(words: Seq<WordModel>, p: Pair) -> nat {
    words_weight(words, is_pair(p))
}

/// How many pair occurrences a corpus has.
pub open spec fn total_weight(words: Seq<WordModel>) -> nat {
    words_weight(words, any_pair())
}

/// Whether a pair stands at some place of a word.
pub open spec fn occurs(t: Seq<TokenId>, p: Pair) -> bool {
    exists|i: int| 0 <= i < t.len() - 1 && #[trigger] t[i] == p.0 && t[i + 1] == p.1
}

/// Whether a pair stands at some place of some word.
pub open spec fn occurs_in(words: Seq<WordModel>, p: Pair) -> bool {
    exists|k: int| 0 <= k < words.len() && occurs((#[trigger] words[k]).tokens, p)
}

/// The exact table of pair frequencies: an entry for every pair that occurs,
/// with how often it does.
pub open spec fn pair_table(words: Seq<WordModel>) -> Map<Pair, Frequency> {
    Map::new(|p: Pair| occurs_in(words, p), |p: Pair| pair_count(words, p) as u64)
}

/// How many tokens the words hold.
pub open spec fn token_count(words: Seq<WordModel>) -> nat
    decreases words.len(),
{
    if words.len() == 0 {
        0
    } else {
        token_count(words.drop_last()) + words.last().tokens.len()
    }
}

impl CorpusModel {
    /// What every corpus keeps: the table is finite, no frequency exceeds what the
    /// words hold, and all of them together fit the machine.
    pub open spec fn wf(self) -> bool {
        &&& self.freqs.dom().finite()
        &&& total_weight(self.words) <= u64::MAX
        &&& forall|p: Pair| #[trigger] pairs::freq_of(self.freqs, p) <= pair_count(self.words, p)
    }

    /// Whether the frequency of every pair is how often it occurs.
    pub open spec fn exact(self) -> bool {
        forall|p: Pair| #[trigger] pairs::freq_of(self.freqs, p) == pair_count(self.words, p)
    }
}

/// What merging has made of a word, of the table of frequencies, and which pairs
/// had their frequency changed on the way, in the order in which that happened.
pub struct MergeState {
    pub tokens: Seq<TokenId>,
    pub freqs: Map<Pair, Frequency>,
    pub touched: Seq<Pair>,
}

impl MergeState {
    pub open spec fn lose(self, p: Pair, by: Frequency) -> MergeState {
        MergeState {
            tokens: self.tokens,
            freqs: pairs::table_dec(self.freqs, p, by),
            touched: pairs::touch(self.touched, p),
        }
    }

    pub open spec fn gain(self, p: Pair, by: Frequency) -> MergeState {
        MergeState {
            tokens: self.tokens,
            freqs: pairs::table_inc(self.freqs, p, by),
            touched: pairs::touch(self.touched, p),
        }
    }
}

/// A word with its tokens at `i` and `i + 1` replaced by one token.
pub open spec fn replaced(t: Seq<TokenId>, i: int, n: TokenId) -> Seq<TokenId> {
    t.take(i).push(n) + t.skip(i + 2)
}

/// The neighbours of the two tokens at `i` lose the pairs that they form with
/// them.
pub open spec fn after_losses(st: MergeState, cnt: Frequency, i: int) -> MergeState {
    let t = st.tokens;
    let s1 = if i > 0 {
        st.lose((t[i - 1], t[i]), cnt)
    } else {
        st
    };
    if i + 2 < t.len() {
        s1.lose((t[i + 1], t[i + 2]), cnt)
    } else {
        s1
    }
}

/// The left neighbour then gains the pair that it forms with the merged token.
pub open spec fn after_left_gain(st: MergeState, n: TokenId, cnt: Frequency, i: int) -> MergeState {
    let s2 = after_losses(st, cnt, i);
    if i > 0 {
        s2.gain((st.tokens[i - 1], n), cnt)
    } else {
        s2
    }
}

/// Merges the two tokens at `i`: the neighbours lose the pairs that they formed
/// with them and gain those that they form with the merged token.
pub open spec fn merge_at(st: MergeState, n: TokenId, cnt: Frequency, i: int) -> MergeState {
    let s3 = after_left_gain(st, n, cnt, i);
    let s4 = if i + 2 < st.tokens.len() {
        s3.gain((n, st.tokens[i + 2]), cnt)
    } else {
        s3
    };
    MergeState { tokens: replaced(st.tokens, i, n), freqs: s4.freqs, touched: s4.touched }
}

/// Whether the pair `ab` stands at `i`.
pub open spec fn pair_at(t: Seq<TokenId>, ab: Pair, i: int) -> bool {
    &&& 0 <= i
    &&& i + 1 < t.len()
    &&& t[i] == ab.0
    &&& t[i + 1] == ab.1
}

/// Merges the pair `ab` into `n` from `i` on, from left to right. After a merge
/// the same place is looked at again.
pub open spec fn merge_from(st: MergeState, ab: Pair, n: TokenId, cnt: Frequency, i: int) -> MergeState
    decreases st.tokens.len() - i,
{
    if i < 0 || i + 1 >= st.tokens.len() {
        st
    } else if pair_at(st.tokens, ab, i) {
        merge_from(merge_at(st, n, cnt, i), ab, n, cnt, i)
    } else {
        merge_from(st, ab, n, cnt, i + 1)
    }
}

/// The words, the table and the touched pairs after a pair was merged in a
/// sequence of words, one word after the other.
pub open spec fn merge_words(
    words: Seq<WordModel>,
    freqs: Map<Pair, Frequency>,
    ab: Pair,
    n: TokenId,
) -> (Seq<WordModel>, Map<Pair, Frequency>, Seq<Pair>)
    decreases words.len(),
{
    if words.len() == 0 {
        (Seq::empty(), freqs, Seq::empty())
    } else {
        let (ws, fs, ts) = merge_words(words.drop_last(), freqs, ab, n);
        let w = words.last();
        let st = merge_from(
            MergeState { tokens: w.tokens, freqs: fs, touched: ts },
            ab,
            n,
            w.count,
            0,
        );
        (ws.push(WordModel { tokens: st.tokens, count: w.count }), st.freqs, st.touched)
    }
}

/// A corpus after the pair `ab` was merged into `n` all over it.
pub open spec fn merged_corpus(c: CorpusModel, ab: Pair, n: TokenId) -> CorpusModel {
    let (ws, fs, ts) = merge_words(c.words, c.freqs, ab, n);
    CorpusModel { words: ws, freqs: fs.remove(ab) }
}

/// The pairs whose frequency was changed while `ab` was merged into `n`.
pub open spec fn touched_pairs(c: CorpusModel, ab: Pair, n: TokenId) -> Seq<Pair> {
    merge_words(c.words, c.freqs, ab, n).2
}

// ---------------------------------------------------------------------------
// Weights
// ---------------------------------------------------------------------------

pub proof fn lemma_weight_concat(x: Seq<TokenId>, y: Seq<TokenId>, c: nat, f: spec_fn(Pair) -> bool)
    ensures
        weight(x + y, c, f) == weight(x, c, f) + weight(y, c, f) + (if x.len() > 0 && y.len() > 0
            && f((x.last(), y[0])) {
            c
        } else {
            0
        }),
    decreases y.len(),
{
    if y.len() == 0 {
        assert(x + y =~= x);
    } else {
        lemma_weight_concat(x, y.drop_last(), c, f);
        assert((x + y).drop_last() =~= x + y.drop_last());
        if y.len() == 1 {
            assert(x + y.drop_last() =~= x);
        }
    }
}

pub proof fn lemma_weight_mono(t: Seq<TokenId>, c: nat, f: spec_fn(Pair) -> bool, g: spec_fn(Pair) -> bool)
    requires
        forall|q: Pair| #[trigger] f(q) ==> g(q),
    ensures
        weight(t, c, f) <= weight(t, c, g),
    decreases t.len(),
{
    if t.len() >= 2 {
        lemma_weight_mono(t.drop_last(), c, f, g);
    }
}

pub proof fn lemma_words_weight_mono(words: Seq<WordModel>, f: spec_fn(Pair) -> bool, g: spec_fn(Pair) -> bool)
    requires
        forall|q: Pair| #[trigger] f(q) ==> g(q),
    ensures
        words_weight(words, f) <= words_weight(words, g),
    decreases words.len(),
{
    if words.len() > 0 {
        lemma_words_weight_mono(words.drop_last(), f, g);
        lemma_weight_mono(words.last().tokens, words.last().count as nat, f, g);
    }
}

pub proof fn lemma_words_weight_concat(x: Seq<WordModel>, y: Seq<WordModel>, f: spec_fn(Pair) -> bool)
    ensures
        words_weight(x + y, f) == words_weight(x, f) + words_weight(y, f),
    decreases y.len(),
{
    if y.len() == 0 {
        assert(x + y =~= x);
    } else {
        lemma_words_weight_concat(x, y.drop_last(), f);
        assert((x + y).drop_last() =~= x + y.drop_last());
    }
}

/// All places of a word weigh as often as the word occurs.
pub proof fn lemma_word_weight(t: Seq<TokenId>, c: nat)
    ensures
        weight(t, c, any_pair()) == (if t.len() > 1 {
            (t.len() - 1) * c
        } else {
            0
        }),
    decreases t.len(),
{
    if t.len() >= 2 {
        lemma_word_weight(t.drop_last(), c);
        let n = t.len();
        assert((n - 1) * c == (n - 2) * c + c) by (nonlinear_arith);
        assert(n == 2 ==> (n - 2) * c == 0) by (nonlinear_arith);
    }
}

/// A pair weighs something in a word exactly where it occurs in it.
pub proof fn lemma_weight_occurs(t: Seq<TokenId>, c: nat, p: Pair)
    ensures
        weight(t, c, is_pair(p)) > 0 ==> occurs(t, p),
        occurs(t, p) ==> weight(t, c, is_pair(p)) >= c,
    decreases t.len(),
{
    if t.len() >= 2 {
        let s = t.drop_last();
        lemma_weight_occurs(s, c, p);
        if occurs(s, p) {
            let i = choose|i: int| 0 <= i < s.len() - 1 && #[trigger] s[i] == p.0 && s[i + 1] == p.1;
            assert(t[i] == p.0 && t[i + 1] == p.1);
        }
        if occurs(t, p) {
            let i = choose|i: int| 0 <= i < t.len() - 1 && #[trigger] t[i] == p.0 && t[i + 1] == p.1;
            if i < t.len() - 2 {
                assert(s[i] == p.0 && s[i + 1] == p.1);
            }
        }
        if t[t.len() - 2] == p.0 && t[t.len() - 1] == p.1 {
            assert(t[t.len() - 2] == p.0 && t[(t.len() - 2) + 1] == p.1);
        }
    }
}

pub proof fn lemma_count_occurs(words: Seq<WordModel>, p: Pair)
    ensures
        pair_count(words, p) > 0 ==> occurs_in(words, p),
    decreases words.len(),
{
    if words.len() > 0 {
        let s = words.drop_last();
        lemma_count_occurs(s, p);
        lemma_weight_occurs(words.last().tokens, words.last().count as nat, p);
        if occurs_in(s, p) {
            let k = choose|k: int| 0 <= k < s.len() && occurs((#[trigger] s[k]).tokens, p);
            assert(words[k] == s[k]);
        }
        if occurs(words.last().tokens, p) {
            assert(occurs(words[words.len() - 1].tokens, p));
        }
    }
}

/// What replacing a pair by one token does to the weights.
pub proof fn lemma_replaced_weight(t: Seq<TokenId>, i: int, n: TokenId, c: nat, f: spec_fn(Pair) -> bool)
    requires
        0 <= i,
        i + 1 < t.len(),
    ensures
        ({
            let base = weight(t.take(i), c, f) + weight(t.skip(i + 2), c, f);
            let r = replaced(t, i, n);
            &&& r.len() == t.len() - 1
            &&& weight(t, c, f) == base + (if i > 0 && f((t[i - 1], t[i])) {
                c
            } else {
                0
            }) + (if f((t[i], t[i + 1])) {
                c
            } else {
                0
            }) + (if i + 2 < t.len() && f((t[i + 1], t[i + 2])) {
                c
            } else {
                0
            })
            &&& weight(r, c, f) == base + (if i > 0 && f((t[i - 1], n)) {
                c
            } else {
                0
            }) + (if i + 2 < t.len() && f((n, t[i + 2])) {
                c
            } else {
                0
            })
        }),
{
    let l = t.take(i);
    let r = t.skip(i + 2);
    let ab = seq![t[i], t[i + 1]];
    let m = seq![n];
    assert(t =~= (l + ab) + r);
    assert(replaced(t, i, n) =~= (l + m) + r);
    lemma_weight_concat(l + ab, r, c, f);
    lemma_weight_concat(l, ab, c, f);
    lemma_weight_concat(l + m, r, c, f);
    lemma_weight_concat(l, m, c, f);
    reveal_with_fuel(weight, 3);
    assert(ab.drop_last().len() == 1);
}

// ---------------------------------------------------------------------------
// What merging keeps
// ---------------------------------------------------------------------------

/// No pair is recorded more often than it occurs, where it occurs `rest` times
/// outside of the word `t` and `consumed` occurrences of `ab` may still be
/// recorded though they were merged.
pub open spec fn bounded(
    freqs: Map<Pair, Frequency>,
    t: Seq<TokenId>,
    c: nat,
    rest: spec_fn(Pair) -> nat,
    ab: Pair,
    consumed: nat,
) -> bool {
    forall|p: Pair| #[trigger]
        pairs::freq_of(freqs, p) <= rest(p) + weight(t, c, is_pair(p)) + (if p == ab {
            consumed
        } else {
            0
        })
}

/// Whether no pair is recorded with the frequency zero.
pub open spec fn no_dead(freqs: Map<Pair, Frequency>) -> bool {
    forall|p: Pair| #[trigger] freqs.contains_key(p) ==> freqs[p] > 0
}

/// Every pair but `ab` is recorded as often as it occurs.
pub open spec fn exact_but(
    freqs: Map<Pair, Frequency>,
    t: Seq<TokenId>,
    c: nat,
    rest: spec_fn(Pair) -> nat,
    ab: Pair,
) -> bool {
    forall|p: Pair|
        p != ab ==> #[trigger] pairs::freq_of(freqs, p) == rest(p) + weight(t, c, is_pair(p))
}

proof fn lemma_table_dec(m: Map<Pair, Frequency>, p: Pair, d: Frequency, q: Pair)
    ensures
        pairs::freq_of(pairs::table_dec(m, p, d), q) == (if q == p {
            if pairs::freq_of(m, p) > d {
                pairs::freq_of(m, p) - d
            } else {
                0
            }
        } else {
            pairs::freq_of(m, q) as int
        }),
{
}

proof fn lemma_table_inc(m: Map<Pair, Frequency>, p: Pair, d: Frequency, q: Pair)
    requires
        pairs::freq_of(m, p) + d <= u64::MAX,
    ensures
        pairs::freq_of(pairs::table_inc(m, p, d), q) == (if q == p {
            pairs::freq_of(m, p) + d
        } else {
            pairs::freq_of(m, q) as int
        }),
{
}

/// What the neighbours gain of a pair when the tokens at `i` are merged.
spec fn gained(t: Seq<TokenId>, n: TokenId, c: nat, i: int, p: Pair) -> nat {
    (if i > 0 && p == (t[i - 1], n) {
        c
    } else {
        0
    }) + (if i + 2 < t.len() && p == (n, t[i + 2]) {
        c
    } else {
        0
    })
}

/// The frequency of one pair after the losses of a merge.
proof fn lemma_losses(st: MergeState, ab: Pair, n: TokenId, cnt: Frequency, i: int, p: Pair, held: nat, extra: nat)
    requires
        pair_at(st.tokens, ab, i),
        pairs::freq_of(st.freqs, p) <= held + weight(st.tokens, cnt as nat, is_pair(p)) + extra,
    ensures
        pairs::freq_of(after_losses(st, cnt, i).freqs, p) + gained(st.tokens, n, cnt as nat, i, p)
            <= held + weight(replaced(st.tokens, i, n), cnt as nat, is_pair(p)) + extra + (if p
            == ab {
            cnt as nat
        } else {
            0
        }),
        p != ab && pairs::freq_of(st.freqs, p) == held + weight(st.tokens, cnt as nat, is_pair(p))
            ==> pairs::freq_of(after_losses(st, cnt, i).freqs, p) + gained(
            st.tokens,
            n,
            cnt as nat,
            i,
            p,
        ) == held + weight(replaced(st.tokens, i, n), cnt as nat, is_pair(p)),
{
    let t = st.tokens;
    let s1 = if i > 0 {
        st.lose((t[i - 1], t[i]), cnt)
    } else {
        st
    };
    lemma_replaced_weight(t, i, n, cnt as nat, is_pair(p));
    lemma_table_dec(st.freqs, (t[i - 1], t[i]), cnt, p);
    lemma_table_dec(s1.freqs, (t[i + 1], t[i + 2]), cnt, p);
}

/// The frequency of one pair after a merge.
proof fn lemma_gains(st: MergeState, n: TokenId, cnt: Frequency, i: int, p: Pair)
    requires
        i > 0 ==> pairs::freq_of(after_losses(st, cnt, i).freqs, (st.tokens[i - 1], n)) + cnt
            <= u64::MAX,
        i + 2 < st.tokens.len() ==> pairs::freq_of(
            after_left_gain(st, n, cnt, i).freqs,
            (n, st.tokens[i + 2]),
        ) + cnt <= u64::MAX,
    ensures
        pairs::freq_of(merge_at(st, n, cnt, i).freqs, p) == pairs::freq_of(
            after_losses(st, cnt, i).freqs,
            p,
        ) + gained(st.tokens, n, cnt as nat, i, p),
{
    if i > 0 {
        lemma_table_inc(after_losses(st, cnt, i).freqs, (st.tokens[i - 1], n), cnt, p);
    }
    if i + 2 < st.tokens.len() {
        lemma_table_inc(after_left_gain(st, n, cnt, i).freqs, (n, st.tokens[i + 2]), cnt, p);
    }
}

/// One merge keeps the frequencies within what the words hold, and the sum that
/// is recorded for two more occurrences never overflows.
pub proof fn lemma_merge_at(
    st: MergeState,
    ab: Pair,
    n: TokenId,
    cnt: Frequency,
    i: int,
    rest: spec_fn(Pair) -> nat,
    rest_total: nat,
    consumed: nat,
)
    requires
        pair_at(st.tokens, ab, i),
        bounded(st.freqs, st.tokens, cnt as nat, rest, ab, consumed),
        forall|p: Pair| #[trigger] rest(p) <= rest_total,
        rest_total + weight(st.tokens, cnt as nat, any_pair()) + consumed <= u64::MAX,
    ensures
        i > 0 ==> pairs::freq_of(after_losses(st, cnt, i).freqs, (st.tokens[i - 1], n)) + cnt
            <= u64::MAX,
        i + 2 < st.tokens.len() ==> pairs::freq_of(
            after_left_gain(st, n, cnt, i).freqs,
            (n, st.tokens[i + 2]),
        ) + cnt <= u64::MAX,
        replaced(st.tokens, i, n).len() == st.tokens.len() - 1,
        bounded(
            merge_at(st, n, cnt, i).freqs,
            replaced(st.tokens, i, n),
            cnt as nat,
            rest,
            ab,
            consumed + cnt as nat,
        ),
        weight(replaced(st.tokens, i, n), cnt as nat, any_pair()) + cnt == weight(
            st.tokens,
            cnt as nat,
            any_pair(),
        ),
        exact_but(st.freqs, st.tokens, cnt as nat, rest, ab) ==> exact_but(
            merge_at(st, n, cnt, i).freqs,
            replaced(st.tokens, i, n),
            cnt as nat,
            rest,
            ab,
        ),
        no_dead(st.freqs) && cnt > 0 ==> no_dead(merge_at(st, n, cnt, i).freqs),
{
    let t = st.tokens;
    let c = cnt as nat;
    let after = replaced(t, i, n);
    lemma_replaced_weight(t, i, n, c, any_pair());
    assert forall|p: Pair|
        #![trigger rest(p)]
        pairs::freq_of(after_losses(st, cnt, i).freqs, p) + gained(t, n, c, i, p) <= rest(p)
            + weight(after, c, is_pair(p)) + (if p == ab {
            consumed + c
        } else {
            0
        }) && rest(p) + weight(after, c, is_pair(p)) + consumed + c <= u64::MAX by {
        assert(pairs::freq_of(st.freqs, p) <= rest(p) + weight(t, c, is_pair(p)) + (if p == ab {
            consumed
        } else {
            0
        }));
        lemma_losses(
            st,
            ab,
            n,
            cnt,
            i,
            p,
            rest(p),
            if p == ab {
                consumed
            } else {
                0
            },
        );
        lemma_weight_mono(after, c, is_pair(p), any_pair());
    }
    if i > 0 {
        let p: Pair = (t[i - 1], n);
        assert(rest(p) <= rest_total);
    }
    if i + 2 < t.len() {
        let p: Pair = (n, t[i + 2]);
        assert(rest(p) <= rest_total);
        if i > 0 {
            lemma_table_inc(after_losses(st, cnt, i).freqs, (t[i - 1], n), cnt, p);
        }
    }
    assert forall|p: Pair| #[trigger]
        pairs::freq_of(merge_at(st, n, cnt, i).freqs, p) <= rest(p) + weight(after, c, is_pair(p))
            + (if p == ab {
            consumed + c
        } else {
            0
        }) by {
        lemma_gains(st, n, cnt, i, p);
        assert(rest(p) <= rest_total);
    }
    if exact_but(st.freqs, t, c, rest, ab) {
        assert forall|p: Pair| p != ab implies #[trigger] pairs::freq_of(
            merge_at(st, n, cnt, i).freqs,
            p,
        ) == rest(p) + weight(after, c, is_pair(p)) by {
            lemma_gains(st, n, cnt, i, p);
            assert(pairs::freq_of(st.freqs, p) == rest(p) + weight(t, c, is_pair(p)));
            lemma_losses(st, ab, n, cnt, i, p, rest(p), 0);
        }
    }
    if no_dead(st.freqs) && cnt > 0 {
        lemma_no_dead(st, n, cnt, i);
    }
}

/// A merge leaves no pair with the frequency zero behind.
proof fn lemma_no_dead(st: MergeState, n: TokenId, cnt: Frequency, i: int)
    requires
        cnt > 0,
        no_dead(st.freqs),
        i > 0 ==> pairs::freq_of(after_losses(st, cnt, i).freqs, (st.tokens[i - 1], n)) + cnt
            <= u64::MAX,
        i + 2 < st.tokens.len() ==> pairs::freq_of(
            after_left_gain(st, n, cnt, i).freqs,
            (n, st.tokens[i + 2]),
        ) + cnt <= u64::MAX,
    ensures
        no_dead(merge_at(st, n, cnt, i).freqs),
{
    let t = st.tokens;
    let s1 = if i > 0 {
        st.lose((t[i - 1], t[i]), cnt)
    } else {
        st
    };
    assert(no_dead(s1.freqs));
    assert(no_dead(after_losses(st, cnt, i).freqs));
    assert(no_dead(after_left_gain(st, n, cnt, i).freqs));
}

/// Merging in a word keeps the frequencies within what the words hold.
pub proof fn lemma_merge_from(
    st: MergeState,
    ab: Pair,
    n: TokenId,
    cnt: Frequency,
    i: int,
    rest: spec_fn(Pair) -> nat,
    rest_total: nat,
    consumed: nat,
)
    requires
        0 <= i,
        bounded(st.freqs, st.tokens, cnt as nat, rest, ab, consumed),
        forall|p: Pair| #[trigger] rest(p) <= rest_total,
        rest_total + weight(st.tokens, cnt as nat, any_pair()) + consumed <= u64::MAX,
    ensures
        weight(merge_from(st, ab, n, cnt, i).tokens, cnt as nat, any_pair()) <= weight(
            st.tokens,
            cnt as nat,
            any_pair(),
        ),
        bounded(
            merge_from(st, ab, n, cnt, i).freqs,
            merge_from(st, ab, n, cnt, i).tokens,
            cnt as nat,
            rest,
            ab,
            (consumed + weight(st.tokens, cnt as nat, any_pair()) - weight(
                merge_from(st, ab, n, cnt, i).tokens,
                cnt as nat,
                any_pair(),
            )) as nat,
        ),
        exact_but(st.freqs, st.tokens, cnt as nat, rest, ab) ==> exact_but(
            merge_from(st, ab, n, cnt, i).freqs,
            merge_from(st, ab, n, cnt, i).tokens,
            cnt as nat,
            rest,
            ab,
        ),
        no_dead(st.freqs) && cnt > 0 ==> no_dead(merge_from(st, ab, n, cnt, i).freqs),
    decreases st.tokens.len() - i,
{
    if i + 1 >= st.tokens.len() {
    } else if pair_at(st.tokens, ab, i) {
        lemma_merge_at(st, ab, n, cnt, i, rest, rest_total, consumed);
        lemma_merge_from(
            merge_at(st, n, cnt, i),
            ab,
            n,
            cnt,
            i,
            rest,
            rest_total,
            consumed + cnt as nat,
        );
    } else {
        lemma_merge_from(st, ab, n, cnt, i + 1, rest, rest_total, consumed);
    }
}

/// Whether a state can follow another: what was touched stays touched, and what
/// was not touched has kept its entry.
pub open spec fn follows(
    f0: Map<Pair, Frequency>,
    t0: Seq<Pair>,
    f1: Map<Pair, Frequency>,
    t1: Seq<Pair>,
) -> bool {
    &&& forall|p: Pair| #[trigger] t0.contains(p) ==> t1.contains(p)
    &&& forall|p: Pair| !t1.contains(p) ==> (#[trigger] f1.contains_key(p) <==> f0.contains_key(p))
    &&& forall|p: Pair| !t1.contains(p) && f0.contains_key(p) ==> #[trigger] f1[p] == f0[p]
    &&& t0.no_duplicates() ==> t1.no_duplicates()
}

/// What was touched after one more pair was.
pub proof fn lemma_touch(t: Seq<Pair>, p: Pair)
    ensures
        pairs::touch(t, p).contains(p),
        forall|q: Pair| #[trigger] pairs::touch(t, p).contains(q) <==> t.contains(q) || q == p,
        t.no_duplicates() ==> pairs::touch(t, p).no_duplicates(),
{
    if !t.contains(p) {
        let u = t.push(p);
        assert(u[t.len() as int] == p);
        assert forall|q: Pair| #[trigger] u.contains(q) <==> t.contains(q) || q == p by {
            if t.contains(q) {
                let i = choose|i: int| 0 <= i < t.len() && t[i] == q;
                assert(u[i] == q);
            }
        }
    }
}

proof fn lemma_follows_trans(
    f0: Map<Pair, Frequency>,
    t0: Seq<Pair>,
    f1: Map<Pair, Frequency>,
    t1: Seq<Pair>,
    f2: Map<Pair, Frequency>,
    t2: Seq<Pair>,
)
    requires
        follows(f0, t0, f1, t1),
        follows(f1, t1, f2, t2),
    ensures
        follows(f0, t0, f2, t2),
{
}

proof fn lemma_lose_follows(st: MergeState, p: Pair, d: Frequency)
    ensures
        follows(st.freqs, st.touched, st.lose(p, d).freqs, st.lose(p, d).touched),
{
    lemma_touch(st.touched, p);
}

proof fn lemma_gain_follows(st: MergeState, p: Pair, d: Frequency)
    ensures
        follows(st.freqs, st.touched, st.gain(p, d).freqs, st.gain(p, d).touched),
{
    lemma_touch(st.touched, p);
}

proof fn lemma_merge_at_follows(st: MergeState, n: TokenId, cnt: Frequency, i: int)
    ensures
        follows(
            st.freqs,
            st.touched,
            merge_at(st, n, cnt, i).freqs,
            merge_at(st, n, cnt, i).touched,
        ),
{
    let t = st.tokens;
    let s1 = if i > 0 {
        st.lose((t[i - 1], t[i]), cnt)
    } else {
        st
    };
    let s2 = after_losses(st, cnt, i);
    let s3 = after_left_gain(st, n, cnt, i);
    let s4 = merge_at(st, n, cnt, i);
    lemma_lose_follows(st, (t[i - 1], t[i]), cnt);
    lemma_lose_follows(s1, (t[i + 1], t[i + 2]), cnt);
    lemma_gain_follows(s2, (t[i - 1], n), cnt);
    lemma_gain_follows(s3, (n, t[i + 2]), cnt);
    lemma_follows_trans(st.freqs, st.touched, s1.freqs, s1.touched, s2.freqs, s2.touched);
    lemma_follows_trans(st.freqs, st.touched, s2.freqs, s2.touched, s3.freqs, s3.touched);
    lemma_follows_trans(st.freqs, st.touched, s3.freqs, s3.touched, s4.freqs, s4.touched);
}

/// Only touched pairs have their entry changed.
pub proof fn lemma_merge_from_follows(st: MergeState, ab: Pair, n: TokenId, cnt: Frequency, i: int)
    ensures
        follows(
            st.freqs,
            st.touched,
            merge_from(st, ab, n, cnt, i).freqs,
            merge_from(st, ab, n, cnt, i).touched,
        ),
    decreases st.tokens.len() - i,
{
    if i < 0 || i + 1 >= st.tokens.len() {
    } else if pair_at(st.tokens, ab, i) {
        let m = merge_at(st, n, cnt, i);
        lemma_merge_at_follows(st, n, cnt, i);
        lemma_merge_from_follows(m, ab, n, cnt, i);
        let r = merge_from(st, ab, n, cnt, i);
        lemma_follows_trans(st.freqs, st.touched, m.freqs, m.touched, r.freqs, r.touched);
    } else {
        lemma_merge_from_follows(st, ab, n, cnt, i + 1);
    }
}

/// Merging makes no token but `n`, never lengthens a word, and shortens one in
/// which the pair stands.
pub proof fn lemma_merge_from_tokens(st: MergeState, ab: Pair, n: TokenId, cnt: Frequency, i: int)
    requires
        0 <= i,
    ensures
        merge_from(st, ab, n, cnt, i).tokens.len() <= st.tokens.len(),
        (exists|j: int| i <= j && #[trigger] pair_at(st.tokens, ab, j)) ==> merge_from(
            st,
            ab,
            n,
            cnt,
            i,
        ).tokens.len() < st.tokens.len(),
        forall|x: TokenId| #[trigger]
            merge_from(st, ab, n, cnt, i).tokens.contains(x) ==> x == n || st.tokens.contains(x),
    decreases st.tokens.len() - i,
{
    let r = merge_from(st, ab, n, cnt, i);
    if i + 1 >= st.tokens.len() {
    } else if pair_at(st.tokens, ab, i) {
        let m = merge_at(st, n, cnt, i);
        lemma_merge_from_tokens(m, ab, n, cnt, i);
        assert forall|x: TokenId| #[trigger] r.tokens.contains(x) implies x == n
            || st.tokens.contains(x) by {
            if x != n {
                assert(m.tokens.contains(x));
                let k = choose|k: int| 0 <= k < m.tokens.len() && m.tokens[k] == x;
                if k < i {
                    assert(st.tokens[k] == x);
                } else {
                    assert(st.tokens[k + 1] == x);
                }
            }
        }
    } else {
        lemma_merge_from_tokens(st, ab, n, cnt, i + 1);
        if exists|j: int| i <= j && #[trigger] pair_at(st.tokens, ab, j) {
            let j = choose|j: int| i <= j && #[trigger] pair_at(st.tokens, ab, j);
            assert(i + 1 <= j && pair_at(st.tokens, ab, j));
        }
    }
}

/// No occurrence of the pair is left, unless the merged token is the right one of
/// two different tokens.
pub proof fn lemma_merge_from_consumes(st: MergeState, ab: Pair, n: TokenId, cnt: Frequency, i: int)
    requires
        0 <= i,
        ab.0 == ab.1 || n != ab.1,
        forall|j: int| 0 <= j < i ==> !#[trigger] pair_at(st.tokens, ab, j),
    ensures
        forall|j: int| 0 <= j ==> !#[trigger] pair_at(merge_from(st, ab, n, cnt, i).tokens, ab, j),
    decreases st.tokens.len() - i,
{
    if i + 1 >= st.tokens.len() {
        assert(merge_from(st, ab, n, cnt, i) == st);
        assert forall|j: int| 0 <= j implies !#[trigger] pair_at(st.tokens, ab, j) by {}
    } else if pair_at(st.tokens, ab, i) {
        let m = merge_at(st, n, cnt, i);
        assert forall|j: int| 0 <= j < i implies !#[trigger] pair_at(m.tokens, ab, j) by {
            assert(!pair_at(st.tokens, ab, j));
            if j + 1 < i {
                assert(m.tokens[j + 1] == st.tokens[j + 1]);
            } else {
                assert(m.tokens[j + 1] == n);
            }
            assert(m.tokens[j] == st.tokens[j]);
        }
        lemma_merge_from_consumes(m, ab, n, cnt, i);
        assert(merge_from(st, ab, n, cnt, i) == merge_from(m, ab, n, cnt, i));
    } else {
        lemma_merge_from_consumes(st, ab, n, cnt, i + 1);
        assert(merge_from(st, ab, n, cnt, i) == merge_from(st, ab, n, cnt, i + 1));
    }
}

// ---------------------------------------------------------------------------
// The same over all words
// ---------------------------------------------------------------------------

/// Whether every word occurs.
pub open spec fn all_counted(words: Seq<WordModel>) -> bool {
    forall|k: int| 0 <= k < words.len() ==> (#[trigger] words[k]).count > 0
}

/// How often each pair occurs in two sequences of words.
spec fn held(x: Seq<WordModel>, y: Seq<WordModel>) -> spec_fn(Pair) -> nat {
    |p: Pair| pair_count(x, p) + pair_count(y, p)
}

/// The frequencies after some of the words were merged and others were not.
pub proof fn lemma_merge_words(
    words: Seq<WordModel>,
    tail: Seq<WordModel>,
    freqs: Map<Pair, Frequency>,
    ab: Pair,
    n: TokenId,
)
    requires
        forall|p: Pair| #[trigger]
            pairs::freq_of(freqs, p) <= pair_count(words, p) + pair_count(tail, p),
        total_weight(words) + total_weight(tail) <= u64::MAX,
    ensures
        merge_words(words, freqs, ab, n).0.len() == words.len(),
        total_weight(merge_words(words, freqs, ab, n).0) <= total_weight(words),
        forall|p: Pair| #[trigger]
            pairs::freq_of(merge_words(words, freqs, ab, n).1, p) <= pair_count(
                merge_words(words, freqs, ab, n).0,
                p,
            ) + pair_count(tail, p) + (if p == ab {
                (total_weight(words) - total_weight(merge_words(words, freqs, ab, n).0)) as nat
            } else {
                0
            }),
        (forall|p: Pair| #[trigger]
            pairs::freq_of(freqs, p) == pair_count(words, p) + pair_count(tail, p)) ==> (forall|
            p: Pair,
        |
            p != ab ==> #[trigger] pairs::freq_of(merge_words(words, freqs, ab, n).1, p)
                == pair_count(merge_words(words, freqs, ab, n).0, p) + pair_count(tail, p)),
        no_dead(freqs) && all_counted(words) ==> no_dead(merge_words(words, freqs, ab, n).1),
    decreases words.len(),
{
    if words.len() == 0 {
    } else {
        let w = words.last();
        let tail2 = seq![w] + tail;
        let pre = words.drop_last();
        let c = w.count as nat;
        assert forall|f: spec_fn(Pair) -> bool| #[trigger]
            words_weight(tail2, f) == weight(w.tokens, c, f) + words_weight(tail, f) by {
            lemma_words_weight_concat(seq![w], tail, f);
            reveal_with_fuel(words_weight, 2);
            assert(seq![w].drop_last() =~= Seq::<WordModel>::empty());
        }
        assert forall|p: Pair| #[trigger] pairs::freq_of(freqs, p) <= pair_count(pre, p)
            + pair_count(tail2, p) by {
            assert(words_weight(tail2, is_pair(p)) == weight(w.tokens, c, is_pair(p))
                + words_weight(tail, is_pair(p)));
        }
        assert(words_weight(tail2, any_pair()) == weight(w.tokens, c, any_pair()) + words_weight(
            tail,
            any_pair(),
        ));
        lemma_merge_words(pre, tail2, freqs, ab, n);
        let (ws, fs, ts) = merge_words(pre, freqs, ab, n);
        let st = MergeState { tokens: w.tokens, freqs: fs, touched: ts };
        let rest = held(ws, tail);
        let rest_total = total_weight(ws) + total_weight(tail);
        let consumed = (total_weight(pre) - total_weight(ws)) as nat;
        assert forall|p: Pair| #[trigger] rest(p) <= rest_total by {
            lemma_words_weight_mono(ws, is_pair(p), any_pair());
            lemma_words_weight_mono(tail, is_pair(p), any_pair());
        }
        assert forall|p: Pair| #[trigger] pairs::freq_of(fs, p) <= rest(p) + weight(
            w.tokens,
            c,
            is_pair(p),
        ) + (if p == ab {
            consumed
        } else {
            0
        }) by {
            assert(words_weight(tail2, is_pair(p)) == weight(w.tokens, c, is_pair(p))
                + words_weight(tail, is_pair(p)));
        }
        lemma_merge_from(st, ab, n, w.count, 0, rest, rest_total, consumed);
        if all_counted(words) {
            assert(words[words.len() - 1].count > 0);
            assert forall|k: int| 0 <= k < pre.len() implies (#[trigger] pre[k]).count > 0 by {
                assert(pre[k] == words[k]);
            }
        }
        let r = merge_from(st, ab, n, w.count, 0);
        let ws2 = ws.push(WordModel { tokens: r.tokens, count: w.count });
        assert(ws2.drop_last() =~= ws);
        assert forall|p: Pair| #[trigger] pairs::freq_of(r.freqs, p) <= pair_count(ws2, p)
            + pair_count(tail, p) + (if p == ab {
            (total_weight(words) - total_weight(ws2)) as nat
        } else {
            0
        }) by {
            assert(rest(p) == pair_count(ws, p) + pair_count(tail, p));
        }
        if forall|p: Pair| #[trigger]
            pairs::freq_of(freqs, p) == pair_count(words, p) + pair_count(tail, p) {
            assert forall|p: Pair| #[trigger] pairs::freq_of(freqs, p) == pair_count(pre, p)
                + pair_count(tail2, p) by {
                assert(words_weight(tail2, is_pair(p)) == weight(w.tokens, c, is_pair(p))
                    + words_weight(tail, is_pair(p)));
            }
            assert forall|p: Pair| p != ab implies #[trigger] pairs::freq_of(fs, p) == rest(p)
                + weight(w.tokens, c, is_pair(p)) by {
                assert(words_weight(tail2, is_pair(p)) == weight(w.tokens, c, is_pair(p))
                    + words_weight(tail, is_pair(p)));
            }
            assert(exact_but(st.freqs, st.tokens, c, rest, ab));
            assert forall|p: Pair| p != ab implies #[trigger] pairs::freq_of(r.freqs, p)
                == pair_count(ws2, p) + pair_count(tail, p) by {
                assert(rest(p) == pair_count(ws, p) + pair_count(tail, p));
            }
        }
    }
}

proof fn lemma_merge_words_follows(
    words: Seq<WordModel>,
    freqs: Map<Pair, Frequency>,
    ab: Pair,
    n: TokenId,
)
    ensures
        follows(
            freqs,
            Seq::empty(),
            merge_words(words, freqs, ab, n).1,
            merge_words(words, freqs, ab, n).2,
        ),
    decreases words.len(),
{
    if words.len() > 0 {
        let w = words.last();
        lemma_merge_words_follows(words.drop_last(), freqs, ab, n);
        let (ws, fs, ts) = merge_words(words.drop_last(), freqs, ab, n);
        let st = MergeState { tokens: w.tokens, freqs: fs, touched: ts };
        lemma_merge_from_follows(st, ab, n, w.count, 0);
        let r = merge_from(st, ab, n, w.count, 0);
        lemma_follows_trans(freqs, Seq::empty(), fs, ts, r.freqs, r.touched);
    }
}

/// What becomes of each single word.
pub proof fn lemma_merge_words_each(
    words: Seq<WordModel>,
    freqs: Map<Pair, Frequency>,
    ab: Pair,
    n: TokenId,
)
    ensures
        merge_words(words, freqs, ab, n).0.len() == words.len(),
        forall|k: int|
            0 <= k < words.len() ==> (#[trigger] merge_words(words, freqs, ab, n).0[k]).count
                == words[k].count,
        forall|k: int, x: TokenId|
            0 <= k < words.len() && #[trigger] merge_words(
                words,
                freqs,
                ab,
                n,
            ).0[k].tokens.contains(x) ==> x == n || words[k].tokens.contains(x),
        ab.0 == ab.1 || n != ab.1 ==> !occurs_in(merge_words(words, freqs, ab, n).0, ab),
        token_count(merge_words(words, freqs, ab, n).0) <= token_count(words),
        occurs_in(words, ab) ==> token_count(merge_words(words, freqs, ab, n).0) < token_count(
            words,
        ),
    decreases words.len(),
{
    if words.len() > 0 {
        let w = words.last();
        let pre = words.drop_last();
        lemma_merge_words_each(pre, freqs, ab, n);
        let (ws, fs, ts) = merge_words(pre, freqs, ab, n);
        let st = MergeState { tokens: w.tokens, freqs: fs, touched: ts };
        let r = merge_from(st, ab, n, w.count, 0);
        let ws2 = merge_words(words, freqs, ab, n).0;
        assert(ws2 == ws.push(WordModel { tokens: r.tokens, count: w.count }));
        assert(ws2.drop_last() =~= ws);
        lemma_merge_from_tokens(st, ab, n, w.count, 0);
        assert forall|k: int, x: TokenId|
            0 <= k < words.len() && #[trigger] ws2[k].tokens.contains(x) implies x == n
            || words[k].tokens.contains(x) by {
            if k < pre.len() {
                assert(ws[k].tokens.contains(x));
                assert(pre[k] == words[k]);
            } else {
                assert(r.tokens.contains(x));
            }
        }
        assert forall|k: int| 0 <= k < words.len() implies (#[trigger] ws2[k]).count
            == words[k].count by {
            if k < pre.len() {
                assert(ws[k].count == pre[k].count);
            }
        }
        if ab.0 == ab.1 || n != ab.1 {
            lemma_merge_from_consumes(st, ab, n, w.count, 0);
            if occurs_in(ws2, ab) {
                let k = choose|k: int| 0 <= k < ws2.len() && occurs((#[trigger] ws2[k]).tokens, ab);
                let t = ws2[k].tokens;
                let j = choose|j: int| 0 <= j < t.len() - 1 && #[trigger] t[j] == ab.0 && t[j + 1] == ab.1;
                assert(pair_at(t, ab, j));
                if k < pre.len() {
                    assert(occurs(ws[k].tokens, ab));
                } else {
                    assert(pair_at(r.tokens, ab, j));
                }
            }
        }
        if occurs_in(words, ab) {
            let k = choose|k: int| 0 <= k < words.len() && occurs((#[trigger] words[k]).tokens, ab);
            if k < pre.len() {
                assert(occurs(pre[k].tokens, ab));
            } else {
                let t = w.tokens;
                let j = choose|j: int| 0 <= j < t.len() - 1 && #[trigger] t[j] == ab.0 && t[j + 1] == ab.1;
                assert(pair_at(st.tokens, ab, j));
            }
        }
    }
}

// ---------------------------------------------------------------------------
// Laws
// ---------------------------------------------------------------------------

proof fn lemma_occurring_finite(words: Seq<WordModel>)
    ensures
        pair_table(words).dom().finite(),
    decreases words.len(),
{
    broadcast use vstd::seq_lib::seq_to_set_is_finite;

    if words.len() == 0 {
        assert(pair_table(words).dom() =~= Set::<Pair>::empty());
    } else {
        let pre = words.drop_last();
        let t = words.last().tokens;
        lemma_occurring_finite(pre);
        let n = if t.len() > 0 {
            (t.len() - 1) as nat
        } else {
            0
        };
        let ps = Seq::new(n, |i: int| (t[i], t[i + 1]));
        let all = pair_table(pre).dom().union(ps.to_set());
        assert forall|p: Pair| #[trigger] pair_table(words).dom().contains(p) implies all.contains(p) by {
            let k = choose|k: int| 0 <= k < words.len() && occurs((#[trigger] words[k]).tokens, p);
            if k < pre.len() {
                assert(occurs(pre[k].tokens, p));
            } else {
                let i = choose|i: int| 0 <= i < t.len() - 1 && #[trigger] t[i] == p.0 && t[i + 1] == p.1;
                assert(ps[i] == p);
            }
        }
        vstd::set_lib::lemma_set_subset_finite(all, pair_table(words).dom());
    }
}

/// A fresh count is exact, and makes a valid corpus.
pub proof fn law_counted_exact(words: Seq<WordModel>)
    requires
        total_weight(words) <= u64::MAX,
    ensures
        (CorpusModel { words, freqs: pair_table(words) }).exact(),
        (CorpusModel { words, freqs: pair_table(words) }).wf(),
{
    let c = CorpusModel { words, freqs: pair_table(words) };
    lemma_occurring_finite(words);
    assert forall|p: Pair| #[trigger] pairs::freq_of(c.freqs, p) == pair_count(words, p) by {
        lemma_words_weight_mono(words, is_pair(p), any_pair());
        lemma_count_occurs(words, p);
    }
}

/// Merging keeps a corpus valid.
pub proof fn law_merge_keeps_wf(c: CorpusModel, ab: Pair, n: TokenId)
    requires
        c.wf(),
    ensures
        merged_corpus(c, ab, n).wf(),
{
    broadcast use vstd::seq_lib::seq_to_set_is_finite;

    let none = Seq::<WordModel>::empty();
    lemma_merge_words(c.words, none, c.freqs, ab, n);
    let m = merged_corpus(c, ab, n);
    assert(m.freqs.dom().finite()) by {
        lemma_merge_words_follows(c.words, c.freqs, ab, n);
        let all = c.freqs.dom().union(touched_pairs(c, ab, n).to_set());
        let f = merge_words(c.words, c.freqs, ab, n).1;
        assert forall|p: Pair| #[trigger] m.freqs.dom().contains(p) implies all.contains(p) by {
            assert(f.contains_key(p));
        }
        vstd::set_lib::lemma_set_subset_finite(all, m.freqs.dom());
    }
    assert forall|p: Pair| #[trigger] pairs::freq_of(m.freqs, p) <= pair_count(m.words, p) by {
        let f = merge_words(c.words, c.freqs, ab, n).1;
        assert(pairs::freq_of(f, p) <= pair_count(m.words, p) + (if p == ab {
            (total_weight(c.words) - total_weight(m.words)) as nat
        } else {
            0
        }));
    }
}

/// Weighing is counting: where an occurrence weighs one, pairs weigh as much as there are
/// places of the word at which one of them stands.
pub proof fn law_weight_counts_places(t: Seq<TokenId>, f: spec_fn(Pair) -> bool)
    ensures
        weight(t, 1, f) == adjacent(t).filter(f).len(),
    decreases t.len(),
{
    reveal(Seq::filter);
    if t.len() >= 2 {
        let d = t.drop_last();
        law_weight_counts_places(d, f);
        assert(adjacent(t).drop_last() =~= adjacent(d));
    }
}

/// The local updates of a merge are exact: where every frequency was how often
/// the pair occurs, it is so afterwards, with no recount. (Where the merged token
/// is the right one of two different tokens, an occurrence of the pair can be
/// left that the table does not record.)
pub proof fn law_merge_keeps_exact(c: CorpusModel, ab: Pair, n: TokenId)
    requires
        c.wf(),
        c.exact(),
        ab.0 == ab.1 || n != ab.1,
    ensures
        merged_corpus(c, ab, n).exact(),
{
    let none = Seq::<WordModel>::empty();
    lemma_merge_words(c.words, none, c.freqs, ab, n);
    lemma_merge_words_each(c.words, c.freqs, ab, n);
    let m = merged_corpus(c, ab, n);
    lemma_count_occurs(m.words, ab);
    assert forall|p: Pair| #[trigger] pairs::freq_of(m.freqs, p) == pair_count(m.words, p) by {
        let f = merge_words(c.words, c.freqs, ab, n).1;
        if p != ab {
            assert(pairs::freq_of(f, p) == pair_count(m.words, p) + pair_count(none, p));
        }
    }
}

/// A merged pair is consumed all over the corpus: it has no frequency any more,
/// and it stands nowhere, unless the merged token is the right one of two
/// different tokens.
pub proof fn law_merge_consumes(c: CorpusModel, ab: Pair, n: TokenId)
    ensures
        pairs::freq_of(merged_corpus(c, ab, n).freqs, ab) == 0,
        ab.0 == ab.1 || n != ab.1 ==> !occurs_in(merged_corpus(c, ab, n).words, ab),
{
    lemma_merge_words_each(c.words, c.freqs, ab, n);
}

/// The touched pairs are all the pairs whose frequency a merge can have changed,
/// but for the merged pair itself, and each of them is named once.
pub proof fn law_touched_covers_changes(c: CorpusModel, ab: Pair, n: TokenId)
    ensures
        touched_pairs(c, ab, n).no_duplicates(),
        forall|p: Pair|
            p != ab && !touched_pairs(c, ab, n).contains(p) ==> #[trigger] pairs::freq_of(
                merged_corpus(c, ab, n).freqs,
                p,
            ) == pairs::freq_of(c.freqs, p),
{
    lemma_merge_words_follows(c.words, c.freqs, ab, n);
    let m = merged_corpus(c, ab, n);
    let f = merge_words(c.words, c.freqs, ab, n).1;
    assert forall|p: Pair| p != ab && !touched_pairs(c, ab, n).contains(p) implies #[trigger] pairs::freq_of(m.freqs, p)
        == pairs::freq_of(c.freqs, p) by {
        assert(f.contains_key(p) <==> c.freqs.contains_key(p));
        if f.contains_key(p) {
            assert(f[p] == c.freqs[p]);
        }
    }
}

/// Merging a pair that stands somewhere leaves fewer tokens; merging any pair
/// never leaves more, and brings in no token but the merged one.
pub proof fn law_merge_shrinks(c: CorpusModel, ab: Pair, n: TokenId)
    ensures
        token_count(merged_corpus(c, ab, n).words) <= token_count(c.words),
        occurs_in(c.words, ab) ==> token_count(merged_corpus(c, ab, n).words) < token_count(
            c.words,
        ),
        merged_corpus(c, ab, n).words.len() == c.words.len(),
        forall|k: int, x: TokenId|
            0 <= k < c.words.len() && #[trigger] merged_corpus(
                c,
                ab,
                n,
            ).words[k].tokens.contains(x) ==> x == n || c.words[k].tokens.contains(x),
{
    lemma_merge_words_each(c.words, c.freqs, ab, n);
}

/// The table holds no dead entries: where every word occurs, a fresh count records
/// no pair with the frequency zero, and merging leaves none behind.
pub proof fn law_no_dead_entries(c: CorpusModel, ab: Pair, n: TokenId)
    requires
        c.wf(),
        all_counted(c.words),
    ensures
        no_dead(pair_table(c.words)),
        no_dead(c.freqs) ==> no_dead(merged_corpus(c, ab, n).freqs),
        all_counted(merged_corpus(c, ab, n).words),
{
    let none = Seq::<WordModel>::empty();
    lemma_merge_words(c.words, none, c.freqs, ab, n);
    lemma_merge_words_each(c.words, c.freqs, ab, n);
    let words = c.words;
    assert forall|p: Pair| #[trigger] pair_table(words).contains_key(p) implies pair_table(words)[p] > 0 by {
        lemma_occurs_counted(words, p);
        lemma_words_weight_mono(words, is_pair(p), any_pair());
    }
}

proof fn lemma_occurs_counted(words: Seq<WordModel>, p: Pair)
    requires
        all_counted(words),
        occurs_in(words, p),
    ensures
        pair_count(words, p) > 0,
    decreases words.len(),
{
    let k = choose|k: int| 0 <= k < words.len() && occurs((#[trigger] words[k]).tokens, p);
    let pre = words.drop_last();
    if k < pre.len() {
        assert forall|j: int| 0 <= j < pre.len() implies (#[trigger] pre[j]).count > 0 by {
            assert(pre[j] == words[j]);
        }
        assert(occurs(pre[k].tokens, p));
        lemma_occurs_counted(pre, p);
    } else {
        lemma_weight_occurs(words.last().tokens, words.last().count as nat, p);
        assert(words[k].count > 0);
    }
}

/// The places of a word at which a pair stands.
pub open spec fn places(t: Seq<TokenId>, p: Pair) -> Set<int> {
    Set::new(|i: int| 0 <= i && i + 1 < t.len() && t[i] == p.0 && t[i + 1] == p.1)
}

proof fn lemma_places(t: Seq<TokenId>, c: nat, p: Pair)
    ensures
        places(t, p).finite(),
        weight(t, c, is_pair(p)) == c * places(t, p).len(),
    decreases t.len(),
{
    if t.len() < 2 {
        assert(places(t, p) =~= Set::<int>::empty());
        assert(c * 0 == 0);
    } else {
        let d = t.drop_last();
        let k = t.len() - 2;
        lemma_places(d, c, p);
        let m = places(d, p).len();
        assert forall|i: int| i != k implies (#[trigger] places(t, p).contains(i) <==> places(d, p).contains(i)) by {
            if 0 <= i && i + 1 < d.len() {
                assert(d[i] == t[i] && d[i + 1] == t[i + 1]);
            }
        }
        if t[k] == p.0 && t[k + 1] == p.1 {
            assert(places(t, p) =~= places(d, p).insert(k));
            assert(!places(d, p).contains(k));
            assert(c * (m + 1) == c * m + c) by (nonlinear_arith);
        } else {
            assert(places(t, p) =~= places(d, p));
        }
    }
}

/// How often a pair occurs: in each word at as many places as it stands there, each as often
/// as the word occurs; and all words add up. A fresh count records just that.
pub proof fn law_pairs_are_counted(words: Seq<WordModel>, w: WordModel, p: Pair)
    ensures
        pair_count(Seq::empty(), p) == 0,
        places(w.tokens, p).finite(),
        pair_count(words.push(w), p) == pair_count(words, p) + w.count as nat * places(
            w.tokens,
            p,
        ).len(),
        total_weight(words) <= u64::MAX ==> pairs::freq_of(pair_table(words), p) == pair_count(
            words,
            p,
        ),
        pair_table(words).contains_key(p) <==> exists|k: int|
            0 <= k < words.len() && places((#[trigger] words[k]).tokens, p).len() > 0,
{
    assert(words.push(w).drop_last() =~= words);
    lemma_places(w.tokens, w.count as nat, p);
    if total_weight(words) <= u64::MAX {
        law_counted_exact(words);
        let c = CorpusModel { words, freqs: pair_table(words) };
        assert(pairs::freq_of(c.freqs, p) == pair_count(c.words, p));
    }
    if occurs_in(words, p) {
        let k = choose|k: int| 0 <= k < words.len() && occurs((#[trigger] words[k]).tokens, p);
        let t = words[k].tokens;
        let i = choose|i: int| 0 <= i < t.len() - 1 && #[trigger] t[i] == p.0 && t[i + 1] == p.1;
        lemma_places(t, 1, p);
        assert(places(t, p).contains(i));
        assert(places(words[k].tokens, p).len() > 0);
    }
    if exists|k: int|
        0 <= k < words.len() && places((#[trigger] words[k]).tokens, p).len() > 0 {
        let k = choose|k: int|
            0 <= k < words.len() && places((#[trigger] words[k]).tokens, p).len() > 0;
        let t = words[k].tokens;
        lemma_places(t, 1, p);
        let i = places(t, p).choose();
        assert(places(t, p).contains(i));
        assert(t[i] == p.0);
        assert(occurs(words[k].tokens, p));
    }
}

/// All places of all words add up to what a corpus weighs, and all tokens to how many it has.
pub proof fn law_totals(words: Seq<WordModel>, w: WordModel)
    ensures
        total_weight(Seq::empty()) == 0,
        token_count(Seq::empty()) == 0,
        total_weight(words.push(w)) == total_weight(words) + (if w.tokens.len() > 1 {
            (w.tokens.len() - 1) * w.count
        } else {
            0
        }),
        token_count(words.push(w)) == token_count(words) + w.tokens.len(),
{
    assert(words.push(w).drop_last() =~= words);
    lemma_word_weight(w.tokens, w.count as nat);
}

} // verus!
