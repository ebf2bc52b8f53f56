//! Which vocabularies lose nothing: those that were initialized, and what training,
//! tagging and saving make of them.
use crate::alphabet;
use crate::counting;
use crate::encoding;
use crate::pairs::TokenId;
use crate::paradigm::ParadigmModel;
use crate::script;
use crate::script::Script;
use crate::token::{AksharaModel, RootId, TokenModel};
use crate::training::{TrainRules, TrainState};
use crate::training;
use crate::vocabulary::{EntryModel, Seed};
use crate::vocabulary;
use vstd::prelude::*;
use vstd::utf8::*;

verus! {

/// Whether every byte token has the surface of its byte.
pub open spec fn all_typed(v: Seq<EntryModel>) -> bool {
    forall|i: int| 0 <= i < v.len() ==> encoding::well_typed(#[trigger] v[i])
}

/// Whether a seed that is a byte token has the surface of its byte.
spec fn typed_seed(seed: Seed) -> bool {
    match seed.token {
        TokenModel::ByteFallback(b) => seed.surface == seq![alphabet::byte_char(b)],
        _ => true,
    }
}

/// Whether tokens share a surface only where the later one is a byte that needs a token
/// of its own, or where all of them are bytes or none is.
pub open spec fn orderly(v: Seq<EntryModel>) -> bool {
    forall|i: int, j: int|
        0 <= i < j < v.len() && (#[trigger] v[i]).surface == (#[trigger] v[j]).surface ==> {
            ||| v[i].token is ByteFallback == v[j].token is ByteFallback
            ||| own_byte(v[j].token)
        }
}

/// Whether a token is that of a byte that is no graphic ASCII.
pub open spec fn own_byte(token: TokenModel) -> bool {
    match token {
        TokenModel::ByteFallback(b) => !alphabet::is_graphic(b),
        _ => false,
    }
}

/// Whether a vocabulary is one that can be saved: every byte token has the surface of
/// its byte, and no token but that of a byte shares the surface of another.
pub open spec fn settled(v: Seq<EntryModel>) -> bool {
    all_typed(v) && orderly(v)
}

proof fn lemma_added_typed(v: Seq<EntryModel>, seeds: Seq<Seed>)
    requires
        all_typed(v),
        forall|i: int| 0 <= i < seeds.len() ==> typed_seed(#[trigger] seeds[i]),
    ensures
        all_typed(vocabulary::added_all(v, seeds)),
    decreases seeds.len(),
{
    if seeds.len() > 0 {
        let d = seeds.drop_last();
        assert forall|i: int| 0 <= i < d.len() implies typed_seed(#[trigger] d[i]) by {
            assert(d[i] == seeds[i]);
        }
        lemma_added_typed(v, d);
        let w = vocabulary::added_all(v, d);
        let x = vocabulary::added(w, seeds.last());
        assert(typed_seed(seeds[seeds.len() - 1]));
        assert forall|i: int| 0 <= i < x.len() implies encoding::well_typed(#[trigger] x[i]) by {
            if i < w.len() {
                assert(x[i] == w[i]);
            }
        }
    }
}

/// Adding never takes a token away.
pub proof fn lemma_added_grows(v: Seq<EntryModel>, x: Seq<Seed>, y: Seq<Seed>)
    ensures
        v.len() <= vocabulary::added_all(v, x).len(),
        vocabulary::added_all(v, x).len() <= vocabulary::added_all(v, x + y).len(),
    decreases x.len() + y.len(),
{
    if y.len() > 0 {
        lemma_added_grows(v, x, y.drop_last());
        assert((x + y).drop_last() =~= x + y.drop_last());
    } else {
        assert(x + y =~= x);
        if x.len() > 0 {
            lemma_added_grows(v, x.drop_last(), y);
            assert(x.drop_last() + y =~= x.drop_last());
        }
    }
}

proof fn lemma_added_orderly(v: Seq<EntryModel>, seeds: Seq<Seed>)
    requires
        vocabulary::added_all(v, seeds).len() <= usize::MAX,
        orderly(v),
    ensures
        orderly(vocabulary::added_all(v, seeds)),
    decreases seeds.len(),
{
    if seeds.len() > 0 {
        let d = seeds.drop_last();
        let seed = seeds.last();
        lemma_added_orderly(v, d);
        let w = vocabulary::added_all(v, d);
        let x = vocabulary::added(w, seed);
        vocabulary::lemma_id_of(w, seed.surface);
        assert forall|i: int, j: int|
            0 <= i < j < x.len() && (#[trigger] x[i]).surface == (#[trigger] x[j]).surface implies {
            ||| x[i].token is ByteFallback == x[j].token is ByteFallback
            ||| own_byte(x[j].token)
        } by {
            assert(x[i] == w[i]);
            if j < w.len() {
                assert(x[j] == w[j]);
            }
        }
    }
}

/// What a vocabulary spells, it spells after tokens were added.
proof fn lemma_spells_extends(w: Seq<EntryModel>, v: Seq<EntryModel>, b: u8)
    requires
        w.len() <= usize::MAX,
        vocabulary::extends(w, v),
        forall|s: Seq<char>|
            vocabulary::id_of(v, s) is Some ==> #[trigger] vocabulary::id_of(w, s)
                == vocabulary::id_of(v, s),
        encoding::spells(v, b),
    ensures
        encoding::spells(w, b),
{
    let s = seq![alphabet::byte_char(b)];
    vocabulary::lemma_byte_id_of(v, b);
    vocabulary::lemma_byte_id_of(w, b);
    vocabulary::lemma_extends(w, v);
    if let Some(id) = vocabulary::byte_id_of(v, b) {
        assert(w[id as int] == v[id as int]);
    } else {
        assert(vocabulary::id_of(w, s) == vocabulary::id_of(v, s));
    }
}

/// After the first `k` bytes were added, those are spelled.
proof fn lemma_add_bytes(v: Seq<EntryModel>, encoder: Seq<char>, k: int)
    requires
        alphabet::is_byte_encoder(encoder),
        0 <= k <= 256,
        vocabulary::added_all(v, vocabulary::byte_seeds(encoder).take(k)).len() <= usize::MAX,
    ensures
        forall|b: u8|
            b < k ==> #[trigger] encoding::spells(
                vocabulary::added_all(v, vocabulary::byte_seeds(encoder).take(k)),
                b,
            ),
    decreases k,
{
    let seeds = vocabulary::byte_seeds(encoder);
    if k > 0 {
        assert(seeds.take(k).drop_last() =~= seeds.take(k - 1));
        lemma_add_bytes(v, encoder, k - 1);
        let w = vocabulary::added_all(v, seeds.take(k - 1));
        let x = vocabulary::added_all(v, seeds.take(k));
        let b0 = (k - 1) as u8;
        let seed = seeds[k - 1];
        assert(seeds.take(k).last() == seed);
        assert(encoder[b0 as int] == alphabet::byte_char(b0));
        assert(seed.surface == seq![alphabet::byte_char(b0)]);
        vocabulary::law_add_keeps_all(w, seed);
        if x.len() > w.len() {
            vocabulary::lemma_id_of_push(w, x.last());
        }
        assert forall|b: u8| b < k implies #[trigger] encoding::spells(x, b) by {
            if b < k - 1 {
                lemma_spells_extends(x, w, b);
            } else {
                assert(b == b0);
            }
        }
    } else {
        assert(seeds.take(0) =~= Seq::<Seed>::empty());
    }
}

/// A lossless vocabulary stays so when it grows by tokens that are well typed and when
/// nothing is found under another id.
proof fn lemma_lossless_extends(w: Seq<EntryModel>, v: Seq<EntryModel>)
    requires
        w.len() <= usize::MAX,
        encoding::lossless(v),
        vocabulary::extends(w, v),
        all_typed(w),
        forall|s: Seq<char>|
            vocabulary::id_of(v, s) is Some ==> #[trigger] vocabulary::id_of(w, s)
                == vocabulary::id_of(v, s),
    ensures
        encoding::lossless(w),
{
    assert(vocabulary::id_of(w, seq![script::ZWNJ]) == vocabulary::id_of(v, seq![script::ZWNJ]));
    assert forall|b: u8| encoding::in_utf8(b) implies #[trigger] encoding::spells(w, b) by {
        assert(encoding::spells(v, b));
        lemma_spells_extends(w, v, b);
    }
}

proof fn lemma_initial_typed(
    aksharas: Seq<AksharaModel>,
    morphemes: Seq<Seq<char>>,
    punctuation: Seq<Seq<char>>,
    strict: Seq<Seq<char>>,
    ambiguous: Seq<Seq<char>>,
    encoder: Seq<char>,
)
    requires
        alphabet::is_byte_encoder(encoder),
    ensures
        ({
            let seeds = vocabulary::initial_seeds(
                aksharas,
                morphemes,
                punctuation,
                strict,
                ambiguous,
                encoder,
            );
            forall|i: int| 0 <= i < seeds.len() ==> typed_seed(#[trigger] seeds[i])
        }),
{
    let s1 = vocabulary::akshara_seeds(aksharas);
    let s2 = vocabulary::morpheme_seeds(morphemes, strict, ambiguous);
    let s3 = vocabulary::punctuation_seeds(punctuation);
    let s4 = vocabulary::latin_seeds();
    let s5 = vocabulary::byte_seeds(encoder);
    let all = (s1 + s2 + s3 + s4 + s5).push(vocabulary::zwnj_seed());
    let n = (s1 + s2 + s3 + s4).len() as int;
    assert forall|i: int| 0 <= i < all.len() implies typed_seed(#[trigger] all[i]) by {
        if i < s1.len() {
            assert(all[i] == s1[i]);
        } else if i < s1.len() + s2.len() {
            assert(all[i] == s2[i - s1.len()]);
        } else if i < s1.len() + s2.len() + s3.len() {
            assert(all[i] == s3[i - s1.len() - s2.len()]);
        } else if i < n {
            assert(all[i] == s4[i - s1.len() - s2.len() - s3.len()]);
        } else if i < n + 256 {
            assert(all[i] == s5[i - n]);
            assert(encoder[(i - n) as u8 as int] == alphabet::byte_char((i - n) as u8));
        }
    }
}

/// An initialized vocabulary is lossless, whatever aksharas, morphemes and punctuation
/// marks it was given and whatever it held before.
pub proof fn law_initialized_is_lossless(
    v: Seq<EntryModel>,
    aksharas: Seq<AksharaModel>,
    morphemes: Seq<Seq<char>>,
    punctuation: Seq<Seq<char>>,
    strict: Seq<Seq<char>>,
    ambiguous: Seq<Seq<char>>,
    encoder: Seq<char>,
)
    requires
        all_typed(v),
        alphabet::is_byte_encoder(encoder),
        vocabulary::added_all(
            v,
            vocabulary::initial_seeds(
                aksharas,
                morphemes,
                punctuation,
                strict,
                ambiguous,
                encoder,
            ),
        ).len() <= usize::MAX,
    ensures
        encoding::lossless(
            vocabulary::added_all(
                v,
                vocabulary::initial_seeds(
                    aksharas,
                    morphemes,
                    punctuation,
                    strict,
                    ambiguous,
                    encoder,
                ),
            ),
        ),
{
    let s1 = vocabulary::akshara_seeds(aksharas);
    let s2 = vocabulary::morpheme_seeds(morphemes, strict, ambiguous);
    let s3 = vocabulary::punctuation_seeds(punctuation);
    let user = s1 + s2 + s3 + vocabulary::latin_seeds();
    let s5 = vocabulary::byte_seeds(encoder);
    let all = vocabulary::initial_seeds(
        aksharas,
        morphemes,
        punctuation,
        strict,
        ambiguous,
        encoder,
    );
    lemma_initial_typed(aksharas, morphemes, punctuation, strict, ambiguous, encoder);
    lemma_added_typed(v, all);
    assert forall|i: int| 0 <= i < user.len() implies typed_seed(#[trigger] user[i]) by {
        assert(user[i] == all[i]);
    }
    lemma_added_typed(v, user);
    let v4 = vocabulary::added_all(v, user);
    assert(all.drop_last() =~= user + s5);
    assert(s5.take(256) =~= s5);
    vocabulary::lemma_added_all_concat(v, user, s5);
    lemma_add_bytes(v4, encoder, 256);
    let v5 = vocabulary::added_all(v4, s5);
    let v6 = vocabulary::added(v5, vocabulary::zwnj_seed());
    vocabulary::law_add_keeps_all(v5, vocabulary::zwnj_seed());
    assert forall|b: u8| encoding::in_utf8(b) implies #[trigger] encoding::spells(v6, b) by {
        assert(encoding::spells(v5, b));
        lemma_spells_extends(v6, v5, b);
    }
}

/// Whatever is listed when a vocabulary is initialized, every text comes back from its
/// tokens.
pub proof fn law_initialized_round_trip(
    aksharas: Seq<AksharaModel>,
    morphemes: Seq<Seq<char>>,
    punctuation: Seq<Seq<char>>,
    strict: Seq<Seq<char>>,
    ambiguous: Seq<Seq<char>>,
    encoder: Seq<char>,
    s: Seq<char>,
)
    requires
        alphabet::is_byte_encoder(encoder),
        vocabulary::added_all(
            Seq::empty(),
            vocabulary::initial_seeds(
                aksharas,
                morphemes,
                punctuation,
                strict,
                ambiguous,
                encoder,
            ),
        ).len() <= usize::MAX,
    ensures
        ({
            let v = vocabulary::added_all(
                Seq::empty(),
                vocabulary::initial_seeds(
                    aksharas,
                    morphemes,
                    punctuation,
                    strict,
                    ambiguous,
                    encoder,
                ),
            );
            encoding::decoded(v, encoding::encoded(v, s, 0)) == s
        }),
{
    let v = vocabulary::added_all(
        Seq::empty(),
        vocabulary::initial_seeds(aksharas, morphemes, punctuation, strict, ambiguous, encoder),
    );
    law_initialized_is_lossless(
        Seq::empty(),
        aksharas,
        morphemes,
        punctuation,
        strict,
        ambiguous,
        encoder,
    );
    encoding::law_round_trip(v, s);
}

/// An initialized vocabulary can be saved, where what it held before could.
pub proof fn law_initialized_is_settled(
    v: Seq<EntryModel>,
    aksharas: Seq<AksharaModel>,
    morphemes: Seq<Seq<char>>,
    punctuation: Seq<Seq<char>>,
    strict: Seq<Seq<char>>,
    ambiguous: Seq<Seq<char>>,
    encoder: Seq<char>,
)
    requires
        settled(v),
        alphabet::is_byte_encoder(encoder),
        vocabulary::added_all(
            v,
            vocabulary::initial_seeds(
                aksharas,
                morphemes,
                punctuation,
                strict,
                ambiguous,
                encoder,
            ),
        ).len() <= usize::MAX,
    ensures
        settled(
            vocabulary::added_all(
                v,
                vocabulary::initial_seeds(
                    aksharas,
                    morphemes,
                    punctuation,
                    strict,
                    ambiguous,
                    encoder,
                ),
            ),
        ),
{
    let all = vocabulary::initial_seeds(
        aksharas,
        morphemes,
        punctuation,
        strict,
        ambiguous,
        encoder,
    );
    lemma_initial_typed(aksharas, morphemes, punctuation, strict, ambiguous, encoder);
    lemma_added_typed(v, all);
    lemma_added_orderly(v, all);
}

/// Tagging keeps a vocabulary lossless, and one that can be saved.
pub proof fn law_tagging_keeps_lossless(v: Seq<EntryModel>, paradigms: Seq<ParadigmModel>)
    requires
        v.len() <= usize::MAX,
    ensures
        encoding::lossless(v) ==> encoding::lossless(vocabulary::tagged_all(v, paradigms)),
        settled(v) ==> settled(vocabulary::tagged_all(v, paradigms)),
{
    let w = vocabulary::tagged_all(v, paradigms);
    vocabulary::lemma_same_tokens(v, w);
    if all_typed(v) {
        assert forall|i: int| 0 <= i < w.len() implies encoding::well_typed(#[trigger] w[i]) by {
            assert(encoding::well_typed(v[i]));
        }
    }
    if encoding::lossless(v) {
        assert(vocabulary::id_of(w, seq![script::ZWNJ]) == vocabulary::id_of(
            v,
            seq![script::ZWNJ],
        ));
        assert forall|b: u8| encoding::in_utf8(b) implies #[trigger] encoding::spells(w, b) by {
            assert(encoding::spells(v, b));
            assert(vocabulary::byte_id_of(w, b) == vocabulary::byte_id_of(v, b));
        }
    }
    if orderly(v) {
        assert forall|i: int, j: int|
            0 <= i < j < w.len() && (#[trigger] w[i]).surface == (#[trigger] w[j]).surface implies {
            ||| w[i].token is ByteFallback == w[j].token is ByteFallback
            ||| own_byte(w[j].token)
        } by {
            assert(v[i].surface == v[j].surface);
        }
    }
}

/// A merge keeps a vocabulary lossless, and one that can be saved.
pub proof fn law_merging_keeps_lossless(
    v: Seq<EntryModel>,
    a: TokenId,
    b: TokenId,
    roots: Seq<RootId>,
)
    requires
        v.len() < usize::MAX,
    ensures
        encoding::lossless(v) ==> encoding::lossless(vocabulary::merged(v, a, b, roots)),
        settled(v) ==> settled(vocabulary::merged(v, a, b, roots)),
{
    let w = vocabulary::merged(v, a, b, roots);
    vocabulary::law_duplicate_merge_guard(v, a, b, roots);
    vocabulary::lemma_id_of(v, vocabulary::surface_of(v, a) + vocabulary::surface_of(v, b));
    if all_typed(v) {
        assert forall|i: int| 0 <= i < w.len() implies encoding::well_typed(#[trigger] w[i]) by {
            if i < v.len() {
                assert(w[i] == v[i]);
            }
        }
    }
    if encoding::lossless(v) {
        lemma_lossless_extends(w, v);
    }
    if orderly(v) {
        assert forall|i: int, j: int|
            0 <= i < j < w.len() && (#[trigger] w[i]).surface == (#[trigger] w[j]).surface implies {
            ||| w[i].token is ByteFallback == w[j].token is ByteFallback
            ||| own_byte(w[j].token)
        } by {
            assert(w[i] == v[i]);
            if j < v.len() {
                assert(w[j] == v[j]);
            }
        }
    }
}

/// Training keeps a vocabulary lossless, and one that can be saved.
pub proof fn law_training_keeps_lossless(rules: TrainRules, st: TrainState, budget: usize)
    requires
        st.vocab.len() <= usize::MAX,
        st.corpus.wf(),
    ensures
        encoding::lossless(st.vocab) ==> encoding::lossless(
            training::trained(rules, st, budget).vocab,
        ),
        settled(st.vocab) ==> settled(training::trained(rules, st, budget).vocab),
    decreases counting::token_count(st.corpus.words),
{
    if !training::stops(rules, st, budget) {
        training::lemma_best(rules, st);
        let c = training::best(rules, st);
        training::lemma_step_shrinks(rules, st, c);
        law_merging_keeps_lossless(
            st.vocab,
            c.a,
            c.b,
            training::narrowed(rules, st.vocab, c.a, c.b),
        );
        law_training_keeps_lossless(rules, training::merge_step(rules, st, c), budget);
    }
}

/// Saving a vocabulary and loading it again keeps it lossless.
pub proof fn law_loading_keeps_lossless(v: Seq<EntryModel>, decoder: Map<u32, u8>)
    requires
        v.len() <= usize::MAX,
        alphabet::is_byte_decoder(decoder),
        encoding::lossless(v),
    ensures
        encoding::lossless(vocabulary::loaded(vocabulary::saved(v), decoder)),
{
    let w = vocabulary::loaded(vocabulary::saved(v), decoder);
    let zwnj = seq![script::ZWNJ];
    vocabulary::law_load_restores_surfaces(v, decoder);
    vocabulary::lemma_id_of(v, zwnj);
    vocabulary::lemma_last_of(v, zwnj);
    assert(v[vocabulary::id_of(v, zwnj)->0 as int].surface == zwnj);
    assert(vocabulary::id_of(w, zwnj) == vocabulary::last_of(v, zwnj));
    assert forall|b: u8| encoding::in_utf8(b) implies #[trigger] encoding::spells(w, b) by {
        let s = seq![alphabet::byte_char(b)];
        assert(encoding::spells(v, b));
        vocabulary::lemma_byte_id_of(v, b);
        vocabulary::lemma_id_of(v, s);
        let id = match vocabulary::byte_id_of(v, b) {
            Some(id) => id,
            None => vocabulary::id_of(v, s)->0,
        };
        assert(encoding::well_typed(v[id as int]));
        assert(w[id as int] == vocabulary::loaded_entry(s, decoder));
        lemma_loaded_byte(b, decoder);
        vocabulary::lemma_byte_id_of(w, b);
        vocabulary::lemma_last_of(v, s);
        assert(vocabulary::id_of(w, s) == vocabulary::last_of(v, s));
    }
    law_loaded_is_settled(vocabulary::saved(v), decoder);
}

/// Every text comes back from its tokens after saving and loading too.
pub proof fn law_saved_round_trip(v: Seq<EntryModel>, decoder: Map<u32, u8>, s: Seq<char>)
    requires
        v.len() <= usize::MAX,
        alphabet::is_byte_decoder(decoder),
        encoding::lossless(v),
    ensures
        ({
            let w = vocabulary::loaded(vocabulary::saved(v), decoder);
            encoding::decoded(w, encoding::encoded(w, s, 0)) == s
        }),
{
    law_loading_keeps_lossless(v, decoder);
    vocabulary::law_load_restores_surfaces(v, decoder);
    encoding::law_round_trip(vocabulary::loaded(vocabulary::saved(v), decoder), s);
}

/// What the surface of a byte is rebuilt as: a letter or digit as Latin, every other as
/// the byte.
proof fn lemma_loaded_byte(b: u8, decoder: Map<u32, u8>)
    requires
        alphabet::is_byte_decoder(decoder),
    ensures
        ({
            let s = seq![alphabet::byte_char(b)];
            if vocabulary::all_alnum(s) {
                alphabet::is_graphic(b) && vocabulary::loaded_token(s, decoder) == TokenModel::Latin(s)
            } else {
                vocabulary::loaded_token(s, decoder) == TokenModel::ByteFallback(b)
            }
        }),
{
    let s = seq![alphabet::byte_char(b)];
    alphabet::law_byte_alphabet(b, b);
    assert(s[0] == alphabet::byte_char(b));
    assert(decoder.contains_key(alphabet::byte_code(b)));
}

/// A vocabulary that was loaded can be saved.
pub proof fn law_loaded_is_settled(pairs: Seq<(TokenId, Seq<char>)>, decoder: Map<u32, u8>)
    requires
        alphabet::is_byte_decoder(decoder),
    ensures
        settled(vocabulary::loaded(pairs, decoder)),
{
    let w = vocabulary::loaded(pairs, decoder);
    assert forall|i: int| 0 <= i < w.len() implies encoding::well_typed(#[trigger] w[i]) by {
        let s = w[i].surface;
        assert(w[i] == vocabulary::loaded_entry(s, decoder));
        if w[i].token is ByteFallback {
            let c = s[0] as u32;
            let b = decoder[c];
            alphabet::law_byte_alphabet(b, b);
            char_u32_cast(s[0], c);
            assert(s =~= seq![alphabet::byte_char(b)]);
        }
    }
    assert forall|i: int, j: int|
        0 <= i < j < w.len() && (#[trigger] w[i]).surface == (#[trigger] w[j]).surface implies {
        ||| w[i].token is ByteFallback == w[j].token is ByteFallback
        ||| own_byte(w[j].token)
    } by {
        assert(w[i] == vocabulary::loaded_entry(w[i].surface, decoder));
        assert(w[j] == vocabulary::loaded_entry(w[j].surface, decoder));
    }
}

// ---------------------------------------------------------------------------
// What encoding and decoding depend on
// ---------------------------------------------------------------------------

/// Whether a surface is a single malformed character. No token is looked up by such a
/// surface, but by its bytes.
spec fn is_malformed(s: Seq<char>) -> bool {
    s.len() == 1 && script::char_script(s[0]) == Script::MAL
}

/// Whether two vocabularies find the same tokens for a text.
spec fn find_alike(v: Seq<EntryModel>, w: Seq<EntryModel>) -> bool {
    &&& forall|s: Seq<char>|
        !is_malformed(s) ==> #[trigger] vocabulary::id_of(w, s) == vocabulary::id_of(v, s)
    &&& forall|b: u8| #[trigger] encoding::byte_token(w, b) == encoding::byte_token(v, b)
}

/// Whether no character of a run is malformed.
spec fn none_malformed(s: Seq<char>) -> bool {
    forall|k: int| 0 <= k < s.len() ==> script::char_script(#[trigger] s[k]) != Script::MAL
}

proof fn lemma_byte_ids_same(v: Seq<EntryModel>, w: Seq<EntryModel>, bytes: Seq<u8>)
    requires
        find_alike(v, w),
    ensures
        encoding::byte_ids(w, bytes) == encoding::byte_ids(v, bytes),
    decreases bytes.len(),
{
    if bytes.len() > 0 {
        lemma_byte_ids_same(v, w, bytes.drop_last());
        assert(encoding::byte_token(w, bytes.last()) == encoding::byte_token(v, bytes.last()));
    }
}

proof fn lemma_match_same(v: Seq<EntryModel>, w: Seq<EntryModel>, s: Seq<char>, i: int, j: int)
    requires
        find_alike(v, w),
        none_malformed(s),
        0 <= i <= j <= s.len(),
    ensures
        encoding::longest_match(w, s, i, j) == encoding::longest_match(v, s, i, j),
        forall|k: int|
            i < k <= j ==> vocabulary::id_of(w, #[trigger] s.subrange(i, k)) == vocabulary::id_of(
                v,
                s.subrange(i, k),
            ),
    decreases j - i,
{
    if j > i {
        lemma_match_same(v, w, s, i, j - 1);
        assert(s.subrange(i, j)[0] == s[i]);
        assert(!is_malformed(s.subrange(i, j)));
    }
}

proof fn lemma_greedy_same(v: Seq<EntryModel>, w: Seq<EntryModel>, s: Seq<char>, i: int)
    requires
        find_alike(v, w),
        none_malformed(s),
    ensures
        encoding::greedy_ids(w, s, i) == encoding::greedy_ids(v, s, i),
    decreases s.len() - i,
{
    if 0 <= i < s.len() {
        lemma_match_same(v, w, s, i, s.len() as int);
        encoding::lemma_longest_match(v, s, i, s.len() as int);
        match encoding::longest_match(v, s, i, s.len() as int) {
            Some(j) => {
                lemma_greedy_same(v, w, s, j);
                assert(vocabulary::id_of(w, s.subrange(i, j)) == vocabulary::id_of(
                    v,
                    s.subrange(i, j),
                ));
            },
            None => {
                lemma_byte_ids_same(v, w, encoding::char_bytes(s[i]));
                lemma_greedy_same(v, w, s, i + 1);
            },
        }
    }
}

proof fn lemma_single_same(v: Seq<EntryModel>, w: Seq<EntryModel>, s: Seq<char>)
    requires
        find_alike(v, w),
        none_malformed(s),
    ensures
        encoding::single_ids(w, s) == encoding::single_ids(v, s),
    decreases s.len(),
{
    if s.len() > 0 {
        let d = s.drop_last();
        assert forall|k: int| 0 <= k < d.len() implies script::char_script(#[trigger] d[k]) != Script::MAL by {
            assert(d[k] == s[k]);
        }
        lemma_single_same(v, w, d);
        lemma_byte_ids_same(v, w, encoding::char_bytes(s.last()));
        let one = seq![s.last()];
        assert(one[0] == s[s.len() - 1]);
        assert(vocabulary::id_of(w, one) == vocabulary::id_of(v, one));
    }
}

proof fn lemma_zwnj_same(v: Seq<EntryModel>, w: Seq<EntryModel>, n: nat)
    requires
        find_alike(v, w),
    ensures
        encoding::zwnj_ids(w, n) == encoding::zwnj_ids(v, n),
    decreases n,
{
    if n > 0 {
        lemma_zwnj_same(v, w, (n - 1) as nat);
        let one = seq![script::ZWNJ];
        assert(one[0] == script::ZWNJ);
        assert(vocabulary::id_of(w, one) == vocabulary::id_of(v, one));
    }
}

proof fn lemma_encoded_same(v: Seq<EntryModel>, w: Seq<EntryModel>, s: Seq<char>, i: int)
    requires
        find_alike(v, w),
    ensures
        encoding::encoded(w, s, i) == encoding::encoded(v, s, i),
    decreases s.len() - i,
{
    if 0 <= i < s.len() {
        encoding::lemma_run_end(s, i, i + 1);
        let e = encoding::run_end(s, i, i + 1);
        let run = s.subrange(i, e);
        if script::char_script(s[i]) != Script::MAL {
            assert forall|k: int| 0 <= k < run.len() implies script::char_script(#[trigger] run[k])
                != Script::MAL by {
                assert(run[k] == s[i + k]);
            }
            lemma_greedy_same(v, w, run, 0);
            lemma_single_same(v, w, run);
            lemma_zwnj_same(v, w, run.len());
        }
        lemma_byte_ids_same(v, w, encode_utf8(run));
        lemma_encoded_same(v, w, s, e);
    }
}

/// A byte is spelled by the same token after saving and loading.
proof fn lemma_byte_token_same(v: Seq<EntryModel>, decoder: Map<u32, u8>, b: u8)
    requires
        v.len() <= usize::MAX,
        settled(v),
        alphabet::is_byte_decoder(decoder),
    ensures
        encoding::byte_token(vocabulary::loaded(vocabulary::saved(v), decoder), b)
            == encoding::byte_token(v, b),
{
    let w = vocabulary::loaded(vocabulary::saved(v), decoder);
    let s = seq![alphabet::byte_char(b)];
    let byte = TokenModel::ByteFallback(b);
    vocabulary::law_load_restores_surfaces(v, decoder);
    law_loaded_is_settled(vocabulary::saved(v), decoder);
    vocabulary::lemma_byte_id_of(v, b);
    vocabulary::lemma_byte_id_of(w, b);
    vocabulary::lemma_id_of(v, s);
    vocabulary::lemma_last_of(v, s);
    lemma_loaded_byte(b, decoder);
    assert(vocabulary::id_of(w, s) == vocabulary::last_of(v, s));
    assert forall|i: int| 0 <= i < v.len() && (#[trigger] v[i]).surface == s
        && v[i].token is ByteFallback implies v[i].token == byte by {
        assert(encoding::well_typed(v[i]));
        let x = v[i].token->ByteFallback_0;
        assert(seq![alphabet::byte_char(x)][0] == s[0]);
        alphabet::law_byte_alphabet(x, b);
    }
    match vocabulary::byte_id_of(v, b) {
        Some(j) => {
            assert(encoding::well_typed(v[j as int]));
            let l = vocabulary::last_of(v, s)->0;
            assert(v[l as int].surface == s);
        },
        None => {
            if vocabulary::is_shared(v, s) {
                let j = choose|j: int|
                    0 <= j < v.len() && (#[trigger] v[j]).surface == s && v[j].token is ByteFallback
                        && vocabulary::id_of(v, s) is Some && vocabulary::id_of(v, s)->0 < j;
                assert(v[j].token == byte);
            }
            assert(vocabulary::id_of(w, s) == vocabulary::id_of(v, s));
        },
    }
    if let Some(k) = vocabulary::byte_id_of(w, b) {
        assert(encoding::well_typed(w[k as int]));
        assert(w[k as int] == vocabulary::loaded_entry(v[k as int].surface, decoder));
        assert(v[k as int].surface == s);
    }
    if let Some(l) = vocabulary::last_of(v, s) {
        assert(v[l as int].surface == s);
        assert(w[l as int] == vocabulary::loaded_entry(s, decoder));
    }
}

/// A vocabulary that was saved and loaded again encodes every text into the same
/// tokens.
pub proof fn law_loading_keeps_encoding(v: Seq<EntryModel>, decoder: Map<u32, u8>, s: Seq<char>)
    requires
        v.len() <= usize::MAX,
        settled(v),
        alphabet::is_byte_decoder(decoder),
    ensures
        encoding::encoded(vocabulary::loaded(vocabulary::saved(v), decoder), s, 0)
            == encoding::encoded(v, s, 0),
{
    let w = vocabulary::loaded(vocabulary::saved(v), decoder);
    vocabulary::law_load_restores_surfaces(v, decoder);
    assert forall|x: Seq<char>| !is_malformed(x) implies #[trigger] vocabulary::id_of(w, x)
        == vocabulary::id_of(v, x) by {
        lemma_not_shared(v, x);
    }
    assert forall|b: u8| #[trigger] encoding::byte_token(w, b) == encoding::byte_token(v, b) by {
        lemma_byte_token_same(v, decoder, b);
    }
    lemma_encoded_same(v, w, s, 0);
}

/// Only a single malformed character can be the surface of a byte and of another token.
proof fn lemma_not_shared(v: Seq<EntryModel>, s: Seq<char>)
    requires
        v.len() <= usize::MAX,
        settled(v),
        !is_malformed(s),
    ensures
        !vocabulary::is_shared(v, s),
{
    if vocabulary::is_shared(v, s) {
        let id = vocabulary::id_of(v, s)->0;
        let j = choose|j: int|
            0 <= j < v.len() && (#[trigger] v[j]).surface == s && v[j].token is ByteFallback
                && vocabulary::id_of(v, s) is Some && vocabulary::id_of(v, s)->0 < j;
        vocabulary::lemma_id_of(v, s);
        vocabulary::lemma_id_of_last(v, s);
        assert(encoding::well_typed(v[j]));
        assert(encoding::well_typed(v[id as int]));
        let b = v[j].token->ByteFallback_0;
        assert(s[0] == alphabet::byte_char(b));
        alphabet::law_byte_alphabet(b, b);
        if let TokenModel::ByteFallback(x) = v[id as int].token {
            assert(seq![alphabet::byte_char(x)][0] == s[0]);
            alphabet::law_byte_alphabet(x, b);
        } else {
            assert(own_byte(v[j].token));
        }
    }
}

/// Whether two vocabularies have the same tokens, with the same surfaces but for
/// those of bytes.
pub open spec fn same_but_alphabet(v: Seq<EntryModel>, w: Seq<EntryModel>) -> bool {
    &&& v.len() == w.len()
    &&& forall|i: int| 0 <= i < v.len() ==> (#[trigger] v[i]).token == (#[trigger] w[i]).token
    &&& forall|i: int|
        0 <= i < v.len() && !((#[trigger] v[i]).token is ByteFallback) ==> v[i].surface
            == w[i].surface
}

/// Decoding goes by the kind of a token: whatever surfaces the bytes have, tokens
/// stand for the same text.
pub proof fn law_decoding_is_by_kind(v: Seq<EntryModel>, w: Seq<EntryModel>, ids: Seq<TokenId>)
    requires
        same_but_alphabet(v, w),
    ensures
        encoding::decoded(v, ids) == encoding::decoded(w, ids),
        encoding::parts_of(v, ids) == encoding::parts_of(w, ids),
    decreases ids.len(),
{
    if ids.len() > 0 {
        law_decoding_is_by_kind(v, w, ids.drop_last());
        let id = ids.last();
        if id < v.len() {
            assert(v[id as int].token == w[id as int].token);
        }
    }
}

/// Encoding takes the longest match: the token at a place of a Devanagari or Latin
/// run is that of the longest surface in the vocabulary that stands there, and only
/// where none does the character is spelled out in bytes.
pub proof fn law_longest_match(v: Seq<EntryModel>, s: Seq<char>, i: int, j: int)
    requires
        v.len() <= usize::MAX,
        0 <= i < j <= s.len(),
        vocabulary::id_of(v, s.subrange(i, j)) is Some,
    ensures
        encoding::greedy_ids(v, s, i).len() > 0,
        surface_length(v, encoding::greedy_ids(v, s, i)[0]) >= j - i,
{
    encoding::lemma_longest_match(v, s, i, s.len() as int);
    let e = encoding::longest_match(v, s, i, s.len() as int)->0;
    vocabulary::lemma_id_of(v, s.subrange(i, e));
}

/// The length of the surface of a token.
pub open spec fn surface_length(v: Seq<EntryModel>, id: TokenId) -> nat {
    vocabulary::surface_of(v, id).len()
}

/// A Latin letter or digit of an initialized vocabulary is a Latin token and no byte,
/// where no akshara, morpheme or punctuation mark takes its surface.
pub proof fn law_latin_is_no_byte(
    aksharas: Seq<AksharaModel>,
    morphemes: Seq<Seq<char>>,
    punctuation: Seq<Seq<char>>,
    strict: Seq<Seq<char>>,
    ambiguous: Seq<Seq<char>>,
    encoder: Seq<char>,
    i: int,
)
    requires
        0 <= i < 62,
        !aksharas.map_values(|a: AksharaModel| a.surface).contains(seq![vocabulary::latin_char(i)]),
        !morphemes.contains(seq![vocabulary::latin_char(i)]),
        !punctuation.contains(seq![vocabulary::latin_char(i)]),
        vocabulary::added_all(
            Seq::empty(),
            vocabulary::initial_seeds(
                aksharas,
                morphemes,
                punctuation,
                strict,
                ambiguous,
                encoder,
            ),
        ).len() <= usize::MAX,
    ensures
        ({
            let v = vocabulary::added_all(
                Seq::empty(),
                vocabulary::initial_seeds(
                    aksharas,
                    morphemes,
                    punctuation,
                    strict,
                    ambiguous,
                    encoder,
                ),
            );
            let id = vocabulary::id_of(v, seq![vocabulary::latin_char(i)]);
            id is Some && v[id->0 as int].token == TokenModel::Latin(
                seq![vocabulary::latin_char(i)],
            ) && v[id->0 as int].script == Script::LAT
        }),
{
    let s1 = vocabulary::akshara_seeds(aksharas);
    let s2 = vocabulary::morpheme_seeds(morphemes, strict, ambiguous);
    let s3 = vocabulary::punctuation_seeds(punctuation);
    let s4 = vocabulary::latin_seeds();
    let s5 = vocabulary::byte_seeds(encoder);
    let v0 = Seq::<EntryModel>::empty();
    let surface = seq![vocabulary::latin_char(i)];
    let all = (s1 + s2 + s3 + s4 + s5).push(vocabulary::zwnj_seed());
    let head = s1 + s2 + s3 + s4.take(i);
    let seed = s4[i];
    let tail = all.skip(head.len() as int + 1);
    assert(all =~= head.push(seed) + tail);
    let surfaces = aksharas.map_values(|a: AksharaModel| a.surface);
    assert forall|k: int| 0 <= k < head.len() implies (#[trigger] head[k]).surface != surface by {
        if k < s1.len() {
            assert(head[k] == s1[k]);
            assert(surfaces[k] == s1[k].surface);
        } else if k < s1.len() + s2.len() {
            assert(head[k] == s2[k - s1.len()]);
            assert(morphemes[k - s1.len()] == head[k].surface);
        } else if k < s1.len() + s2.len() + s3.len() {
            assert(head[k] == s3[k - s1.len() - s2.len()]);
            assert(punctuation[k - s1.len() - s2.len()] == head[k].surface);
        } else {
            let j = k - s1.len() - s2.len() - s3.len();
            assert(head[k] == s4[j]);
            assert(s4[j].surface[0] == vocabulary::latin_char(j));
            assert(surface[0] == vocabulary::latin_char(i));
        }
    }
    lemma_not_added(v0, head, surface);
    let v1 = vocabulary::added_all(v0, head);
    assert(head.push(seed).drop_last() =~= head);
    lemma_added_grows(v0, head.push(seed), tail);
    let v2 = vocabulary::added(v1, seed);
    vocabulary::law_add_keeps_all(v1, seed);
    vocabulary::lemma_added_all_concat(v0, head.push(seed), tail);
    lemma_added_all_keeps(v2, tail);
    vocabulary::lemma_extends(vocabulary::added_all(v2, tail), v2);
    assert(v2[v1.len() as int].token == TokenModel::Latin(surface));
}

/// A surface that nothing brings is not found.
pub proof fn lemma_not_added(v: Seq<EntryModel>, seeds: Seq<Seed>, surface: Seq<char>)
    requires
        vocabulary::id_of(v, surface) is None,
        forall|k: int| 0 <= k < seeds.len() ==> (#[trigger] seeds[k]).surface != surface,
    ensures
        vocabulary::id_of(vocabulary::added_all(v, seeds), surface) is None,
    decreases seeds.len(),
{
    if seeds.len() > 0 {
        let d = seeds.drop_last();
        assert forall|k: int| 0 <= k < d.len() implies (#[trigger] d[k]).surface != surface by {
            assert(d[k] == seeds[k]);
        }
        lemma_not_added(v, d, surface);
        let w = vocabulary::added_all(v, d);
        let x = vocabulary::added(w, seeds.last());
        assert(seeds[seeds.len() - 1].surface != surface);
        if x != w {
            vocabulary::lemma_id_of_push(w, x.last());
        }
    }
}

/// Adding tokens keeps those that were there, and the ids that surfaces are found under.
pub proof fn lemma_added_all_keeps(v: Seq<EntryModel>, seeds: Seq<Seed>)
    requires
        vocabulary::added_all(v, seeds).len() <= usize::MAX,
    ensures
        vocabulary::extends(vocabulary::added_all(v, seeds), v),
        forall|s: Seq<char>|
            vocabulary::id_of(v, s) is Some ==> #[trigger] vocabulary::id_of(
                vocabulary::added_all(v, seeds),
                s,
            ) == vocabulary::id_of(v, s),
    decreases seeds.len(),
{
    if seeds.len() > 0 {
        let d = seeds.drop_last();
        lemma_added_all_keeps(v, d);
        let w = vocabulary::added_all(v, d);
        vocabulary::law_add_keeps_all(w, seeds.last());
        let x = vocabulary::added(w, seeds.last());
        vocabulary::lemma_extends(x, w);
        vocabulary::lemma_extends(w, v);
        assert(x.take(v.len() as int) =~= v);
    } else {
        assert(v.take(v.len() as int) =~= v);
    }
}

} // verus!
