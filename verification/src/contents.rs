//! What an initialized vocabulary holds: what was listed for it, the Latin alphabet, the
//! bytes and the non-joiner, each once.
use crate::alphabet;
use crate::lossless;
use crate::pairs::TokenId;
use crate::script;
use crate::script::Script;
use crate::token::{AksharaModel, RootId, TokenModel};
use crate::vocabulary::{EntryModel, Seed};
use crate::vocabulary;
use vstd::prelude::*;

verus! {

/// Whether an entry has a token with a surface, as it was listed: with these tags and roots,
/// and with the script of its kind.
pub open spec fn is_listed_as(
    e: EntryModel,
    token: TokenModel,
    surface: Seq<char>,
    strict: bool,
    ambiguous: bool,
    roots: Seq<RootId>,
) -> bool {
    &&& e.token == token
    &&& e.surface == surface
    &&& e.script == token.script()
    &&& e.strict == strict
    &&& e.ambiguous == ambiguous
    &&& e.roots == roots
}

/// Whether a surface is found under an entry as it was listed.
pub open spec fn found_as(
    v: Seq<EntryModel>,
    token: TokenModel,
    surface: Seq<char>,
    strict: bool,
    ambiguous: bool,
    roots: Seq<RootId>,
) -> bool {
    exists|id: TokenId|
        id < v.len() && vocabulary::id_of(v, surface) == Some(id) && is_listed_as(
            #[trigger] v[id as int],
            token,
            surface,
            strict,
            ambiguous,
            roots,
        )
}

/// The first that brings a surface has it, as it was listed.
pub proof fn law_the_first_has_the_surface(v: Seq<EntryModel>, seeds: Seq<Seed>, k: int)
    requires
        0 <= k < seeds.len(),
        vocabulary::added_all(v, seeds).len() <= usize::MAX,
        vocabulary::id_of(v, seeds[k].surface) is None,
        forall|j: int| 0 <= j < k ==> (#[trigger] seeds[j]).surface != seeds[k].surface,
    ensures
        found_as(
            vocabulary::added_all(v, seeds),
            seeds[k].token,
            seeds[k].surface,
            seeds[k].strict,
            seeds[k].ambiguous,
            seeds[k].token.own_roots(),
        ),
{
    let head = seeds.take(k);
    let seed = seeds[k];
    let tail = seeds.skip(k + 1);
    assert(seeds =~= head.push(seed) + tail);
    assert forall|j: int| 0 <= j < head.len() implies (#[trigger] head[j]).surface != seed.surface by {
        assert(head[j] == seeds[j]);
    }
    lossless::lemma_not_added(v, head, seed.surface);
    let v1 = vocabulary::added_all(v, head);
    assert(head.push(seed).drop_last() =~= head);
    let v2 = vocabulary::added(v1, seed);
    lossless::lemma_added_grows(v, head.push(seed), tail);
    vocabulary::law_add_keeps_all(v1, seed);
    vocabulary::lemma_added_all_concat(v, head.push(seed), tail);
    lossless::lemma_added_all_keeps(v2, tail);
    let w = vocabulary::added_all(v2, tail);
    vocabulary::lemma_extends(w, v2);
    let id = v1.len() as usize;
    assert(vocabulary::id_of(w, seed.surface) == Some(id));
    assert(w[id as int] == v2[id as int]);
}

/// The surfaces that are listed, in order.
pub open spec fn listed(
    aksharas: Seq<AksharaModel>,
    morphemes: Seq<Seq<char>>,
    punctuation: Seq<Seq<char>>,
) -> Seq<Seq<char>> {
    Seq::new(aksharas.len(), |i: int| aksharas[i].surface) + morphemes + punctuation
}

/// The vocabulary that is initialized with some lists.
pub open spec fn initialized(
    aksharas: Seq<AksharaModel>,
    morphemes: Seq<Seq<char>>,
    punctuation: Seq<Seq<char>>,
    strict: Seq<Seq<char>>,
    ambiguous: Seq<Seq<char>>,
    encoder: Seq<char>,
) -> Seq<EntryModel> {
    vocabulary::added_all(
        Seq::empty(),
        vocabulary::initial_seeds(aksharas, morphemes, punctuation, strict, ambiguous, encoder),
    )
}

/// Every surface that is listed is found, under the first that was listed with it: an akshara
/// with its roots, a morpheme with the tags that the two tag lists give it, or a punctuation
/// mark.
pub proof fn law_listed_surfaces(
    aksharas: Seq<AksharaModel>,
    morphemes: Seq<Seq<char>>,
    punctuation: Seq<Seq<char>>,
    strict: Seq<Seq<char>>,
    ambiguous: Seq<Seq<char>>,
    encoder: Seq<char>,
    k: int,
)
    requires
        initialized(aksharas, morphemes, punctuation, strict, ambiguous, encoder).len()
            <= usize::MAX,
        alphabet::is_byte_encoder(encoder),
        0 <= k < listed(aksharas, morphemes, punctuation).len(),
        forall|j: int|
            0 <= j < k ==> #[trigger] listed(aksharas, morphemes, punctuation)[j] != listed(
                aksharas,
                morphemes,
                punctuation,
            )[k],
    ensures
        ({
            let v = initialized(aksharas, morphemes, punctuation, strict, ambiguous, encoder);
            let s = listed(aksharas, morphemes, punctuation)[k];
            &&& k < aksharas.len() ==> found_as(
                v,
                TokenModel::Akshara(s, aksharas[k].roots),
                s,
                false,
                false,
                aksharas[k].roots,
            )
            &&& aksharas.len() <= k < aksharas.len() + morphemes.len() ==> found_as(
                v,
                TokenModel::SeededMorpheme(s),
                s,
                strict.contains(s),
                ambiguous.contains(s),
                Seq::empty(),
            )
            &&& aksharas.len() + morphemes.len() <= k ==> found_as(
                v,
                TokenModel::Punctuation(s),
                s,
                false,
                false,
                Seq::empty(),
            )
        }),
{
    let all = vocabulary::initial_seeds(
        aksharas,
        morphemes,
        punctuation,
        strict,
        ambiguous,
        encoder,
    );
    let names = listed(aksharas, morphemes, punctuation);
    lemma_listed_seeds(aksharas, morphemes, punctuation, strict, ambiguous, encoder);
    assert forall|j: int| 0 <= j < k implies (#[trigger] all[j]).surface != all[k].surface by {
        assert(all[j].surface == names[j]);
        assert(all[k].surface == names[k]);
    }
    law_the_first_has_the_surface(Seq::empty(), all, k);
    assert(all[k].surface == names[k]);
}

/// What the lists come to as seeds.
proof fn lemma_listed_seeds(
    aksharas: Seq<AksharaModel>,
    morphemes: Seq<Seq<char>>,
    punctuation: Seq<Seq<char>>,
    strict: Seq<Seq<char>>,
    ambiguous: Seq<Seq<char>>,
    encoder: Seq<char>,
)
    ensures
        ({
            let all = vocabulary::initial_seeds(
                aksharas,
                morphemes,
                punctuation,
                strict,
                ambiguous,
                encoder,
            );
            let names = listed(aksharas, morphemes, punctuation);
            let n = names.len() as int;
            &&& all.len() == n + 319
            &&& forall|i: int| 0 <= i < n ==> (#[trigger] all[i]).surface == names[i]
            &&& forall|i: int|
                0 <= i < aksharas.len() ==> (#[trigger] all[i]).token == TokenModel::Akshara(
                    names[i],
                    aksharas[i].roots,
                ) && !all[i].strict && !all[i].ambiguous
            &&& forall|i: int|
                aksharas.len() <= i < aksharas.len() + morphemes.len() ==> (#[trigger] all[i]).token
                    == TokenModel::SeededMorpheme(names[i]) && all[i].strict == strict.contains(
                    names[i],
                ) && all[i].ambiguous == ambiguous.contains(names[i])
            &&& forall|i: int|
                aksharas.len() + morphemes.len() <= i < n ==> (#[trigger] all[i]).token
                    == TokenModel::Punctuation(names[i]) && !all[i].strict && !all[i].ambiguous
            &&& forall|i: int|
                n <= i < n + 62 ==> (#[trigger] all[i]) == vocabulary::plain_seed(
                    TokenModel::Latin(seq![vocabulary::latin_char(i - n)]),
                    seq![vocabulary::latin_char(i - n)],
                )
            &&& forall|i: int|
                n + 62 <= i < n + 318 ==> (#[trigger] all[i]) == vocabulary::plain_seed(
                    TokenModel::ByteFallback((i - n - 62) as u8),
                    seq![encoder[i - n - 62]],
                )
            &&& all[n + 318] == vocabulary::plain_seed(TokenModel::ZWNJ, seq![script::ZWNJ])
        }),
{
    let s1 = vocabulary::akshara_seeds(aksharas);
    let s2 = vocabulary::morpheme_seeds(morphemes, strict, ambiguous);
    let s3 = vocabulary::punctuation_seeds(punctuation);
    let s4 = vocabulary::latin_seeds();
    let s5 = vocabulary::byte_seeds(encoder);
    let all = (s1 + s2 + s3 + s4 + s5).push(vocabulary::zwnj_seed());
    let names = listed(aksharas, morphemes, punctuation);
    let a = s1.len() as int;
    let m = s2.len() as int;
    let n = names.len() as int;
    assert forall|i: int| 0 <= i < a implies #[trigger] all[i] == s1[i] by {}
    assert forall|i: int| a <= i < a + m implies #[trigger] all[i] == s2[i - a] by {}
    assert forall|i: int| a + m <= i < n implies #[trigger] all[i] == s3[i - a - m] by {}
    assert forall|i: int| n <= i < n + 62 implies #[trigger] all[i] == s4[i - n] by {}
    assert forall|i: int| n + 62 <= i < n + 318 implies #[trigger] all[i] == s5[i - n - 62] by {}
}

/// Whether an entry is one that some seed gives.
spec fn is_entry_of(e: EntryModel, seed: Seed) -> bool {
    is_listed_as(e, seed.token, seed.surface, seed.strict, seed.ambiguous, seed.token.own_roots())
}

/// Where all surfaces differ, the tokens are numbered as they are listed.
proof fn lemma_numbered_in_order(seeds: Seq<Seed>)
    requires
        seeds.len() <= usize::MAX,
        forall|i: int, j: int|
            0 <= i < j < seeds.len() ==> (#[trigger] seeds[i]).surface != (
            #[trigger] seeds[j]).surface,
    ensures
        vocabulary::added_all(Seq::empty(), seeds).len() == seeds.len(),
        forall|i: int|
            0 <= i < seeds.len() ==> is_entry_of(
                vocabulary::added_all(Seq::empty(), seeds)[i],
                #[trigger] seeds[i],
            ),
    decreases seeds.len(),
{
    if seeds.len() > 0 {
        let d = seeds.drop_last();
        let seed = seeds.last();
        assert forall|i: int, j: int| 0 <= i < j < d.len() implies (#[trigger] d[i]).surface != (
        #[trigger] d[j]).surface by {
            assert(d[i] == seeds[i] && d[j] == seeds[j]);
        }
        lemma_numbered_in_order(d);
        assert forall|k: int| 0 <= k < d.len() implies (#[trigger] d[k]).surface != seed.surface by {
            assert(d[k] == seeds[k]);
            assert(seeds[seeds.len() - 1] == seed);
        }
        lossless::lemma_not_added(Seq::empty(), d, seed.surface);
        let w = vocabulary::added_all(Seq::empty(), d);
        let x = vocabulary::added_all(Seq::empty(), seeds);
        assert forall|i: int| 0 <= i < seeds.len() implies is_entry_of(x[i], #[trigger] seeds[i]) by {
            if i < d.len() {
                assert(d[i] == seeds[i]);
                assert(is_entry_of(w[i], d[i]));
                assert(x[i] == w[i]);
            }
        }
    }
}

/// Tokens are numbered as they are listed: aksharas first, then morphemes, then punctuation.
/// Where the listed surfaces all differ, the id of each is its place.
pub proof fn law_ids_follow_the_lists(
    aksharas: Seq<AksharaModel>,
    morphemes: Seq<Seq<char>>,
    punctuation: Seq<Seq<char>>,
    strict: Seq<Seq<char>>,
    ambiguous: Seq<Seq<char>>,
    encoder: Seq<char>,
    k: int,
)
    requires
        initialized(aksharas, morphemes, punctuation, strict, ambiguous, encoder).len()
            <= usize::MAX,
        0 <= k < listed(aksharas, morphemes, punctuation).len(),
        forall|i: int, j: int|
            0 <= i < j < listed(aksharas, morphemes, punctuation).len() ==> #[trigger] listed(
                aksharas,
                morphemes,
                punctuation,
            )[i] != #[trigger] listed(aksharas, morphemes, punctuation)[j],
    ensures
        vocabulary::id_of(
            initialized(aksharas, morphemes, punctuation, strict, ambiguous, encoder),
            listed(aksharas, morphemes, punctuation)[k],
        ) == Some(k as usize),
{
    let all = vocabulary::initial_seeds(
        aksharas,
        morphemes,
        punctuation,
        strict,
        ambiguous,
        encoder,
    );
    let names = listed(aksharas, morphemes, punctuation);
    let n = names.len() as int;
    lemma_listed_seeds(aksharas, morphemes, punctuation, strict, ambiguous, encoder);
    let user = all.take(n);
    let rest = all.skip(n);
    let none = Seq::<EntryModel>::empty();
    assert(all =~= user + rest);
    lossless::lemma_added_grows(none, user, rest);
    assert forall|i: int, j: int| 0 <= i < j < user.len() implies (#[trigger] user[i]).surface != (
    #[trigger] user[j]).surface by {
        assert(user[i] == all[i] && user[j] == all[j]);
        assert(names[i] != names[j]);
    }
    lemma_numbered_or_more(user);
    let w = vocabulary::added_all(none, user);
    assert(is_entry_of(w[k], user[k]));
    assert(user[k] == all[k]);
    vocabulary::lemma_id_of(w, names[k]);
    let id = vocabulary::id_of(w, names[k]);
    assert(w[k].surface == names[k]);
    if id->0 != k {
        let j = id->0 as int;
        assert(is_entry_of(w[j], user[j]));
        assert(user[j] == all[j]);
        if j < k {
            assert(names[j] != names[k]);
        } else {
            assert(names[k] != names[j]);
        }
    }
    vocabulary::lemma_added_all_concat(none, user, rest);
    lossless::lemma_added_all_keeps(w, rest);
}

/// As many tokens as fit are numbered as they are listed.
proof fn lemma_numbered_or_more(seeds: Seq<Seed>)
    requires
        vocabulary::added_all(Seq::empty(), seeds).len() <= usize::MAX,
        forall|i: int, j: int|
            0 <= i < j < seeds.len() ==> (#[trigger] seeds[i]).surface != (
            #[trigger] seeds[j]).surface,
    ensures
        vocabulary::added_all(Seq::empty(), seeds).len() == seeds.len(),
        forall|i: int|
            0 <= i < seeds.len() ==> is_entry_of(
                vocabulary::added_all(Seq::empty(), seeds)[i],
                #[trigger] seeds[i],
            ),
{
    if seeds.len() <= usize::MAX {
        lemma_numbered_in_order(seeds);
    } else {
        let n = usize::MAX as int + 1;
        let head = seeds.take(n);
        assert forall|i: int, j: int| 0 <= i < j < head.len() implies (#[trigger] head[i]).surface
            != (#[trigger] head[j]).surface by {
            assert(head[i] == seeds[i] && head[j] == seeds[j]);
        }
        assert(seeds =~= head + seeds.skip(n));
        lossless::lemma_added_grows(Seq::empty(), head, seeds.skip(n));
        let d = head.drop_last();
        assert forall|i: int, j: int| 0 <= i < j < d.len() implies (#[trigger] d[i]).surface != (
        #[trigger] d[j]).surface by {
            assert(d[i] == head[i] && d[j] == head[j]);
        }
        lemma_numbered_in_order(d);
        assert forall|k: int| 0 <= k < d.len() implies (#[trigger] d[k]).surface
            != head.last().surface by {
            assert(d[k] == head[k]);
            assert(head[head.len() - 1] == head.last());
        }
        lossless::lemma_not_added(Seq::empty(), d, head.last().surface);
    }
}

/// Every token of an initialized vocabulary is one that was listed, a letter or digit, a
/// byte or the non-joiner; and a surface has two tokens only where the second is a byte that
/// is no graphic ASCII. So every list entry gives at most one token, and nothing else does.
pub proof fn law_nothing_but_the_lists(
    aksharas: Seq<AksharaModel>,
    morphemes: Seq<Seq<char>>,
    punctuation: Seq<Seq<char>>,
    strict: Seq<Seq<char>>,
    ambiguous: Seq<Seq<char>>,
    encoder: Seq<char>,
    i: int,
    j: int,
)
    requires
        initialized(aksharas, morphemes, punctuation, strict, ambiguous, encoder).len()
            <= usize::MAX,
        0 <= i < initialized(aksharas, morphemes, punctuation, strict, ambiguous, encoder).len(),
    ensures
        ({
            let v = initialized(aksharas, morphemes, punctuation, strict, ambiguous, encoder);
            let s = v[i].surface;
            &&& listed(aksharas, morphemes, punctuation).contains(s) || (s.len() == 1 && (
            script::is_ascii_alnum(s[0]) && v[i].token == TokenModel::Latin(s) || s[0]
                == script::ZWNJ && v[i].token == TokenModel::ZWNJ)) || (v[i].token is ByteFallback
                && s == seq![encoder[v[i].token->ByteFallback_0 as int]])
            &&& i < j < v.len() && v[j].surface == s ==> v[j].token is ByteFallback && !(0x21
                <= v[j].token->ByteFallback_0 <= 0x7E)
        }),
{
    let all = vocabulary::initial_seeds(
        aksharas,
        morphemes,
        punctuation,
        strict,
        ambiguous,
        encoder,
    );
    let names = listed(aksharas, morphemes, punctuation);
    let n = names.len() as int;
    lemma_listed_seeds(aksharas, morphemes, punctuation, strict, ambiguous, encoder);
    lemma_from_seeds(all);
    let v = vocabulary::added_all(Seq::empty(), all);
    let k = choose|k: int| 0 <= k < all.len() && is_entry_of(v[i], #[trigger] all[k]);
    if k < n {
        assert(all[k].surface == names[k]);
        assert(names.contains(names[k]));
    } else if k < n + 62 {
        let c = vocabulary::latin_char(k - n);
        assert(all[k].surface[0] == c);
        assert(script::is_ascii_alnum(c));
    } else if k < n + 318 {
        let b = (k - n - 62) as u8;
        assert(v[i].token == TokenModel::ByteFallback(b));
    } else {
        assert(all[k].surface[0] == script::ZWNJ);
    }
    if i < j < v.len() && v[j].surface == v[i].surface {
        lemma_shared_by_bytes(all, i, j);
    }
}

proof fn lemma_from_seeds(seeds: Seq<Seed>)
    ensures
        forall|i: int|
            0 <= i < vocabulary::added_all(Seq::empty(), seeds).len() ==> exists|k: int|
                0 <= k < seeds.len() && is_entry_of(
                    #[trigger] vocabulary::added_all(Seq::empty(), seeds)[i],
                    #[trigger] seeds[k],
                ),
    decreases seeds.len(),
{
    if seeds.len() > 0 {
        let d = seeds.drop_last();
        lemma_from_seeds(d);
        let w = vocabulary::added_all(Seq::empty(), d);
        let x = vocabulary::added_all(Seq::empty(), seeds);
        assert forall|i: int| 0 <= i < x.len() implies exists|k: int|
            0 <= k < seeds.len() && is_entry_of(#[trigger] x[i], #[trigger] seeds[k]) by {
            if i < w.len() {
                assert(x[i] == w[i]);
                let k = choose|k: int| 0 <= k < d.len() && is_entry_of(w[i], #[trigger] d[k]);
                assert(seeds[k] == d[k]);
            } else {
                assert(is_entry_of(x[i], seeds[seeds.len() - 1]));
            }
        }
    }
}

proof fn lemma_shared_by_bytes(seeds: Seq<Seed>, i: int, j: int)
    requires
        vocabulary::added_all(Seq::empty(), seeds).len() <= usize::MAX,
        0 <= i < j < vocabulary::added_all(Seq::empty(), seeds).len(),
        vocabulary::added_all(Seq::empty(), seeds)[i].surface == vocabulary::added_all(
            Seq::empty(),
            seeds,
        )[j].surface,
    ensures
        vocabulary::added_all(Seq::empty(), seeds)[j].token is ByteFallback,
        !alphabet::is_graphic(vocabulary::added_all(Seq::empty(), seeds)[j].token->ByteFallback_0),
    decreases seeds.len(),
{
    if seeds.len() > 0 {
        let d = seeds.drop_last();
        let w = vocabulary::added_all(Seq::empty(), d);
        let x = vocabulary::added_all(Seq::empty(), seeds);
        assert(x[i] == w[i]);
        if j < w.len() {
            assert(x[j] == w[j]);
            lemma_shared_by_bytes(d, i, j);
        } else {
            vocabulary::lemma_id_of(w, seeds.last().surface);
            assert(w[i].surface == seeds.last().surface);
        }
    }
}

/// Every byte has a token: one of its own where it is no graphic ASCII, and where nothing
/// else has its surface; and the non-joiner has one.
pub proof fn law_every_byte_has_a_token(
    aksharas: Seq<AksharaModel>,
    morphemes: Seq<Seq<char>>,
    punctuation: Seq<Seq<char>>,
    strict: Seq<Seq<char>>,
    ambiguous: Seq<Seq<char>>,
    encoder: Seq<char>,
    b: u8,
)
    requires
        initialized(aksharas, morphemes, punctuation, strict, ambiguous, encoder).len()
            <= usize::MAX,
        alphabet::is_byte_encoder(encoder),
    ensures
        ({
            let v = initialized(aksharas, morphemes, punctuation, strict, ambiguous, encoder);
            let s = seq![encoder[b as int]];
            &&& !(0x21 <= b <= 0x7E) ==> exists|i: int|
                0 <= i < v.len() && (#[trigger] v[i]).token == TokenModel::ByteFallback(b)
            &&& !listed(aksharas, morphemes, punctuation).contains(s) && !script::is_ascii_alnum(
                encoder[b as int],
            ) ==> found_as(v, TokenModel::ByteFallback(b), s, false, false, Seq::empty())
            &&& !listed(aksharas, morphemes, punctuation).contains(seq![script::ZWNJ]) ==> found_as(
                v,
                TokenModel::ZWNJ,
                seq![script::ZWNJ],
                false,
                false,
                Seq::empty(),
            )
        }),
{
    let all = vocabulary::initial_seeds(
        aksharas,
        morphemes,
        punctuation,
        strict,
        ambiguous,
        encoder,
    );
    let names = listed(aksharas, morphemes, punctuation);
    let n = names.len() as int;
    lemma_listed_seeds(aksharas, morphemes, punctuation, strict, ambiguous, encoder);
    let v = vocabulary::added_all(Seq::empty(), all);
    let k = n + 62 + b as int;
    let s = seq![encoder[b as int]];
    assert(all[k].token == TokenModel::ByteFallback(b));
    assert(all[k].surface == s);
    if !alphabet::is_graphic(b) {
        let head = all.take(k);
        let w = vocabulary::added_all(Seq::empty(), head);
        let x = vocabulary::added(w, all[k]);
        let tail = all.skip(k + 1);
        assert(all =~= head.push(all[k]) + tail);
        assert(head.push(all[k]).drop_last() =~= head);
        lossless::lemma_added_grows(Seq::empty(), head.push(all[k]), tail);
        vocabulary::lemma_added_all_concat(Seq::empty(), head.push(all[k]), tail);
        lossless::lemma_added_all_keeps(x, tail);
        vocabulary::lemma_extends(v, x);
        vocabulary::lemma_byte_id_of(w, b);
        let id = match vocabulary::byte_id_of(w, b) {
            Some(id) => id as int,
            None => w.len() as int,
        };
        assert(x[id].token == TokenModel::ByteFallback(b));
        assert(v[id].token == TokenModel::ByteFallback(b));
    }
    if !names.contains(s) && !script::is_ascii_alnum(encoder[b as int]) {
        assert forall|j: int| 0 <= j < k implies (#[trigger] all[j]).surface != s by {
            if j < n {
                assert(names.contains(names[j]));
            } else if j < n + 62 {
                assert(all[j].surface[0] == vocabulary::latin_char(j - n));
                assert(s[0] == encoder[b as int]);
                assert(script::is_ascii_alnum(vocabulary::latin_char(j - n)));
            } else {
                let c = (j - n - 62) as u8;
                assert(all[j].surface[0] == encoder[c as int]);
                assert(encoder[c as int] == alphabet::byte_char(c));
                assert(encoder[b as int] == alphabet::byte_char(b));
                assert(s[0] == encoder[b as int]);
                alphabet::law_byte_alphabet(c, b);
            }
        }
        law_the_first_has_the_surface(Seq::empty(), all, k);
    }
    let z = seq![script::ZWNJ];
    if !names.contains(z) {
        let e = n + 318;
        assert(all[e].surface == z);
        assert forall|j: int| 0 <= j < e implies (#[trigger] all[j]).surface != z by {
            assert(z[0] == script::ZWNJ);
            if j < n {
                assert(names.contains(names[j]));
            } else if j < n + 62 {
                assert(all[j].surface[0] == vocabulary::latin_char(j - n));
            } else {
                let c = (j - n - 62) as u8;
                assert(all[j].surface[0] == encoder[c as int]);
                assert(encoder[c as int] == alphabet::byte_char(c));
                alphabet::law_byte_alphabet(c, c);
            }
        }
        law_the_first_has_the_surface(Seq::empty(), all, e);
    }
}

/// Every letter and digit is found under a Latin token, where it is not listed.
pub proof fn law_every_letter_has_a_token(
    aksharas: Seq<AksharaModel>,
    morphemes: Seq<Seq<char>>,
    punctuation: Seq<Seq<char>>,
    strict: Seq<Seq<char>>,
    ambiguous: Seq<Seq<char>>,
    encoder: Seq<char>,
    c: char,
)
    requires
        initialized(aksharas, morphemes, punctuation, strict, ambiguous, encoder).len()
            <= usize::MAX,
        script::is_ascii_alnum(c),
        !listed(aksharas, morphemes, punctuation).contains(seq![c]),
    ensures
        found_as(
            initialized(aksharas, morphemes, punctuation, strict, ambiguous, encoder),
            TokenModel::Latin(seq![c]),
            seq![c],
            false,
            false,
            Seq::empty(),
        ),
        TokenModel::Latin(seq![c]).script() == Script::LAT,
{
    let all = vocabulary::initial_seeds(
        aksharas,
        morphemes,
        punctuation,
        strict,
        ambiguous,
        encoder,
    );
    let names = listed(aksharas, morphemes, punctuation);
    let n = names.len() as int;
    lemma_listed_seeds(aksharas, morphemes, punctuation, strict, ambiguous, encoder);
    let i = if 'a' <= c <= 'z' {
        c as int - 'a' as int
    } else if 'A' <= c <= 'Z' {
        c as int - 'A' as int + 26
    } else {
        c as int - '0' as int + 52
    };
    assert(vocabulary::latin_char(i) == c);
    let s = seq![c];
    assert(all[n + i].surface == s);
    assert forall|j: int| 0 <= j < n + i implies (#[trigger] all[j]).surface != s by {
        assert(s[0] == c);
        if j < n {
            assert(names.contains(names[j]));
        } else {
            assert(all[j].surface[0] == vocabulary::latin_char(j - n));
        }
    }
    law_the_first_has_the_surface(Seq::empty(), all, n + i);
}

} // verus!
