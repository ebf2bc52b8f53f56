//! The vocabulary: numbered tokens, found by their surface, and those of bytes by their
//! byte.
use crate::alphabet;
use crate::encoding;
use crate::lossless;
use crate::pairs::TokenId;
use crate::paradigm::{ParadigmModel, ParadigmRegistry};
use crate::paradigm;
use crate::script;
use crate::script::Script;
use crate::sorting;
use crate::text;
use crate::token::{Akshara, AksharaModel, RootId, Token, TokenModel};
use crate::token;
use std::collections::HashMap;
use std::sync::Arc;
use vstd::hash_map::StringHashMap;
use vstd::prelude::*;
use vstd::string::*;

verus! {

/// All that is known of a token.
pub struct EntryModel {
    pub token: TokenModel,
    pub surface: Seq<char>,
    pub script: Script,
    pub strict: bool,
    pub ambiguous: bool,
    pub roots: Seq<RootId>,
}

/// The id of a surface: that of the last token that has it. But the token of a byte
/// takes a surface from no other token.
pub open spec fn id_of(v: Seq<EntryModel>, surface: Seq<char>) -> Option<TokenId>
    decreases v.len(),
{
    if v.len() == 0 {
        None
    } else {
        let before = id_of(v.drop_last(), surface);
        if v.last().surface == surface && !gives_way(v.drop_last(), before, v.last().token) {
            Some((v.len() - 1) as usize)
        } else {
            before
        }
    }
}

/// Whether a token leaves its surface to the one that has it already: it is the token
/// of a byte, and the other is another token.
pub open spec fn gives_way(v: Seq<EntryModel>, found: Option<TokenId>, token: TokenModel) -> bool {
    token is ByteFallback && found is Some && v[found->0 as int].token != token
}

/// The id of the token of a byte: that of the last one.
pub open spec fn byte_id_of(v: Seq<EntryModel>, b: u8) -> Option<TokenId>
    decreases v.len(),
{
    if v.len() == 0 {
        None
    } else if v.last().token == TokenModel::ByteFallback(b) {
        Some((v.len() - 1) as usize)
    } else {
        byte_id_of(v.drop_last(), b)
    }
}

/// Whether the token of a byte has one character for a surface.
pub open spec fn bytes_visible(v: Seq<EntryModel>) -> bool {
    forall|i: int|
        0 <= i < v.len() && (#[trigger] v[i]).token is ByteFallback ==> v[i].surface.len() == 1
}

/// The length of the longest surface.
pub open spec fn longest(v: Seq<EntryModel>) -> nat
    decreases v.len(),
{
    if v.len() == 0 {
        0
    } else if v.last().surface.len() > longest(v.drop_last()) {
        v.last().surface.len()
    } else {
        longest(v.drop_last())
    }
}

/// The surface of a token; empty where there is no such token.
pub open spec fn surface_of(v: Seq<EntryModel>, id: TokenId) -> Seq<char> {
    if id < v.len() {
        v[id as int].surface
    } else {
        Seq::empty()
    }
}

/// The script of a token. An unknown token counts as malformed.
pub open spec fn script_of(v: Seq<EntryModel>, id: TokenId) -> Script {
    if id < v.len() {
        v[id as int].script
    } else {
        Script::MAL
    }
}

/// Whether a token is tagged as strict.
pub open spec fn strict_in(v: Seq<EntryModel>, id: TokenId) -> bool {
    id < v.len() && v[id as int].strict
}

/// Whether a token is tagged as ambiguous.
pub open spec fn ambiguous_in(v: Seq<EntryModel>, id: TokenId) -> bool {
    id < v.len() && v[id as int].ambiguous
}

/// The paradigm roots of a token.
pub open spec fn roots_of(v: Seq<EntryModel>, id: TokenId) -> Seq<RootId> {
    if id < v.len() {
        v[id as int].roots
    } else {
        Seq::empty()
    }
}

/// A token that is to be added under a surface, with its tags.
pub struct Seed {
    pub token: TokenModel,
    pub surface: Seq<char>,
    pub strict: bool,
    pub ambiguous: bool,
}

/// A seed without tags.
pub open spec fn plain_seed(token: TokenModel, surface: Seq<char>) -> Seed {
    Seed { token, surface, strict: false, ambiguous: false }
}

/// Whether a seed is the token of a byte that needs one: graphic ASCII can be spelled
/// by any token that has its surface, every other byte only by a token of its own.
pub open spec fn is_needed(v: Seq<EntryModel>, seed: Seed) -> bool {
    match seed.token {
        TokenModel::ByteFallback(b) => !alphabet::is_graphic(b) && byte_id_of(v, b) is None,
        _ => false,
    }
}

/// A vocabulary with one more token. Where the surface is taken already nothing
/// changes, unless a byte needs the token.
pub open spec fn added(v: Seq<EntryModel>, seed: Seed) -> Seq<EntryModel> {
    if id_of(v, seed.surface) is Some && !is_needed(v, seed) {
        v
    } else {
        v.push(
            EntryModel {
                token: seed.token,
                surface: seed.surface,
                script: seed.token.script(),
                strict: seed.strict,
                ambiguous: seed.ambiguous,
                roots: seed.token.own_roots(),
            },
        )
    }
}

/// The id under which a surface is found once it was added.
pub open spec fn added_id(v: Seq<EntryModel>, surface: Seq<char>) -> TokenId {
    match id_of(v, surface) {
        Some(id) => id,
        None => v.len() as usize,
    }
}

/// A vocabulary with more tokens, added in order.
pub open spec fn added_all(v: Seq<EntryModel>, seeds: Seq<Seed>) -> Seq<EntryModel>
    decreases seeds.len(),
{
    if seeds.len() == 0 {
        v
    } else {
        added(added_all(v, seeds.drop_last()), seeds.last())
    }
}

/// The tokens that base aksharas are added as.
pub open spec fn akshara_seeds(aksharas: Seq<AksharaModel>) -> Seq<Seed> {
    aksharas.map_values(
        |a: AksharaModel| plain_seed(TokenModel::Akshara(a.surface, a.roots), a.surface),
    )
}

/// The tokens that seed morphemes are added as. Those that are listed as strict
/// or as ambiguous are tagged so.
pub open spec fn morpheme_seeds(
    morphemes: Seq<Seq<char>>,
    strict: Seq<Seq<char>>,
    ambiguous: Seq<Seq<char>>,
) -> Seq<Seed> {
    morphemes.map_values(
        |m: Seq<char>|
            Seed {
                token: TokenModel::SeededMorpheme(m),
                surface: m,
                strict: strict.contains(m),
                ambiguous: ambiguous.contains(m),
            },
    )
}

/// The tokens that punctuation is added as.
pub open spec fn punctuation_seeds(punctuation: Seq<Seq<char>>) -> Seq<Seed> {
    punctuation.map_values(|p: Seq<char>| plain_seed(TokenModel::Punctuation(p), p))
}

/// The Latin letters, the small ones first, and the digits.
pub open spec fn latin_char(i: int) -> char {
    if i < 26 {
        ('a' as int + i) as char
    } else if i < 52 {
        ('A' as int + i - 26) as char
    } else {
        ('0' as int + i - 52) as char
    }
}

/// The tokens of the Latin letters and digits.
pub open spec fn latin_seeds() -> Seq<Seed> {
    Seq::new(62, |i: int| plain_seed(TokenModel::Latin(seq![latin_char(i)]), seq![latin_char(i)]))
}

/// The tokens of the bytes, under the surfaces that an alphabet gives them.
pub open spec fn byte_seeds(encoder: Seq<char>) -> Seq<Seed> {
    Seq::new(256, |b: int| plain_seed(TokenModel::ByteFallback(b as u8), seq![encoder[b]]))
}

/// The token of the zero width non-joiner.
pub open spec fn zwnj_seed() -> Seed {
    plain_seed(TokenModel::ZWNJ, seq![script::ZWNJ])
}

/// Everything that a vocabulary starts with, in order: the Latin alphabet comes
/// before the bytes, so that a letter is a Latin token and no byte.
pub open spec fn initial_seeds(
    aksharas: Seq<AksharaModel>,
    morphemes: Seq<Seq<char>>,
    punctuation: Seq<Seq<char>>,
    strict: Seq<Seq<char>>,
    ambiguous: Seq<Seq<char>>,
    encoder: Seq<char>,
) -> Seq<Seed> {
    (akshara_seeds(aksharas) + morpheme_seeds(morphemes, strict, ambiguous) + punctuation_seeds(
        punctuation,
    ) + latin_seeds() + byte_seeds(encoder)).push(zwnj_seed())
}

/// A vocabulary with the token that two tokens merge into. It has the script of
/// the left one. Where the merged surface is taken already nothing changes.
pub open spec fn merged(v: Seq<EntryModel>, a: TokenId, b: TokenId, roots: Seq<RootId>) -> Seq<
    EntryModel,
> {
    let surface = surface_of(v, a) + surface_of(v, b);
    if id_of(v, surface) is Some {
        v
    } else {
        v.push(
            EntryModel {
                token: TokenModel::MergedToken(seq![a, b]),
                surface,
                script: if a < v.len() {
                    v[a as int].script
                } else {
                    Script::DEV
                },
                strict: false,
                ambiguous: false,
                roots,
            },
        )
    }
}

/// The id of the token that two tokens merge into.
pub open spec fn merged_id(v: Seq<EntryModel>, a: TokenId, b: TokenId) -> TokenId {
    added_id(v, surface_of(v, a) + surface_of(v, b))
}

/// An entry with the roots that its surface is a prefix of, where there are any
/// and where its token takes roots.
pub open spec fn tagged(e: EntryModel, paradigms: Seq<ParadigmModel>) -> EntryModel {
    let roots = paradigm::roots_with_prefix(paradigms, e.surface);
    if e.token.takes_roots() && roots.len() > 0 {
        EntryModel { roots, ..e }
    } else {
        e
    }
}

/// A vocabulary with the roots of its tokens looked up in a registry.
pub open spec fn tagged_all(v: Seq<EntryModel>, paradigms: Seq<ParadigmModel>) -> Seq<EntryModel> {
    v.map_values(|e: EntryModel| tagged(e, paradigms))
}

/// Whether a surface has no character but ASCII letters and digits.
pub open spec fn all_alnum(surface: Seq<char>) -> bool {
    forall|i: int| 0 <= i < surface.len() ==> script::is_ascii_alnum(#[trigger] surface[i])
}

/// The token that is rebuilt from a surface. Letters and digits are Latin, though a
/// single one stands for a byte too; the surface of any other byte is that byte; and all
/// else, the empty surface too, is known by its surface alone.
pub open spec fn loaded_token(surface: Seq<char>, decoder: Map<u32, u8>) -> TokenModel {
    if surface.len() > 0 && all_alnum(surface) {
        TokenModel::Latin(surface)
    } else if surface.len() == 1 && decoder.contains_key(surface[0] as u32) {
        TokenModel::ByteFallback(decoder[surface[0] as u32])
    } else {
        TokenModel::Loaded(surface)
    }
}

/// The entry that is rebuilt from a surface.
pub open spec fn loaded_entry(surface: Seq<char>, decoder: Map<u32, u8>) -> EntryModel {
    EntryModel {
        token: loaded_token(surface, decoder),
        surface,
        script: loaded_token(surface, decoder).script(),
        strict: false,
        ambiguous: false,
        roots: Seq::empty(),
    }
}

/// The ids and surfaces of a list of pairs.
pub open spec fn saved_pairs(pairs: Seq<(TokenId, String)>) -> Seq<(TokenId, Seq<char>)> {
    pairs.map_values(|p: (TokenId, String)| (p.0, p.1@))
}

/// The vocabulary that is rebuilt from pairs of an id and a surface: the tokens
/// in the order of their ids.
pub open spec fn loaded(pairs: Seq<(TokenId, Seq<char>)>, decoder: Map<u32, u8>) -> Seq<EntryModel> {
    sorting::sort_by(pairs, sorting::number_of::<Seq<char>>()).map_values(
        |p: (TokenId, Seq<char>)| loaded_entry(p.1, decoder),
    )
}

/// The pairs that a vocabulary is saved as.
pub open spec fn saved(v: Seq<EntryModel>) -> Seq<(TokenId, Seq<char>)> {
    Seq::new(v.len(), |i: int| (i as usize, v[i].surface))
}

// ---------------------------------------------------------------------------
// Facts about surfaces and ids
// ---------------------------------------------------------------------------

/// An id that a surface has is that of a token with the surface.
pub proof fn lemma_id_of(v: Seq<EntryModel>, surface: Seq<char>)
    requires
        v.len() <= usize::MAX,
    ensures
        match id_of(v, surface) {
            Some(id) => id < v.len() && v[id as int].surface == surface,
            None => forall|i: int| 0 <= i < v.len() ==> (#[trigger] v[i]).surface != surface,
        },
    decreases v.len(),
{
    if v.len() > 0 {
        let d = v.drop_last();
        lemma_id_of(d, surface);
        if id_of(v, surface) is None {
            assert forall|i: int| 0 <= i < v.len() implies (#[trigger] v[i]).surface != surface by {
                if i < d.len() {
                    assert(d[i] == v[i]);
                }
            }
        }
    }
}

/// An id that a byte has is that of a token of the byte, and there is none behind it.
pub proof fn lemma_byte_id_of(v: Seq<EntryModel>, b: u8)
    requires
        v.len() <= usize::MAX,
    ensures
        match byte_id_of(v, b) {
            Some(id) => id < v.len() && v[id as int].token == TokenModel::ByteFallback(b),
            None => true,
        },
        forall|i: int|
            0 <= i < v.len() && (#[trigger] v[i]).token == TokenModel::ByteFallback(b)
                ==> byte_id_of(v, b) is Some && i <= byte_id_of(v, b)->0,
    decreases v.len(),
{
    if v.len() > 0 && v.last().token != TokenModel::ByteFallback(b) {
        let d = v.drop_last();
        lemma_byte_id_of(d, b);
        assert forall|i: int|
            0 <= i < v.len() && (#[trigger] v[i]).token == TokenModel::ByteFallback(b) implies byte_id_of(
            v,
            b,
        ) is Some && i <= byte_id_of(v, b)->0 by {
            assert(d[i] == v[i]);
        }
    }
}

/// No surface is longer than the longest.
pub proof fn lemma_longest(v: Seq<EntryModel>, i: int)
    requires
        0 <= i < v.len(),
    ensures
        v[i].surface.len() <= longest(v),
    decreases v.len(),
{
    if i < v.len() - 1 {
        lemma_longest(v.drop_last(), i);
    }
}

/// What is found after one more token was put at the end.
pub proof fn lemma_id_of_push(v: Seq<EntryModel>, e: EntryModel)
    ensures
        forall|s: Seq<char>| #[trigger]
            id_of(v.push(e), s) == (if s == e.surface && !gives_way(v, id_of(v, s), e.token) {
                Some(v.len() as usize)
            } else {
                id_of(v, s)
            }),
        forall|b: u8| #[trigger]
            byte_id_of(v.push(e), b) == (if e.token == TokenModel::ByteFallback(b) {
                Some(v.len() as usize)
            } else {
                byte_id_of(v, b)
            }),
        longest(v.push(e)) == (if e.surface.len() > longest(v) {
            e.surface.len()
        } else {
            longest(v)
        }),
{
    assert(v.push(e).drop_last() =~= v);
}

proof fn lemma_added_all_push(v: Seq<EntryModel>, seeds: Seq<Seed>, seed: Seed)
    ensures
        added_all(v, seeds.push(seed)) == added(added_all(v, seeds), seed),
{
    assert(seeds.push(seed).drop_last() =~= seeds);
}

/// Tokens can be added in two goes.
pub proof fn lemma_added_all_concat(v: Seq<EntryModel>, x: Seq<Seed>, y: Seq<Seed>)
    ensures
        added_all(v, x + y) == added_all(added_all(v, x), y),
    decreases y.len(),
{
    if y.len() == 0 {
        assert(x + y =~= x);
    } else {
        lemma_added_all_concat(v, x, y.drop_last());
        assert((x + y).drop_last() =~= x + y.drop_last());
    }
}

// ---------------------------------------------------------------------------
// The vocabulary
// ---------------------------------------------------------------------------

struct Entry {
    token: Arc<Token>,
    surface: String,
    script: Script,
    strict: bool,
    ambiguous: bool,
    roots: Vec<RootId>,
}

impl Entry {
    spec fn model(self) -> EntryModel {
        EntryModel {
            token: (*self.token)@,
            surface: self.surface@,
            script: self.script,
            strict: self.strict,
            ambiguous: self.ambiguous,
            roots: self.roots@,
        }
    }
}

/// A vocabulary. Its model is the sequence of its entries; the id of a token is
/// its place there.
pub struct Vocabulary {
    entries: Vec<Entry>,
    surface_to_id: StringHashMap<TokenId>,
    byte_to_id: HashMap<u8, TokenId>,
    max_surface_len: usize,
}

impl View for Vocabulary {
    type V = Seq<EntryModel>;

    closed spec fn view(&self) -> Seq<EntryModel> {
        self.entries@.map_values(|e: Entry| e.model())
    }
}

impl Vocabulary {
    /// A vocabulary is valid when each surface and each byte is found under its id, and
    /// nothing else is found.
    pub closed spec fn wf(&self) -> bool {
        &&& forall|s: Seq<char>|
            #![trigger self.surface_to_id@.contains_key(s)]
            #![trigger id_of(self@, s)]
            match id_of(self@, s) {
                Some(id) => self.surface_to_id@.contains_key(s) && self.surface_to_id@[s] == id,
                None => !self.surface_to_id@.contains_key(s),
            }
        &&& forall|b: u8|
            #![trigger self.byte_to_id@.contains_key(b)]
            #![trigger byte_id_of(self@, b)]
            match byte_id_of(self@, b) {
                Some(id) => self.byte_to_id@.contains_key(b) && self.byte_to_id@[b] == id,
                None => !self.byte_to_id@.contains_key(b),
            }
        &&& self.max_surface_len == longest(self@)
        &&& bytes_visible(self@)
    }

    /// The token of a byte has one character for a surface.
    pub proof fn lemma_bytes_visible(&self)
        requires
            self.wf(),
        ensures
            bytes_visible(self@),
    {
    }

    /// A vocabulary has no more tokens than can be numbered.
    pub proof fn lemma_len(&self)
        ensures
            self@.len() <= usize::MAX,
    {
        assert(self.entries@.len() == self.entries.len());
    }

    /// A vocabulary without tokens.
    pub fn new() -> (r: Self)
        ensures
            r.wf(),
            r@ == Seq::<EntryModel>::empty(),
    {
        let r = Vocabulary {
            entries: Vec::new(),
            surface_to_id: StringHashMap::new(),
            byte_to_id: HashMap::new(),
            max_surface_len: 0,
        };
        assert(r@ =~= Seq::<EntryModel>::empty());
        r
    }

    /// Whether a token leaves its surface to the one that has it already.
    fn leaves_surface(&self, token: &Token, surface: &str) -> (r: bool)
        requires
            self.wf(),
        ensures
            r == gives_way(self@, id_of(self@, surface@), token@),
    {
        let b: u8 = match token {
            Token::ByteFallback(b) => *b,
            _ => {
                return false;
            },
        };
        proof {
            self.lemma_len();
            lemma_id_of(self@, surface@);
        }
        match self.get_id_by_surface(surface) {
            Some(id) => match &*self.entries[id].token {
                Token::ByteFallback(other) => *other != b,
                _ => true,
            },
            None => false,
        }
    }

    /// Puts an entry at the end. What had its surface before is not found under it any
    /// more, unless the entry is that of a byte and leaves the surface.
    fn push_entry(&mut self, entry: Entry)
        requires
            old(self).wf(),
            entry.model().token is ByteFallback ==> entry.model().surface.len() == 1,
        ensures
            final(self).wf(),
            final(self)@ == old(self)@.push(entry.model()),
    {
        let id: usize = self.entries.len();
        let clen: usize = entry.surface.as_str().unicode_len();
        if !self.leaves_surface(&entry.token, entry.surface.as_str()) {
            self.surface_to_id.insert(entry.surface.clone(), id);
        }
        if clen > self.max_surface_len {
            self.max_surface_len = clen;
        }
        if let Token::ByteFallback(b) = &*entry.token {
            self.byte_to_id.insert(*b, id);
        }
        self.entries.push(entry);
        proof {
            assert(self@ =~= old(self)@.push(entry.model()));
            lemma_id_of_push(old(self)@, entry.model());
        }
    }

    /// Adds a token under a surface, unless the surface is taken already and no byte
    /// needs the token.
    fn add_token(
        &mut self,
        token: Arc<Token>,
        surface: String,
        is_strict: bool,
        is_ambiguous: bool,
    )
        requires
            old(self).wf(),
            (*token)@ is ByteFallback ==> surface@.len() == 1,
        ensures
            final(self).wf(),
            final(self)@ == added(
                old(self)@,
                (Seed {
                    token: (*token)@,
                    surface: surface@,
                    strict: is_strict,
                    ambiguous: is_ambiguous,
                }),
            ),
    {
        let needed = match &*token {
            Token::ByteFallback(b) => !(0x21 <= *b && *b <= 0x7E) && self.get_id_by_byte(
                *b,
            ).is_none(),
            _ => false,
        };
        if !needed && self.contains_surface(surface.as_str()) {
            return;
        }
        let script = token.script();
        let mut roots: Vec<RootId> = Vec::new();
        if let Token::Akshara(a) = &*token {
            roots = a.root_set.clone();
        }
        assert(roots@ =~= (*token)@.own_roots());
        self.push_entry(
            Entry { token, surface, script, strict: is_strict, ambiguous: is_ambiguous, roots },
        );
    }

    /// Adds the base aksharas.
    fn add_aksharas(&mut self, base_aksharas: Vec<Akshara>)
        requires
            old(self).wf(),
        ensures
            final(self).wf(),
            final(self)@ == added_all(old(self)@, akshara_seeds(token::akshara_models(base_aksharas@))),
    {
        let ghost v0 = self@;
        let ghost seeds = akshara_seeds(token::akshara_models(base_aksharas@));
        for akshara in it: base_aksharas
            invariant
                it.seq() == base_aksharas@,
                self.wf(),
                seeds == akshara_seeds(token::akshara_models(base_aksharas@)),
                self@ == added_all(v0, seeds.take(it.index() as int)),
        {
            proof {
                let k = it.index() as int;
                assert(seeds.take(k + 1) =~= seeds.take(k).push(seeds[k]));
                lemma_added_all_push(v0, seeds.take(k), seeds[k]);
            }
            let surface = akshara.surface.clone();
            self.add_token(Arc::new(Token::Akshara(akshara)), surface, false, false);
        }
        assert(seeds.take(seeds.len() as int) =~= seeds);
    }

    /// Adds the seed morphemes, with their tags.
    fn add_morphemes(
        &mut self,
        seed_morphemes: Vec<String>,
        v_strict: Vec<String>,
        v_ambiguous: Vec<String>,
    )
        requires
            old(self).wf(),
        ensures
            final(self).wf(),
            final(self)@ == added_all(
                old(self)@,
                morpheme_seeds(
                    text::texts(seed_morphemes@),
                    text::texts(v_strict@),
                    text::texts(v_ambiguous@),
                ),
            ),
    {
        let ghost v0 = self@;
        let ghost seeds = morpheme_seeds(
            text::texts(seed_morphemes@),
            text::texts(v_strict@),
            text::texts(v_ambiguous@),
        );
        let strict = text::string_set(&v_strict);
        let ambiguous = text::string_set(&v_ambiguous);
        for morph in it: seed_morphemes
            invariant
                it.seq() == seed_morphemes@,
                self.wf(),
                strict@ == text::texts(v_strict@).to_set(),
                ambiguous@ == text::texts(v_ambiguous@).to_set(),
                seeds == morpheme_seeds(
                    text::texts(seed_morphemes@),
                    text::texts(v_strict@),
                    text::texts(v_ambiguous@),
                ),
                self@ == added_all(v0, seeds.take(it.index() as int)),
        {
            proof {
                let k = it.index() as int;
                assert(seeds.take(k + 1) =~= seeds.take(k).push(seeds[k]));
                lemma_added_all_push(v0, seeds.take(k), seeds[k]);
            }
            let surface = morph.clone();
            let is_strict = strict.contains(morph.as_str());
            let is_ambiguous = ambiguous.contains(morph.as_str());
            self.add_token(
                Arc::new(Token::SeededMorpheme(morph)),
                surface,
                is_strict,
                is_ambiguous,
            );
        }
        assert(seeds.take(seeds.len() as int) =~= seeds);
    }

    /// Adds the punctuation.
    fn add_punctuation(&mut self, punctuation: Vec<String>)
        requires
            old(self).wf(),
        ensures
            final(self).wf(),
            final(self)@ == added_all(
                old(self)@,
                punctuation_seeds(text::texts(punctuation@)),
            ),
    {
        let ghost v0 = self@;
        let ghost seeds = punctuation_seeds(text::texts(punctuation@));
        for punct in it: punctuation
            invariant
                it.seq() == punctuation@,
                self.wf(),
                seeds == punctuation_seeds(text::texts(punctuation@)),
                self@ == added_all(v0, seeds.take(it.index() as int)),
        {
            proof {
                let k = it.index() as int;
                assert(seeds.take(k + 1) =~= seeds.take(k).push(seeds[k]));
                lemma_added_all_push(v0, seeds.take(k), seeds[k]);
            }
            let surface = punct.clone();
            self.add_token(Arc::new(Token::Punctuation(punct)), surface, false, false);
        }
        assert(seeds.take(seeds.len() as int) =~= seeds);
    }

    /// Adds the Latin letters and the digits.
    fn add_latin(&mut self)
        requires
            old(self).wf(),
        ensures
            final(self).wf(),
            final(self)@ == added_all(old(self)@, latin_seeds()),
    {
        let ghost v0 = self@;
        let ghost seeds = latin_seeds();
        let mut i: u8 = 0;
        while i < 62
            invariant
                i <= 62,
                self.wf(),
                seeds == latin_seeds(),
                self@ == added_all(v0, seeds.take(i as int)),
            decreases 62 - i,
        {
            proof {
                let k = i as int;
                assert(seeds.take(k + 1) =~= seeds.take(k).push(seeds[k]));
                lemma_added_all_push(v0, seeds.take(k), seeds[k]);
            }
            let code: u8 = if i < 26 {
                97 + i
            } else if i < 52 {
                65 + (i - 26)
            } else {
                48 + (i - 52)
            };
            let ch: char = code as char;
            assert(ch == latin_char(i as int));
            let token = Token::Latin(text::char_string(ch));
            self.add_token(Arc::new(token), text::char_string(ch), false, false);
            i += 1;
        }
        assert(seeds.take(seeds.len() as int) =~= seeds);
    }

    /// Adds a token for each byte, under the surface that the alphabet gives it.
    fn add_bytes(&mut self, byte_encoder: &[char; 256])
        requires
            old(self).wf(),
        ensures
            final(self).wf(),
            final(self)@ == added_all(old(self)@, byte_seeds(byte_encoder@)),
    {
        let ghost v0 = self@;
        let ghost seeds = byte_seeds(byte_encoder@);
        let mut i: usize = 0;
        while i < 256
            invariant
                i <= 256,
                self.wf(),
                seeds == byte_seeds(byte_encoder@),
                self@ == added_all(v0, seeds.take(i as int)),
            decreases 256 - i,
        {
            proof {
                let k = i as int;
                assert(seeds.take(k + 1) =~= seeds.take(k).push(seeds[k]));
                lemma_added_all_push(v0, seeds.take(k), seeds[k]);
            }
            let surface = text::char_string(byte_encoder[i]);
            self.add_token(Arc::new(Token::ByteFallback(i as u8)), surface, false, false);
            i += 1;
        }
        assert(seeds.take(seeds.len() as int) =~= seeds);
    }

    /// Adds everything that a vocabulary starts with: aksharas, seed morphemes with
    /// their tags, punctuation, the Latin alphabet, the byte alphabet, and the zero
    /// width non-joiner. The first token that brings a surface has it; but every byte
    /// that is no graphic ASCII gets a token of its own, under whatever surface. So
    /// whatever is listed, the vocabulary can then spell any text.
    pub fn initialize(
        &mut self,
        base_aksharas: Vec<Akshara>,
        seed_morphemes: Vec<String>,
        punctuation: Vec<String>,
        v_strict: Vec<String>,
        v_ambiguous: Vec<String>,
        byte_encoder: &[char; 256],
    )
        requires
            old(self).wf(),
        ensures
            final(self).wf(),
            final(self)@ == added_all(
                old(self)@,
                initial_seeds(
                    token::akshara_models(base_aksharas@),
                    text::texts(seed_morphemes@),
                    text::texts(punctuation@),
                    text::texts(v_strict@),
                    text::texts(v_ambiguous@),
                    byte_encoder@,
                ),
            ),
            alphabet::is_byte_encoder(byte_encoder@) && lossless::all_typed(old(self)@)
                ==> encoding::lossless(final(self)@),
            alphabet::is_byte_encoder(byte_encoder@) && lossless::settled(old(self)@)
                ==> lossless::settled(final(self)@),
    {
        let ghost aksharas = token::akshara_models(base_aksharas@);
        let ghost morphemes = text::texts(seed_morphemes@);
        let ghost marks = text::texts(punctuation@);
        let ghost strict = text::texts(v_strict@);
        let ghost ambiguous = text::texts(v_ambiguous@);
        let ghost encoder = byte_encoder@;
        proof {
            let v0 = self@;
            let s1 = akshara_seeds(aksharas);
            let s2 = morpheme_seeds(morphemes, strict, ambiguous);
            let s3 = punctuation_seeds(marks);
            let s4 = latin_seeds();
            let s5 = byte_seeds(encoder);
            lemma_added_all_concat(v0, s1, s2);
            lemma_added_all_concat(v0, s1 + s2, s3);
            lemma_added_all_concat(v0, s1 + s2 + s3, s4);
            lemma_added_all_concat(v0, s1 + s2 + s3 + s4, s5);
            lemma_added_all_push(v0, s1 + s2 + s3 + s4 + s5, zwnj_seed());
        }
        self.add_aksharas(base_aksharas);
        self.add_morphemes(seed_morphemes, v_strict, v_ambiguous);
        self.add_punctuation(punctuation);
        self.add_latin();
        self.add_bytes(byte_encoder);
        self.add_token(Arc::new(Token::ZWNJ), text::char_string(script::ZWNJ), false, false);
        proof {
            self.lemma_len();
            let v = old(self)@;
            if alphabet::is_byte_encoder(encoder) && lossless::all_typed(v) {
                lossless::law_initialized_is_lossless(
                    v,
                    aksharas,
                    morphemes,
                    marks,
                    strict,
                    ambiguous,
                    encoder,
                );
            }
            if alphabet::is_byte_encoder(encoder) && lossless::settled(v) {
                lossless::law_initialized_is_settled(
                    v,
                    aksharas,
                    morphemes,
                    marks,
                    strict,
                    ambiguous,
                    encoder,
                );
            }
        }
    }

    /// Looks up the paradigm roots of all tokens that take roots. To be called
    /// when the paradigms are registered and before training.
    pub fn assign_roots_from_registry(&mut self, registry: &ParadigmRegistry)
        requires
            old(self).wf(),
        ensures
            final(self).wf(),
            final(self)@ == tagged_all(old(self)@, registry@),
    {
        let ghost v0 = self@;
        let mut id: usize = 0;
        while id < self.entries.len()
            invariant
                id <= self.entries@.len() == v0.len(),
                self.surface_to_id == old(self).surface_to_id,
                self.byte_to_id == old(self).byte_to_id,
                self.max_surface_len == old(self).max_surface_len,
                forall|j: int| id <= j < v0.len() ==> #[trigger] self@[j] == v0[j],
                forall|j: int| 0 <= j < id ==> #[trigger] self@[j] == tagged(v0[j], registry@),
            decreases self.entries@.len() - id,
        {
            let ghost before = self@;
            assert(before[id as int] == v0[id as int]);
            let entry = &mut self.entries[id];
            let eligible = match &*entry.token {
                Token::Akshara(_) => true,
                Token::SeededMorpheme(_) => true,
                Token::MergedToken(_) => true,
                _ => false,
            };
            if eligible {
                let roots = registry.get_root_set(entry.surface.as_str());
                if roots.len() > 0 {
                    entry.roots = roots;
                }
            }
            proof {
                assert(self@ =~= before.update(id as int, tagged(v0[id as int], registry@)));
            }
            id += 1;
        }
        proof {
            assert(self@ =~= tagged_all(v0, registry@));
            old(self).lemma_len();
            lemma_same_tokens(v0, self@);
        }
    }

    /// The id under which a surface is found.
    pub fn get_id_by_surface(&self, surface: &str) -> (r: Option<TokenId>)
        requires
            self.wf(),
        ensures
            r == id_of(self@, surface@),
    {
        let ghost _found = id_of(self@, surface@);
        match self.surface_to_id.get(surface) {
            Some(id) => Some(*id),
            None => None,
        }
    }

    /// The id of the token of a byte.
    pub fn get_id_by_byte(&self, byte: u8) -> (r: Option<TokenId>)
        requires
            self.wf(),
        ensures
            r == byte_id_of(self@, byte),
    {
        let ghost _found = byte_id_of(self@, byte);
        match self.byte_to_id.get(&byte) {
            Some(id) => Some(*id),
            None => None,
        }
    }

    /// The length of the longest surface, in characters.
    pub fn max_surface_len(&self) -> (r: usize)
        requires
            self.wf(),
        ensures
            r == longest(self@),
    {
        self.max_surface_len
    }

    /// Rebuilds the vocabulary from saved pairs of an id and a surface. The tokens
    /// are numbered in the order of the ids. That is enough to encode and decode;
    /// tags and roots are not restored, so training should not be resumed.
    pub fn load_from_pairs(
        &mut self,
        pairs: Vec<(TokenId, String)>,
        byte_decoder: &HashMap<u32, u8>,
    )
        ensures
            final(self).wf(),
            final(self)@ == loaded(saved_pairs(pairs@), byte_decoder@),
    {
        let ghost all = saved_pairs(pairs@);
        let sorted = sorting::sort_numbered(pairs);
        proof {
            sorting::lemma_sort_map(
                pairs@,
                sorting::number_of::<String>(),
                |p: (TokenId, String)| (p.0, p.1@),
                sorting::number_of::<Seq<char>>(),
            );
        }
        let ghost target = loaded(all, byte_decoder@);
        assert(target.len() == sorted@.len());
        let mut v = Vocabulary::new();
        for p in it: sorted
            invariant
                it.seq() == sorted@,
                v.wf(),
                target.len() == sorted@.len(),
                forall|k: int|
                    0 <= k < sorted@.len() ==> #[trigger] target[k] == loaded_entry(
                        sorted@[k].1@,
                        byte_decoder@,
                    ),
                v@ == target.take(it.index() as int),
        {
            let surface = p.1;
            let token = loaded_from(&surface, byte_decoder);
            let script = token.script();
            proof {
                let k = it.index() as int;
                assert(target[k] == loaded_entry(surface@, byte_decoder@));
                assert(target.take(k + 1) =~= target.take(k).push(target[k]));
            }
            let roots: Vec<RootId> = Vec::new();
            assert(roots@ =~= Seq::<RootId>::empty());
            v.push_entry(
                Entry {
                    token: Arc::new(token),
                    surface,
                    script,
                    strict: false,
                    ambiguous: false,
                    roots,
                },
            );
        }
        assert(target.take(target.len() as int) =~= target);
        *self = v;
    }

    /// The token with an id.
    pub fn get_token(&self, id: TokenId) -> (r: Option<&Arc<Token>>)
        ensures
            match r {
                Some(token) => id < self@.len() && (**token)@ == self@[id as int].token,
                None => id >= self@.len(),
            },
    {
        if id < self.entries.len() {
            Some(&self.entries[id].token)
        } else {
            None
        }
    }

    /// The script of a token. An unknown token counts as malformed.
    pub fn get_script(&self, id: TokenId) -> (r: Script)
        ensures
            r == script_of(self@, id),
    {
        if id < self.entries.len() {
            self.entries[id].script
        } else {
            Script::MAL
        }
    }

    /// Whether a token is tagged as strict.
    pub fn is_strict(&self, id: TokenId) -> (r: bool)
        ensures
            r == strict_in(self@, id),
    {
        id < self.entries.len() && self.entries[id].strict
    }

    /// Whether a token is tagged as ambiguous.
    pub fn is_ambiguous(&self, id: TokenId) -> (r: bool)
        ensures
            r == ambiguous_in(self@, id),
    {
        id < self.entries.len() && self.entries[id].ambiguous
    }

    /// The paradigm roots of a token.
    pub fn get_root_set(&self, id: TokenId) -> (r: &[RootId])
        ensures
            r@ == roots_of(self@, id),
    {
        if id < self.entries.len() {
            self.entries[id].roots.as_slice()
        } else {
            &[]
        }
    }

    /// Mints the token that two tokens merge into and returns its id. The merged
    /// token has the script of the left one and the given roots. Where its surface
    /// is taken already, the token that has it stays as it is and its id is
    /// returned.
    pub fn create_merged(&mut self, a: TokenId, b: TokenId, merged_root_set: Vec<RootId>) -> (id:
        TokenId)
        requires
            old(self).wf(),
        ensures
            final(self).wf(),
            final(self)@ == merged(old(self)@, a, b, merged_root_set@),
            id == merged_id(old(self)@, a, b),
    {
        let mut surface = String::new();
        if let Some(s) = self.surface_ref(a) {
            surface.append(s.as_str());
        }
        if let Some(s) = self.surface_ref(b) {
            surface.append(s.as_str());
        }
        assert(surface@ =~= surface_of(self@, a) + surface_of(self@, b));
        if let Some(id) = self.get_id_by_surface(surface.as_str()) {
            return id;
        }
        let id: usize = self.entries.len();
        let script = if a < self.entries.len() {
            self.entries[a].script
        } else {
            Script::DEV
        };
        let mut parts: Vec<TokenId> = Vec::new();
        parts.push(a);
        parts.push(b);
        assert(parts@ =~= seq![a, b]);
        self.push_entry(
            Entry {
                token: Arc::new(Token::MergedToken(parts)),
                surface,
                script,
                strict: false,
                ambiguous: false,
                roots: merged_root_set,
            },
        );
        id
    }

    fn surface_ref(&self, id: TokenId) -> (r: Option<&String>)
        ensures
            match r {
                Some(s) => id < self@.len() && s@ == self@[id as int].surface,
                None => id >= self@.len(),
            },
    {
        if id < self.entries.len() {
            Some(&self.entries[id].surface)
        } else {
            None
        }
    }

    /// The surface of a token.
    pub fn get_surface(&self, id: TokenId) -> (r: Option<String>)
        ensures
            match r {
                Some(s) => id < self@.len() && s@ == self@[id as int].surface,
                None => id >= self@.len(),
            },
    {
        match self.surface_ref(id) {
            Some(s) => Some(s.clone()),
            None => None,
        }
    }

    /// How many tokens there are.
    pub fn len(&self) -> (n: usize)
        ensures
            n == self@.len(),
    {
        self.entries.len()
    }

    /// Whether there are no tokens.
    pub fn is_empty(&self) -> (r: bool)
        ensures
            r == (self@.len() == 0),
    {
        self.entries.len() == 0
    }

    /// All ids with their surfaces, in the order of the ids.
    pub fn get_all_surfaces(&self) -> (r: Vec<(TokenId, String)>)
        ensures
            saved_pairs(r@) == saved(self@),
    {
        let mut out: Vec<(TokenId, String)> = Vec::new();
        let mut id: usize = 0;
        while id < self.entries.len()
            invariant
                id <= self.entries@.len(),
                out@.len() == id,
                forall|j: int|
                    0 <= j < id ==> (#[trigger] out@[j]).0 == j && out@[j].1@ == self@[j].surface,
            decreases self.entries@.len() - id,
        {
            out.push((id, self.entries[id].surface.clone()));
            id += 1;
        }
        assert(saved_pairs(out@) =~= saved(self@));
        out
    }

    /// Whether some token has a surface.
    pub fn contains_surface(&self, surface: &str) -> (r: bool)
        requires
            self.wf(),
        ensures
            r == (id_of(self@, surface@) is Some),
    {
        let ghost _found = id_of(self@, surface@);
        self.surface_to_id.contains_key(surface)
    }
}

impl Default for Vocabulary {
    fn default() -> (r: Self)
        ensures
            r.wf(),
            r@ == Seq::<EntryModel>::empty(),
    {
        Vocabulary::new()
    }
}

/// Rebuilds a token from its surface.
fn loaded_from(surface: &String, byte_decoder: &HashMap<u32, u8>) -> (token: Token)
    ensures
        token@ == loaded_token(surface@, byte_decoder@),
{
    let chars = text::chars_of(surface.as_str());
    let mut alnum = true;
    let mut i: usize = 0;
    while i < chars.len()
        invariant
            i <= chars@.len(),
            alnum <==> (forall|j: int| 0 <= j < i ==> script::is_ascii_alnum(#[trigger] chars@[j])),
        decreases chars@.len() - i,
    {
        if !script::ascii_alnum(chars[i]) {
            alnum = false;
        }
        i += 1;
    }
    if chars.len() > 0 && alnum {
        return Token::Latin(surface.clone());
    }
    if chars.len() == 1 {
        if let Some(b) = byte_decoder.get(&(chars[0] as u32)) {
            return Token::ByteFallback(*b);
        }
    }
    Token::Loaded(surface.clone())
}

/// What is found depends on the tokens and their surfaces alone.
pub proof fn lemma_same_tokens(v: Seq<EntryModel>, w: Seq<EntryModel>)
    requires
        v.len() == w.len(),
        v.len() <= usize::MAX,
        forall|i: int|
            0 <= i < v.len() ==> (#[trigger] v[i]).surface == (#[trigger] w[i]).surface && v[i].token
                == w[i].token,
    ensures
        forall|s: Seq<char>| #[trigger] id_of(w, s) == id_of(v, s),
        forall|b: u8| #[trigger] byte_id_of(w, b) == byte_id_of(v, b),
        longest(w) == longest(v),
    decreases v.len(),
{
    if v.len() > 0 {
        let x = v.drop_last();
        let y = w.drop_last();
        assert forall|i: int| 0 <= i < x.len() implies (#[trigger] x[i]).surface == (#[trigger] y[i]).surface
            && x[i].token == y[i].token by {
            assert(x[i] == v[i] && y[i] == w[i]);
        }
        lemma_same_tokens(x, y);
        assert(v[v.len() - 1].surface == w[v.len() - 1].surface);
        assert forall|s: Seq<char>| #[trigger] id_of(w, s) == id_of(v, s) by {
            assert(id_of(y, s) == id_of(x, s));
            lemma_id_of(x, s);
            if let Some(id) = id_of(x, s) {
                assert(x[id as int].token == y[id as int].token);
            }
        }
        assert forall|b: u8| #[trigger] byte_id_of(w, b) == byte_id_of(v, b) by {
            assert(byte_id_of(y, b) == byte_id_of(x, b));
        }
    }
}

// ---------------------------------------------------------------------------
// Laws
// ---------------------------------------------------------------------------

/// Whether one vocabulary has all tokens of another under the same ids, and
/// perhaps more behind them.
pub open spec fn extends(w: Seq<EntryModel>, v: Seq<EntryModel>) -> bool {
    v.len() <= w.len() && w.take(v.len() as int) == v
}

/// Whether no two tokens have the same surface.
pub open spec fn distinct_surfaces(v: Seq<EntryModel>) -> bool {
    forall|i: int, j: int|
        0 <= i < j < v.len() ==> (#[trigger] v[i]).surface != (#[trigger] v[j]).surface
}

/// What a vocabulary says of the tokens of another that it extends.
pub proof fn lemma_extends(w: Seq<EntryModel>, v: Seq<EntryModel>)
    requires
        extends(w, v),
    ensures
        forall|i: int| 0 <= i < v.len() ==> #[trigger] w[i] == v[i],
        forall|id: TokenId| id < v.len() ==> #[trigger] script_of(w, id) == script_of(v, id),
        forall|id: TokenId| id < v.len() ==> #[trigger] surface_of(w, id) == surface_of(v, id),
        forall|id: TokenId| id < v.len() ==> #[trigger] strict_in(w, id) == strict_in(v, id),
        forall|id: TokenId| id < v.len() ==> #[trigger] ambiguous_in(w, id) == ambiguous_in(v, id),
        forall|id: TokenId| id < v.len() ==> #[trigger] roots_of(w, id) == roots_of(v, id),
{
    assert forall|i: int| 0 <= i < v.len() implies #[trigger] w[i] == v[i] by {
        assert(w.take(v.len() as int)[i] == w[i]);
    }
}

/// An added token takes nothing away: the tokens that were there keep their ids,
/// and every surface that was found is found under the same id.
pub proof fn law_add_keeps_all(v: Seq<EntryModel>, seed: Seed)
    requires
        v.len() <= usize::MAX,
    ensures
        extends(added(v, seed), v),
        forall|s: Seq<char>|
            id_of(v, s) is Some ==> #[trigger] id_of(added(v, seed), s) == id_of(v, s),
        id_of(added(v, seed), seed.surface) == Some(added_id(v, seed.surface)),
{
    let w = added(v, seed);
    assert(w.take(v.len() as int) =~= v);
    lemma_id_of(v, seed.surface);
    if w.len() > v.len() {
        lemma_id_of_push(v, w.last());
        if let TokenModel::ByteFallback(b) = seed.token {
            lemma_byte_id_of(v, b);
        }
    }
}

/// A merge never overwrites: whatever path led to its surface, the tokens that
/// were there keep their ids and all that is known of them, every surface that was
/// found is found under the same id, and the merged surface is found under the id
/// that is returned.
pub proof fn law_duplicate_merge_guard(
    v: Seq<EntryModel>,
    a: TokenId,
    b: TokenId,
    roots: Seq<RootId>,
)
    ensures
        extends(merged(v, a, b, roots), v),
        id_of(v, surface_of(v, a) + surface_of(v, b)) is Some ==> merged(v, a, b, roots) == v,
        forall|s: Seq<char>|
            id_of(v, s) is Some ==> #[trigger] id_of(merged(v, a, b, roots), s) == id_of(v, s),
        id_of(merged(v, a, b, roots), surface_of(v, a) + surface_of(v, b)) == Some(
            merged_id(v, a, b),
        ),
{
    let w = merged(v, a, b, roots);
    assert(w.take(v.len() as int) =~= v);
    if w != v {
        lemma_id_of_push(v, w.last());
    }
}

/// Adding and merging keep the surfaces of the tokens distinct, unless a byte needs a
/// token under a surface that is taken.
pub proof fn law_surfaces_stay_distinct(
    v: Seq<EntryModel>,
    seed: Seed,
    a: TokenId,
    b: TokenId,
    roots: Seq<RootId>,
)
    requires
        v.len() <= usize::MAX,
        distinct_surfaces(v),
    ensures
        !(is_needed(v, seed) && id_of(v, seed.surface) is Some) ==> distinct_surfaces(
            added(v, seed),
        ),
        distinct_surfaces(merged(v, a, b, roots)),
{
    lemma_id_of(v, seed.surface);
    lemma_id_of(v, surface_of(v, a) + surface_of(v, b));
}

/// The id of the last token that has a surface.
pub open spec fn last_of(v: Seq<EntryModel>, surface: Seq<char>) -> Option<TokenId>
    decreases v.len(),
{
    if v.len() == 0 {
        None
    } else if v.last().surface == surface {
        Some((v.len() - 1) as usize)
    } else {
        last_of(v.drop_last(), surface)
    }
}

/// Whether the token of a byte has a surface that an earlier token is found under.
pub open spec fn is_shared(v: Seq<EntryModel>, surface: Seq<char>) -> bool {
    exists|j: int|
        0 <= j < v.len() && (#[trigger] v[j]).surface == surface && v[j].token is ByteFallback
            && id_of(v, surface) is Some && id_of(v, surface)->0 < j
}

/// Behind the token that a surface is found under, only tokens of bytes have it.
pub proof fn lemma_id_of_last(v: Seq<EntryModel>, surface: Seq<char>)
    requires
        v.len() <= usize::MAX,
    ensures
        forall|j: int|
            0 <= j < v.len() && (#[trigger] v[j]).surface == surface ==> {
                let id = id_of(v, surface);
                &&& id is Some
                &&& id->0 < j ==> v[j].token is ByteFallback && v[j].token != v[id->0 as int].token
            },
    decreases v.len(),
{
    if v.len() > 0 {
        let d = v.drop_last();
        lemma_id_of_last(d, surface);
        lemma_id_of(d, surface);
        let id = id_of(v, surface);
        assert forall|j: int| 0 <= j < v.len() && (#[trigger] v[j]).surface == surface implies {
            &&& id is Some
            &&& id->0 < j ==> v[j].token is ByteFallback && v[j].token != v[id->0 as int].token
        } by {
            if j < d.len() {
                assert(d[j] == v[j]);
            }
        }
    }
}

/// The last token that has a surface has it, and no token behind it does.
pub proof fn lemma_last_of(v: Seq<EntryModel>, surface: Seq<char>)
    requires
        v.len() <= usize::MAX,
    ensures
        match last_of(v, surface) {
            Some(id) => id < v.len() && v[id as int].surface == surface,
            None => true,
        },
        forall|j: int|
            0 <= j < v.len() && (#[trigger] v[j]).surface == surface ==> last_of(v, surface) is Some
                && j <= last_of(v, surface)->0,
    decreases v.len(),
{
    if v.len() > 0 && v.last().surface != surface {
        let d = v.drop_last();
        lemma_last_of(d, surface);
        assert forall|j: int| 0 <= j < v.len() && (#[trigger] v[j]).surface == surface implies last_of(
            v,
            surface,
        ) is Some && j <= last_of(v, surface)->0 by {
            assert(d[j] == v[j]);
        }
    }
}

/// Where one surface has one token, the last that has it is found.
proof fn lemma_found_last(v: Seq<EntryModel>, surface: Seq<char>)
    requires
        v.len() <= usize::MAX,
        !is_shared(v, surface),
    ensures
        id_of(v, surface) == last_of(v, surface),
{
    lemma_id_of(v, surface);
    lemma_id_of_last(v, surface);
    lemma_last_of(v, surface);
    if let Some(id) = id_of(v, surface) {
        assert(v[id as int].surface == surface);
    }
}

/// Saving a vocabulary and loading it again gives tokens with the same ids and the
/// same surfaces. Every surface is found under the id of the last token that has it:
/// the same id as before, unless the token of a byte had left the surface to another.
pub proof fn law_load_restores_surfaces(v: Seq<EntryModel>, decoder: Map<u32, u8>)
    requires
        v.len() <= usize::MAX,
    ensures
        loaded(saved(v), decoder).len() == v.len(),
        forall|i: int|
            0 <= i < v.len() ==> #[trigger] loaded(saved(v), decoder)[i] == loaded_entry(
                v[i].surface,
                decoder,
            ),
        forall|s: Seq<char>| #[trigger]
            id_of(loaded(saved(v), decoder), s) == last_of(v, s),
        forall|s: Seq<char>|
            !is_shared(v, s) ==> #[trigger] id_of(loaded(saved(v), decoder), s) == id_of(v, s),
        longest(loaded(saved(v), decoder)) == longest(v),
{
    let pairs = saved(v);
    let key = sorting::number_of::<Seq<char>>();
    sorting::lemma_sort_sorted(pairs, key);
    let w = loaded(pairs, decoder);
    lemma_same_longest(v, w);
    assert forall|s: Seq<char>| #[trigger] id_of(w, s) == last_of(v, s) by {
        lemma_last_of(v, s);
        lemma_id_of(w, s);
        lemma_id_of_last(w, s);
        if let Some(id) = id_of(w, s) {
            assert(v[id as int].surface == s);
        }
        if let Some(id) = last_of(v, s) {
            assert(w[id as int].surface == s);
        }
    }
    assert forall|s: Seq<char>| !is_shared(v, s) implies #[trigger] id_of(w, s) == id_of(v, s) by {
        lemma_found_last(v, s);
    }
}

proof fn lemma_same_longest(v: Seq<EntryModel>, w: Seq<EntryModel>)
    requires
        v.len() == w.len(),
        forall|i: int| 0 <= i < v.len() ==> (#[trigger] v[i]).surface == (#[trigger] w[i]).surface,
    ensures
        longest(w) == longest(v),
    decreases v.len(),
{
    if v.len() > 0 {
        let x = v.drop_last();
        let y = w.drop_last();
        assert forall|i: int| 0 <= i < x.len() implies (#[trigger] x[i]).surface == (#[trigger] y[i]).surface by {
            assert(x[i] == v[i] && y[i] == w[i]);
        }
        lemma_same_longest(x, y);
        assert(v[v.len() - 1].surface == w[v.len() - 1].surface);
    }
}

/// Whether pairs have the ids from 0 on, each once and in any order.
pub open spec fn contiguous(pairs: Seq<(TokenId, Seq<char>)>) -> bool {
    &&& forall|i: int| 0 <= i < pairs.len() ==> (#[trigger] pairs[i]).0 < pairs.len()
    &&& forall|i: int, j: int|
        0 <= i < j < pairs.len() ==> (#[trigger] pairs[i]).0 != (#[trigger] pairs[j]).0
}

proof fn lemma_rising(t: Seq<(TokenId, Seq<char>)>, k: int)
    requires
        forall|i: int, j: int| 0 <= i < j < t.len() ==> (#[trigger] t[i]).0 < (#[trigger] t[j]).0,
        0 <= k < t.len(),
    ensures
        t[k].0 >= k,
        t.last().0 - t[k].0 >= t.len() - 1 - k,
    decreases t.len(),
{
    let d = t.drop_last();
    if k < d.len() {
        assert forall|i: int, j: int| 0 <= i < j < d.len() implies (#[trigger] d[i]).0 < (
        #[trigger] d[j]).0 by {
            assert(d[i] == t[i] && d[j] == t[j]);
        }
        lemma_rising(d, k);
        assert(t[t.len() - 2].0 < t[t.len() - 1].0);
    } else if d.len() > 0 {
        assert forall|i: int, j: int| 0 <= i < j < d.len() implies (#[trigger] d[i]).0 < (
        #[trigger] d[j]).0 by {
            assert(d[i] == t[i] && d[j] == t[j]);
        }
        lemma_rising(d, k - 1);
        assert(t[k - 1].0 < t[k].0);
    }
}

/// Loading contiguous ids gives each token the id that it was saved with, in
/// whatever order the pairs come.
pub proof fn law_load_keeps_ids(
    pairs: Seq<(TokenId, Seq<char>)>,
    decoder: Map<u32, u8>,
    i: int,
)
    requires
        contiguous(pairs),
        0 <= i < pairs.len(),
    ensures
        loaded(pairs, decoder).len() == pairs.len(),
        loaded(pairs, decoder)[pairs[i].0 as int] == loaded_entry(pairs[i].1, decoder),
{
    broadcast use vstd::seq_lib::group_to_multiset_ensures;

    let key = sorting::number_of::<Seq<char>>();
    let t = sorting::sort_by(pairs, key);
    sorting::law_sort(pairs, key);
    assert(pairs.no_duplicates());
    pairs.lemma_multiset_has_no_duplicates();
    t.lemma_multiset_has_no_duplicates_conv();
    assert forall|x: int, y: int| 0 <= x < y < t.len() implies (#[trigger] t[x]).0 < (
    #[trigger] t[y]).0 by {
        assert(key(t[x]) <= key(t[y]));
        assert(t.contains(t[x]) && t.contains(t[y]));
        assert(pairs.to_multiset().count(t[x]) > 0 && pairs.to_multiset().count(t[y]) > 0);
        assert(pairs.contains(t[x]) && pairs.contains(t[y]));
        let a = choose|a: int| 0 <= a < pairs.len() && pairs[a] == t[x];
        let b = choose|b: int| 0 <= b < pairs.len() && pairs[b] == t[y];
        if t[x].0 == t[y].0 {
            assert(a == b);
        }
    }
    assert(pairs.contains(pairs[i]));
    assert(t.to_multiset().count(pairs[i]) > 0);
    assert(t.contains(pairs[i]));
    let k = choose|k: int| 0 <= k < t.len() && t[k] == pairs[i];
    lemma_rising(t, k);
    assert(t.contains(t[t.len() - 1]));
    assert(pairs.to_multiset().count(t.last()) > 0);
    assert(pairs.contains(t.last()));
}

/// Tagging is safe to repeat, and without paradigms it does nothing.
pub proof fn law_tagging_is_idempotent(v: Seq<EntryModel>, paradigms: Seq<ParadigmModel>)
    ensures
        tagged_all(tagged_all(v, paradigms), paradigms) == tagged_all(v, paradigms),
        tagged_all(v, Seq::empty()) == v,
{
    assert(tagged_all(tagged_all(v, paradigms), paradigms) =~= tagged_all(v, paradigms));
    assert forall|i: int| 0 <= i < v.len() implies #[trigger] tagged(v[i], Seq::empty()) == v[i] by {
        reveal(Seq::filter);
        assert(paradigm::roots_with_prefix(Seq::empty(), v[i].surface).len() == 0);
    }
    assert(tagged_all(v, Seq::empty()) =~= v);
}

/// A surface is found exactly where some token has it, and under a token that has it: under
/// the last one that is no byte, and under a byte only where nothing else has it.
pub proof fn law_lookup(v: Seq<EntryModel>, surface: Seq<char>, i: int)
    requires
        v.len() <= usize::MAX,
        0 <= i < v.len(),
    ensures
        v[i].surface == surface ==> id_of(v, surface) is Some,
        id_of(v, surface) is Some ==> id_of(v, surface)->0 < v.len() && v[id_of(
            v,
            surface,
        )->0 as int].surface == surface,
        v[i].surface == surface && !(v[i].token is ByteFallback) ==> i <= id_of(v, surface)->0
            && !(v[id_of(v, surface)->0 as int].token is ByteFallback),
        v[i].surface == surface && v[i].token == v[id_of(v, surface)->0 as int].token ==> i <= id_of(
            v,
            surface,
        )->0,
{
    lemma_id_of(v, surface);
    lemma_id_of_last(v, surface);
    lemma_no_byte_above(v, surface);
}

/// A byte is found only where nothing else has the surface.
proof fn lemma_no_byte_above(v: Seq<EntryModel>, surface: Seq<char>)
    requires
        v.len() <= usize::MAX,
    ensures
        forall|i: int|
            0 <= i < v.len() && (#[trigger] v[i]).surface == surface && !(v[i].token is ByteFallback)
                ==> id_of(v, surface) is Some && !(v[id_of(v, surface)->0 as int].token is ByteFallback),
    decreases v.len(),
{
    if v.len() > 0 {
        let d = v.drop_last();
        lemma_no_byte_above(d, surface);
        lemma_id_of(d, surface);
        assert forall|i: int|
            0 <= i < v.len() && (#[trigger] v[i]).surface == surface && !(v[i].token is ByteFallback) implies id_of(
            v,
            surface,
        ) is Some && !(v[id_of(v, surface)->0 as int].token is ByteFallback) by {
            if i < d.len() {
                assert(d[i] == v[i]);
            }
        }
    }
}

/// The length of the longest surface is that of some surface, and no surface is longer.
pub proof fn law_longest(v: Seq<EntryModel>, i: int)
    ensures
        0 <= i < v.len() ==> v[i].surface.len() <= longest(v),
        longest(v) > 0 ==> exists|k: int|
            0 <= k < v.len() && (#[trigger] v[k]).surface.len() == longest(v),
    decreases v.len(),
{
    if 0 <= i < v.len() {
        lemma_longest(v, i);
    }
    if v.len() > 0 {
        let d = v.drop_last();
        law_longest(d, i);
        if v.last().surface.len() > longest(d) {
            assert(v[v.len() - 1].surface.len() == longest(v));
        } else if longest(v) > 0 {
            let k = choose|k: int| 0 <= k < d.len() && (#[trigger] d[k]).surface.len() == longest(d);
            assert(v[k] == d[k]);
        }
    }
}

/// What is known of a token is what its entry says. An unknown token has no surface, no tags
/// and no roots, and counts as malformed.
pub proof fn law_entries(v: Seq<EntryModel>, id: TokenId)
    ensures
        id < v.len() ==> surface_of(v, id) == v[id as int].surface && script_of(v, id)
            == v[id as int].script && strict_in(v, id) == v[id as int].strict && ambiguous_in(v, id)
            == v[id as int].ambiguous && roots_of(v, id) == v[id as int].roots,
        id >= v.len() ==> surface_of(v, id).len() == 0 && script_of(v, id) == Script::MAL
            && !strict_in(v, id) && !ambiguous_in(v, id) && roots_of(v, id).len() == 0,
{
}

/// What a merge mints: where no token has the two surfaces put together, one token behind
/// all others, made of the two, with that surface, the script of the left one, the given
/// roots, and no tags. Otherwise nothing is minted, and the id is that of a token that has
/// the surface already.
pub proof fn law_minting(v: Seq<EntryModel>, a: TokenId, b: TokenId, roots: Seq<RootId>)
    requires
        v.len() < usize::MAX,
        a < v.len(),
        b < v.len(),
    ensures
        ({
            let w = merged(v, a, b, roots);
            let n = merged_id(v, a, b);
            &&& n < w.len()
            &&& w[n as int].surface == v[a as int].surface + v[b as int].surface
            &&& forall|i: int| 0 <= i < v.len() ==> #[trigger] w[i] == v[i]
            &&& (exists|i: int|
                0 <= i < v.len() && (#[trigger] v[i]).surface == v[a as int].surface
                    + v[b as int].surface) ==> w.len() == v.len()
            &&& (forall|i: int|
                0 <= i < v.len() ==> (#[trigger] v[i]).surface != v[a as int].surface
                    + v[b as int].surface) ==> w.len() == v.len() + 1 && n == v.len()
                && w[n as int].token == TokenModel::MergedToken(seq![a, b]) && w[n as int].script
                == v[a as int].script && w[n as int].roots == roots && !w[n as int].strict
                && !w[n as int].ambiguous
        }),
{
    let surface = v[a as int].surface + v[b as int].surface;
    lemma_id_of(v, surface);
    if let Some(id) = id_of(v, surface) {
        assert(v[id as int].surface == surface);
    }
}

/// Tagging gives every akshara, morpheme and merged token the roots of its surface, where
/// there are any, and changes nothing else.
pub proof fn law_tagging(v: Seq<EntryModel>, paradigms: Seq<ParadigmModel>, i: int)
    requires
        0 <= i < v.len(),
    ensures
        ({
            let w = tagged_all(v, paradigms);
            let roots = paradigm::roots_with_prefix(paradigms, v[i].surface);
            &&& w.len() == v.len()
            &&& w[i].token == v[i].token && w[i].surface == v[i].surface && w[i].script
                == v[i].script && w[i].strict == v[i].strict && w[i].ambiguous == v[i].ambiguous
            &&& (v[i].token is Akshara || v[i].token is SeededMorpheme || v[i].token is MergedToken)
                && roots.len() > 0 ==> w[i].roots == roots
            &&& !(v[i].token is Akshara || v[i].token is SeededMorpheme
                || v[i].token is MergedToken) || roots.len() == 0 ==> w[i].roots == v[i].roots
        }),
{
}

/// What a surface is loaded as, by the surface alone: one that has only ASCII letters and
/// digits, and any, as Latin; the surface of any other byte as the byte; all else by its
/// surface. It has the script of its kind, and neither tags nor roots.
pub proof fn law_loaded_entry(s: Seq<char>, decoder: Map<u32, u8>)
    ensures
        loaded_entry(s, decoder).surface == s,
        loaded_entry(s, decoder).script == loaded_entry(s, decoder).token.script(),
        !loaded_entry(s, decoder).strict && !loaded_entry(s, decoder).ambiguous,
        loaded_entry(s, decoder).roots.len() == 0,
        s.len() > 0 && (forall|i: int|
            0 <= i < s.len() ==> script::is_ascii_alnum(#[trigger] s[i])) ==> loaded_entry(
            s,
            decoder,
        ).token == TokenModel::Latin(s),
        s.len() == 0 || (exists|i: int|
            0 <= i < s.len() && !script::is_ascii_alnum(#[trigger] s[i])) ==> {
            if s.len() == 1 && decoder.contains_key(s[0] as u32) {
                loaded_entry(s, decoder).token == TokenModel::ByteFallback(decoder[s[0] as u32])
            } else {
                loaded_entry(s, decoder).token == TokenModel::Loaded(s)
            }
        },
{
}

/// Every pair that is loaded gives one token, in the order of the numbers; and every token
/// is saved, with its id and its surface.
pub proof fn law_loading_and_saving(
    pairs: Seq<(TokenId, Seq<char>)>,
    decoder: Map<u32, u8>,
    v: Seq<EntryModel>,
    list: Seq<(TokenId, String)>,
    k: int,
)
    ensures
        loaded(pairs, decoder).len() == pairs.len(),
        0 <= k < pairs.len() ==> loaded(pairs, decoder)[k] == loaded_entry(
            sorting::sort_by(pairs, sorting::number_of::<Seq<char>>())[k].1,
            decoder,
        ),
        saved(v).len() == v.len(),
        0 <= k < v.len() && v.len() <= usize::MAX ==> saved(v)[k].0 == k && saved(v)[k].1
            == v[k].surface,
        saved_pairs(list).len() == list.len(),
        0 <= k < list.len() ==> saved_pairs(list)[k].0 == list[k].0 && saved_pairs(list)[k].1
            == list[k].1@,
{
    sorting::law_sort(pairs, sorting::number_of::<Seq<char>>());
}

/// What a new entry does to the lookup of a surface: another surface is found as before; an
/// entry that is no byte takes its surface over; and a byte does so only where nothing had it,
/// or where the same byte had it.
pub proof fn law_lookup_of_the_latest(v: Seq<EntryModel>, e: EntryModel, surface: Seq<char>)
    requires
        v.len() < usize::MAX,
    ensures
        id_of(Seq::empty(), surface) is None,
        e.surface != surface ==> id_of(v.push(e), surface) == id_of(v, surface),
        e.surface == surface && !(e.token is ByteFallback) ==> id_of(v.push(e), surface) == Some(
            v.len() as usize,
        ),
        e.surface == surface && e.token is ByteFallback && id_of(v, surface) is None ==> id_of(
            v.push(e),
            surface,
        ) == Some(v.len() as usize),
        e.surface == surface && e.token is ByteFallback && id_of(v, surface) is Some && v[id_of(
            v,
            surface,
        )->0 as int].token == e.token ==> id_of(v.push(e), surface) == Some(v.len() as usize),
        e.surface == surface && e.token is ByteFallback && id_of(v, surface) is Some && v[id_of(
            v,
            surface,
        )->0 as int].token != e.token ==> id_of(v.push(e), surface) == id_of(v, surface),
{
    assert(v.push(e).drop_last() =~= v);
}

/// Adding a token: what there was stays. A surface that is not there yet gets an entry. One
/// that is there gets none, but for a byte outside graphic ASCII that has no token of its own.
pub proof fn law_adding_a_token(v: Seq<EntryModel>, seed: Seed)
    requires
        v.len() < usize::MAX,
    ensures
        ({
            let w = added(v, seed);
            let there = exists|i: int| 0 <= i < v.len() && (#[trigger] v[i]).surface == seed.surface;
            let own = exists|i: int| 0 <= i < v.len() && (#[trigger] v[i]).token == seed.token;
            let kept = seed.token is ByteFallback && !(0x21 <= seed.token->ByteFallback_0 <= 0x7E)
                && !own;
            &&& forall|i: int| 0 <= i < v.len() ==> #[trigger] w[i] == v[i]
            &&& there && !kept ==> w.len() == v.len()
            &&& !there || kept ==> {
                &&& w.len() == v.len() + 1
                &&& w.last().token == seed.token
                &&& w.last().surface == seed.surface
                &&& w.last().script == seed.token.script()
                &&& w.last().strict == seed.strict
                &&& w.last().ambiguous == seed.ambiguous
                &&& w.last().roots == seed.token.own_roots()
            }
        }),
{
    lemma_id_of(v, seed.surface);
    if seed.token is ByteFallback {
        lemma_byte_id_of(v, seed.token->ByteFallback_0);
    }
    assert forall|i: int| 0 <= i < v.len() && (#[trigger] v[i]).surface == seed.surface implies id_of(
        v,
        seed.surface,
    ) is Some by {
        law_lookup(v, seed.surface, i);
    }
    if id_of(v, seed.surface) is Some && v.len() > 0 {
        law_lookup(v, seed.surface, 0);
        assert(v[id_of(v, seed.surface)->0 as int].surface == seed.surface);
    }
}

/// Adding tokens one by one, each to what there is after those before it.
pub proof fn law_adding_one_by_one(v: Seq<EntryModel>, seeds: Seq<Seed>, seed: Seed)
    ensures
        added_all(v, Seq::empty()) == v,
        added_all(v, seeds.push(seed)) == added(added_all(v, seeds), seed),
{
    assert(seeds.push(seed).drop_last() =~= seeds);
}

/// Merging with a token that is not there: it has no text, and where it stands on the left the
/// merged token counts as Devanagari.
pub proof fn law_minting_with_the_unknown(
    v: Seq<EntryModel>,
    a: TokenId,
    b: TokenId,
    roots: Seq<RootId>,
)
    requires
        v.len() < usize::MAX,
        a >= v.len() || b >= v.len(),
    ensures
        ({
            let w = merged(v, a, b, roots);
            let s = if a < v.len() {
                v[a as int].surface
            } else if b < v.len() {
                v[b as int].surface
            } else {
                Seq::empty()
            };
            &&& id_of(v, s) is Some ==> w == v && merged_id(v, a, b) == id_of(v, s)->0
            &&& id_of(v, s) is None ==> w == v.push(w.last()) && merged_id(v, a, b) == v.len()
                && w.last().surface == s && w.last().token == TokenModel::MergedToken(seq![a, b])
                && w.last().roots == roots && !w.last().strict && !w.last().ambiguous && (a
                < v.len() ==> w.last().script == v[a as int].script) && (a >= v.len()
                ==> w.last().script == Script::DEV)
        }),
{
    let s = if a < v.len() {
        v[a as int].surface
    } else if b < v.len() {
        v[b as int].surface
    } else {
        Seq::empty()
    };
    assert(surface_of(v, a) + surface_of(v, b) =~= s);
}

} // verus!
