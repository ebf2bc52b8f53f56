//! Tokens and aksharas.
use crate::pairs::TokenId;
use crate::script::Script;
use vstd::prelude::*;

verus! {

/// The number of a paradigm root.
pub type RootId = usize;

/// An orthographic syllable, with the paradigm roots that it can begin.
#[derive(Debug, Clone, PartialEq, Eq, Hash)]
pub struct Akshara {
    pub surface: String,
    pub root_set: Vec<RootId>,
}

/// What an akshara stands for.
pub struct AksharaModel {
    pub surface: Seq<char>,
    pub roots: Seq<RootId>,
}

impl View for Akshara {
    type V = AksharaModel;

    open spec fn view(&self) -> AksharaModel {
        AksharaModel { surface: self.surface@, roots: self.root_set@ }
    }
}

/// What a list of aksharas stands for.
pub open spec fn akshara_models(aksharas: Seq<Akshara>) -> Seq<AksharaModel> {
    aksharas.map_values(|a: Akshara| a@)
}

/// A vocabulary token.
#[derive(Debug, Clone, PartialEq, Eq, Hash)]
pub enum Token {
    Akshara(Akshara),
    Punctuation(String),
    ZWNJ,
    ByteFallback(u8),
    SeededMorpheme(String),
    MergedToken(Vec<TokenId>),
    /// A Latin letter or an ASCII digit, or what was merged of them.
    Latin(String),
    /// A token that was rebuilt from its surface alone.
    Loaded(String),
}

/// What a token stands for.
pub enum TokenModel {
    Akshara(Seq<char>, Seq<RootId>),
    Punctuation(Seq<char>),
    ZWNJ,
    ByteFallback(u8),
    SeededMorpheme(Seq<char>),
    MergedToken(Seq<TokenId>),
    Latin(Seq<char>),
    Loaded(Seq<char>),
}

impl View for Token {
    type V = TokenModel;

    open spec fn view(&self) -> TokenModel {
        match self {
            Token::Akshara(a) => TokenModel::Akshara(a.surface@, a.root_set@),
            Token::Punctuation(s) => TokenModel::Punctuation(s@),
            Token::ZWNJ => TokenModel::ZWNJ,
            Token::ByteFallback(b) => TokenModel::ByteFallback(*b),
            Token::SeededMorpheme(s) => TokenModel::SeededMorpheme(s@),
            Token::MergedToken(ids) => TokenModel::MergedToken(ids@),
            Token::Latin(s) => TokenModel::Latin(s@),
            Token::Loaded(s) => TokenModel::Loaded(s@),
        }
    }
}

impl TokenModel {
    /// The script that a token has by its kind.
    pub open spec fn script(self) -> Script {
        match self {
            TokenModel::Akshara(_, _) => Script::DEV,
            TokenModel::Punctuation(_) => Script::PUN,
            TokenModel::ZWNJ => Script::FMT,
            TokenModel::ByteFallback(_) => Script::MAL,
            TokenModel::SeededMorpheme(_) => Script::DEV,
            TokenModel::MergedToken(_) => Script::DEV,
            TokenModel::Latin(_) => Script::LAT,
            TokenModel::Loaded(_) => Script::DEV,
        }
    }

    /// The roots that a token brings along.
    pub open spec fn own_roots(self) -> Seq<RootId> {
        match self {
            TokenModel::Akshara(_, roots) => roots,
            _ => Seq::empty(),
        }
    }

    /// Whether paradigm roots can be assigned to a token.
    pub open spec fn takes_roots(self) -> bool {
        self is Akshara || self is SeededMorpheme || self is MergedToken
    }
}

impl Token {
    /// The script that a token has by its kind. A merged token takes the script of
    /// its left part instead; the vocabulary knows it.
    pub fn script(&self) -> (r: Script)
        ensures
            r == self@.script(),
    {
        match self {
            Token::Akshara(_) => Script::DEV,
            Token::Punctuation(_) => Script::PUN,
            Token::ZWNJ => Script::FMT,
            Token::ByteFallback(_) => Script::MAL,
            Token::SeededMorpheme(_) => Script::DEV,
            Token::MergedToken(_) => Script::DEV,
            Token::Latin(_) => Script::LAT,
            Token::Loaded(_) => Script::DEV,
        }
    }
}

/// A token has its script by its kind, whatever its surface: aksharas, morphemes, merged
/// and loaded tokens are Devanagari, bytes are malformed. Only an akshara brings roots
/// along, and those are its own.
pub proof fn law_kinds(s: Seq<char>, roots: Seq<RootId>, b: u8, ids: Seq<TokenId>)
    ensures
        TokenModel::Akshara(s, roots).script() == Script::DEV,
        TokenModel::SeededMorpheme(s).script() == Script::DEV,
        TokenModel::MergedToken(ids).script() == Script::DEV,
        TokenModel::Loaded(s).script() == Script::DEV,
        TokenModel::Punctuation(s).script() == Script::PUN,
        TokenModel::Latin(s).script() == Script::LAT,
        TokenModel::ZWNJ.script() == Script::FMT,
        TokenModel::ByteFallback(b).script() == Script::MAL,
        TokenModel::Akshara(s, roots).own_roots() == roots,
        TokenModel::SeededMorpheme(s).own_roots().len() == 0,
        TokenModel::MergedToken(ids).own_roots().len() == 0,
        TokenModel::Loaded(s).own_roots().len() == 0,
        TokenModel::Punctuation(s).own_roots().len() == 0,
        TokenModel::Latin(s).own_roots().len() == 0,
        TokenModel::ZWNJ.own_roots().len() == 0,
        TokenModel::ByteFallback(b).own_roots().len() == 0,
        TokenModel::Akshara(s, roots).takes_roots(),
        TokenModel::SeededMorpheme(s).takes_roots(),
        TokenModel::MergedToken(ids).takes_roots(),
        !TokenModel::Loaded(s).takes_roots(),
        !TokenModel::Punctuation(s).takes_roots(),
        !TokenModel::Latin(s).takes_roots(),
        !TokenModel::ZWNJ.takes_roots(),
        !TokenModel::ByteFallback(b).takes_roots(),
{
}

/// A list of aksharas stands for all of them, in order.
pub proof fn law_akshara_models(aksharas: Seq<Akshara>, k: int)
    ensures
        akshara_models(aksharas).len() == aksharas.len(),
        0 <= k < aksharas.len() ==> akshara_models(aksharas)[k].surface == aksharas[k].surface@
            && akshara_models(aksharas)[k].roots == aksharas[k].root_set@,
{
}

/// A token stands for its own kind and for what it holds.
pub proof fn law_token_models(t: Token)
    ensures
        match t {
            Token::Akshara(a) => t@ == TokenModel::Akshara(a.surface@, a.root_set@),
            Token::Punctuation(s) => t@ == TokenModel::Punctuation(s@),
            Token::ZWNJ => t@ == TokenModel::ZWNJ,
            Token::ByteFallback(b) => t@ == TokenModel::ByteFallback(b),
            Token::SeededMorpheme(s) => t@ == TokenModel::SeededMorpheme(s@),
            Token::MergedToken(ids) => t@ == TokenModel::MergedToken(ids@),
            Token::Latin(s) => t@ == TokenModel::Latin(s@),
            Token::Loaded(s) => t@ == TokenModel::Loaded(s@),
        },
{
}

} // verus!
