//! The tokenizer: normalizes, encodes and decodes text, and trains its vocabulary.
use crate::alphabet;
use crate::dfa::AksharaDFA;
use crate::encoding::PartModel;
use crate::encoding;
use crate::normalizer::Normalizer;
use crate::normalizer;
use crate::pairs::TokenId;
use crate::paradigm::ParadigmRegistry;
use crate::script;
use crate::script::Script;
use crate::text;
use crate::token::Token;
use crate::tsv;
use crate::vocabulary::{EntryModel, Vocabulary};
use crate::vocabulary;
use vstd::prelude::*;
use vstd::string::*;
use vstd::utf8::*;

verus! {

/// A piece of what tokens stand for: bytes, or text.
pub enum Part {
    Bytes(Vec<u8>),
    Text(String),
}

impl View for Part {
    type V = PartModel;

    open spec fn view(&self) -> PartModel {
        match self {
            Part::Bytes(bytes) => PartModel::Bytes(bytes@),
            Part::Text(s) => PartModel::Text(s@),
        }
    }
}

/// What a list of pieces stands for.
pub open spec fn part_models(parts: Seq<Part>) -> Seq<PartModel> {
    parts.map_values(|p: Part| p@)
}

/// A tokenizer.
pub struct NepBPETokenizer {
    pub normalizer: Normalizer,
    pub akshara_dfa: AksharaDFA,
    pub vocab: Vocabulary,
    pub paradigm_registry: ParadigmRegistry,
    /// The surface of each byte.
    pub byte_encoder: [char; 256],
}

impl NepBPETokenizer {
    /// A tokenizer is valid when its parts are, and when it has the byte alphabet.
    pub open spec fn wf(&self) -> bool {
        &&& self.akshara_dfa.wf()
        &&& self.vocab.wf()
        &&& self.paradigm_registry.wf()
        &&& alphabet::is_byte_encoder(self.byte_encoder@)
    }

    /// A tokenizer without a vocabulary.
    pub fn new(fold_rules: Vec<(String, String)>, paradigm_registry: ParadigmRegistry) -> (r: Self)
        requires
            paradigm_registry.wf(),
        ensures
            r.wf(),
            r.normalizer@ == normalizer::ordered(normalizer::given_rules(fold_rules@)),
            r.akshara_dfa@.transitions == Map::<(usize, char), usize>::empty(),
            r.akshara_dfa@.accepting == Set::<usize>::empty(),
            r.vocab@ == Seq::<EntryModel>::empty(),
            r.paradigm_registry == paradigm_registry,
    {
        NepBPETokenizer {
            normalizer: Normalizer::new(fold_rules),
            akshara_dfa: AksharaDFA::new(),
            vocab: Vocabulary::new(),
            paradigm_registry,
            byte_encoder: alphabet::bytes_to_unicode(),
        }
    }

    /// The tokens of a text.
    pub fn encode(&self, s: &str) -> (ids: Vec<TokenId>)
        requires
            self.wf(),
        ensures
            ids@ == encoding::encoded(
                self.vocab@,
                normalizer::normalized(self.normalizer@, s@),
                0,
            ),
    {
        let normalized = self.normalizer.normalize(s);
        self.encode_normalized(normalized.as_str())
    }

    /// The tokens of a text that is normalized already.
    pub fn encode_normalized(&self, normalized: &str) -> (ids: Vec<TokenId>)
        requires
            self.wf(),
        ensures
            ids@ == encoding::encoded(self.vocab@, normalized@, 0),
    {
        let chars = text::chars_of(normalized);
        let n: usize = chars.len();
        let mut tokens: Vec<TokenId> = Vec::new();
        let mut i: usize = 0;
        assert(tokens@ + encoding::encoded(self.vocab@, chars@, 0) =~= encoding::encoded(
            self.vocab@,
            chars@,
            0,
        ));
        while i < n
            invariant
                i <= n == chars@.len(),
                self.wf(),
                chars@ == normalized@,
                tokens@ + encoding::encoded(self.vocab@, chars@, i as int) == encoding::encoded(
                    self.vocab@,
                    normalized@,
                    0,
                ),
            decreases n - i,
        {
            let current = script::classify_char(chars[i]);
            let mut end: usize = i + 1;
            while end < n && script::classify_char(chars[end]) == current
                invariant
                    i < end <= n == chars@.len(),
                    current == script::char_script(chars@[i as int]),
                    encoding::run_end(chars@, i as int, i + 1) == encoding::run_end(
                        chars@,
                        i as int,
                        end as int,
                    ),
                decreases n - end,
            {
                end += 1;
            }
            proof {
                encoding::lemma_run_end(chars@, i as int, i + 1);
            }
            let run = text::string_of(chars.as_slice(), i, end);
            let ghost before = tokens@;
            self.tokenize_run(run.as_str(), current, &mut tokens);
            proof {
                assert(tokens@ + encoding::encoded(self.vocab@, chars@, end as int) =~= before
                    + encoding::encoded(self.vocab@, chars@, i as int));
            }
            i = end;
        }
        assert(tokens@ + encoding::encoded(self.vocab@, chars@, i as int) =~= tokens@);
        tokens
    }

    /// Appends the tokens of a run of characters of one script.
    fn tokenize_run(&self, run: &str, script: Script, tokens: &mut Vec<TokenId>)
        requires
            self.wf(),
        ensures
            final(tokens)@ == old(tokens)@ + encoding::run_ids(self.vocab@, run@, script),
    {
        match script {
            Script::DEV => self.tokenize_greedy(run, tokens),
            Script::LAT => self.tokenize_greedy(run, tokens),
            Script::PUN => self.tokenize_single(run, tokens),
            Script::FMT => self.tokenize_zwnj(run, tokens),
            Script::MAL => self.emit_byte_fallback(run.as_bytes(), tokens),
        }
    }

    /// Appends the tokens of a run by longest match. No surface is tried that is longer
    /// than the longest in the vocabulary.
    fn tokenize_greedy(&self, run: &str, tokens: &mut Vec<TokenId>)
        requires
            self.wf(),
        ensures
            final(tokens)@ == old(tokens)@ + encoding::greedy_ids(self.vocab@, run@, 0),
    {
        let chars = text::chars_of(run);
        let n: usize = chars.len();
        let longest: usize = self.vocab.max_surface_len();
        let cap: usize = if longest > 1 {
            longest
        } else {
            1
        };
        let ghost v = self.vocab@;
        let ghost start = tokens@;
        let mut i: usize = 0;
        while i < n
            invariant
                i <= n == chars@.len(),
                self.wf(),
                v == self.vocab@,
                chars@ == run@,
                cap >= 1,
                cap >= vocabulary::longest(v),
                tokens@ + encoding::greedy_ids(v, chars@, i as int) == start
                    + encoding::greedy_ids(v, run@, 0),
            decreases n - i,
        {
            let hi: usize = if cap < n - i {
                i + cap
            } else {
                n
            };
            let ghost before = tokens@;
            let ghost at = i as int;
            proof {
                self.vocab.lemma_len();
                lemma_cap(v, chars@, at, hi as int, n as int);
                encoding::lemma_longest_match(v, chars@, at, n as int);
            }
            match self.find_longest(&chars, i, hi) {
                Some((id, end)) => {
                    tokens.push(id);
                    i = end;
                    assert(tokens@ + encoding::greedy_ids(v, chars@, i as int) =~= before
                        + encoding::greedy_ids(v, chars@, at));
                },
                None => {
                    let ch = text::char_string(chars[i]);
                    self.emit_byte_fallback(ch.as_str().as_bytes(), tokens);
                    i += 1;
                    assert(tokens@ + encoding::greedy_ids(v, chars@, i as int) =~= before
                        + encoding::greedy_ids(v, chars@, at));
                },
            }
        }
        assert(tokens@ + encoding::greedy_ids(v, chars@, i as int) =~= tokens@);
    }

    /// The longest surface in the vocabulary that starts at `i` and ends at `hi` or
    /// before, with its end.
    fn find_longest(&self, chars: &Vec<char>, i: usize, hi: usize) -> (r: Option<(TokenId, usize)>)
        requires
            self.wf(),
            i <= hi <= chars@.len(),
        ensures
            match r {
                Some((id, end)) => {
                    &&& encoding::longest_match(self.vocab@, chars@, i as int, hi as int) == Some(
                        end as int,
                    )
                    &&& vocabulary::id_of(
                        self.vocab@,
                        chars@.subrange(i as int, end as int),
                    ) == Some(id)
                },
                None => encoding::longest_match(self.vocab@, chars@, i as int, hi as int) is None,
            },
    {
        let mut j: usize = hi;
        while j > i
            invariant
                i <= j <= hi <= chars@.len(),
                self.wf(),
                encoding::longest_match(self.vocab@, chars@, i as int, hi as int)
                    == encoding::longest_match(self.vocab@, chars@, i as int, j as int),
            decreases j - i,
        {
            let candidate = text::string_of(chars.as_slice(), i, j);
            if let Some(id) = self.vocab.get_id_by_surface(candidate.as_str()) {
                return Some((id, j));
            }
            j -= 1;
        }
        None
    }

    /// Appends the tokens of a run, character by character.
    fn tokenize_single(&self, run: &str, tokens: &mut Vec<TokenId>)
        requires
            self.wf(),
        ensures
            final(tokens)@ == old(tokens)@ + encoding::single_ids(self.vocab@, run@),
    {
        let chars = text::chars_of(run);
        let ghost v = self.vocab@;
        let ghost start = tokens@;
        let mut i: usize = 0;
        assert(start + encoding::single_ids(v, chars@.take(0)) =~= start);
        while i < chars.len()
            invariant
                i <= chars@.len(),
                self.wf(),
                v == self.vocab@,
                tokens@ == start + encoding::single_ids(v, chars@.take(i as int)),
            decreases chars@.len() - i,
        {
            let ch = text::char_string(chars[i]);
            proof {
                assert(chars@.take(i + 1).drop_last() =~= chars@.take(i as int));
                assert(chars@.take(i + 1).last() == chars@[i as int]);
            }
            if let Some(id) = self.vocab.get_id_by_surface(ch.as_str()) {
                tokens.push(id);
            } else {
                self.emit_byte_fallback(ch.as_str().as_bytes(), tokens);
            }
            assert(tokens@ =~= start + encoding::single_ids(v, chars@.take(i + 1)));
            i += 1;
        }
        assert(chars@.take(chars@.len() as int) =~= chars@);
    }

    /// Appends the token of the non-joiner once for each one in the run, so that none
    /// is lost.
    fn tokenize_zwnj(&self, run: &str, tokens: &mut Vec<TokenId>)
        requires
            self.wf(),
        ensures
            final(tokens)@ == old(tokens)@ + encoding::zwnj_ids(self.vocab@, run@.len()),
    {
        let n: usize = run.unicode_len();
        let zwnj = text::char_string(script::ZWNJ);
        let ghost start = tokens@;
        match self.vocab.get_id_by_surface(zwnj.as_str()) {
            Some(id) => {
                let mut i: usize = 0;
                assert(start + encoding::zwnj_ids(self.vocab@, 0) =~= start);
                while i < n
                    invariant
                        i <= n,
                        vocabulary::id_of(self.vocab@, seq![script::ZWNJ]) == Some(id),
                        tokens@ == start + encoding::zwnj_ids(self.vocab@, i as nat),
                    decreases n - i,
                {
                    tokens.push(id);
                    i += 1;
                    assert(tokens@ =~= start + encoding::zwnj_ids(self.vocab@, i as nat));
                }
            },
            None => {
                assert(start + encoding::zwnj_ids(self.vocab@, n as nat) =~= start);
            },
        }
    }

    /// Appends the tokens of raw bytes.
    fn emit_byte_fallback(&self, bytes: &[u8], tokens: &mut Vec<TokenId>)
        requires
            self.wf(),
        ensures
            final(tokens)@ == old(tokens)@ + encoding::byte_ids(self.vocab@, bytes@),
    {
        let ghost v = self.vocab@;
        let ghost start = tokens@;
        let mut i: usize = 0;
        assert(start + encoding::byte_ids(v, bytes@.take(0)) =~= start);
        while i < bytes.len()
            invariant
                i <= bytes@.len(),
                self.wf(),
                v == self.vocab@,
                tokens@ == start + encoding::byte_ids(v, bytes@.take(i as int)),
            decreases bytes@.len() - i,
        {
            let byte: u8 = bytes[i];
            proof {
                assert(bytes@.take(i + 1).drop_last() =~= bytes@.take(i as int));
                assert(bytes@.take(i + 1).last() == byte);
                assert(self.byte_encoder@[byte as int] == alphabet::byte_char(byte));
            }
            let found = match self.vocab.get_id_by_byte(byte) {
                Some(id) => Some(id),
                None => {
                    let surface = text::char_string(self.byte_encoder[byte as usize]);
                    self.vocab.get_id_by_surface(surface.as_str())
                },
            };
            if let Some(id) = found {
                tokens.push(id);
            }
            assert(tokens@ =~= start + encoding::byte_ids(v, bytes@.take(i + 1)));
            i += 1;
        }
        assert(bytes@.take(bytes@.len() as int) =~= bytes@);
    }

    /// What tokens stand for, in pieces: the bytes of adjacent byte tokens together, and
    /// the surface of every other token.
    pub fn decode_parts(&self, token_ids: &[TokenId]) -> (parts: Vec<Part>)
        ensures
            part_models(parts@) == encoding::parts_of(self.vocab@, token_ids@),
    {
        let ghost v = self.vocab@;
        let mut parts: Vec<Part> = Vec::new();
        let mut byte_buf: Vec<u8> = Vec::new();
        let mut i: usize = 0;
        assert(pending(parts@, byte_buf@) =~= encoding::parts_of(v, token_ids@.take(0)));
        while i < token_ids.len()
            invariant
                i <= token_ids@.len(),
                v == self.vocab@,
                pending(parts@, byte_buf@) == encoding::parts_of(v, token_ids@.take(i as int)),
                parts@.len() > 0 ==> parts@.last() is Text,
            decreases token_ids@.len() - i,
        {
            let id: usize = token_ids[i];
            let ghost before = pending(parts@, byte_buf@);
            proof {
                assert(token_ids@.take(i + 1).drop_last() =~= token_ids@.take(i as int));
                assert(token_ids@.take(i + 1).last() == id);
            }
            let mut byte: Option<u8> = None;
            let mut surface = String::new();
            if let Some(token) = self.vocab.get_token(id) {
                match &**token {
                    Token::ByteFallback(b) => {
                        byte = Some(*b);
                    },
                    _ => {
                        if let Some(s) = self.vocab.get_surface(id) {
                            surface = s;
                        }
                    },
                }
            }
            match byte {
                Some(b) => {
                    let ghost held = byte_buf@;
                    byte_buf.push(b);
                    proof {
                        if held.len() > 0 {
                            assert(before.drop_last() =~= part_models(parts@));
                        } else {
                            assert(byte_buf@ =~= seq![b]);
                            assert(before =~= part_models(parts@));
                            if parts@.len() > 0 {
                                assert(before.last() == parts@.last()@);
                            }
                        }
                        assert(pending(parts@, byte_buf@) =~= encoding::with_byte(before, b));
                    }
                },
                None => {
                    if byte_buf.len() > 0 {
                        let mut bytes: Vec<u8> = Vec::new();
                        std::mem::swap(&mut bytes, &mut byte_buf);
                        parts.push(Part::Bytes(bytes));
                    }
                    assert(part_models(parts@) =~= before);
                    parts.push(Part::Text(surface));
                    assert(pending(parts@, byte_buf@) =~= before.push(PartModel::Text(surface@)));
                },
            }
            i += 1;
        }
        assert(token_ids@.take(token_ids@.len() as int) =~= token_ids@);
        let ghost end = pending(parts@, byte_buf@);
        if byte_buf.len() > 0 {
            parts.push(Part::Bytes(byte_buf));
        }
        assert(part_models(parts@) =~= end);
        parts
    }

    /// The text of tokens. Bytes that are no valid UTF-8 give replacement characters.
    pub fn decode(&self, token_ids: &[TokenId]) -> (s: String)
        ensures
            s@ == encoding::decoded(self.vocab@, token_ids@),
    {
        let parts = self.decode_parts(token_ids);
        let ghost models = part_models(parts@);
        let mut result = String::new();
        let mut i: usize = 0;
        assert(result@ =~= encoding::rendered(models.take(0)));
        while i < parts.len()
            invariant
                i <= parts@.len(),
                models == part_models(parts@),
                result@ == encoding::rendered(models.take(i as int)),
            decreases parts@.len() - i,
        {
            proof {
                assert(models.take(i + 1).drop_last() =~= models.take(i as int));
                assert(models.take(i + 1).last() == parts@[i as int]@);
            }
            match &parts[i] {
                Part::Bytes(bytes) => {
                    let s = text::from_utf8_lossy(bytes.as_slice());
                    result.append(s.as_str());
                },
                Part::Text(s) => {
                    result.append(s.as_str());
                },
            }
            i += 1;
        }
        assert(models.take(models.len() as int) =~= models);
        result
    }

    /// Whether a text comes back from its tokens as its normal form. With a vocabulary
    /// that can spell any text, it always does.
    pub fn verify_roundtrip(&self, s: &str) -> (r: bool)
        requires
            self.wf(),
        ensures
            r == (encoding::decoded(
                self.vocab@,
                encoding::encoded(self.vocab@, normalizer::normalized(self.normalizer@, s@), 0),
            ) == normalizer::normalized(self.normalizer@, s@)),
            encoding::lossless(self.vocab@) ==> r,
    {
        let ids = self.encode(s);
        let decoded = self.decode(ids.as_slice());
        proof {
            self.vocab.lemma_len();
            if encoding::lossless(self.vocab@) {
                encoding::law_round_trip(
                    self.vocab@,
                    normalizer::normalized(self.normalizer@, s@),
                );
            }
        }
        decoded == self.normalizer.normalize(s)
    }

    /// Rebuilds the vocabulary from saved pairs of an id and a surface.
    pub fn load_vocab(&mut self, pairs: Vec<(TokenId, String)>)
        requires
            old(self).wf(),
        ensures
            final(self).wf(),
            final(self).vocab@ == vocabulary::loaded(
                vocabulary::saved_pairs(pairs@),
                alphabet::byte_decoder(),
            ),
            final(self).normalizer == old(self).normalizer,
            final(self).akshara_dfa == old(self).akshara_dfa,
            final(self).paradigm_registry == old(self).paradigm_registry,
    {
        let decoder = alphabet::invert_alphabet(&self.byte_encoder);
        self.vocab.load_from_pairs(pairs, &decoder);
    }

    /// Rebuilds the vocabulary from the lines of a saved one. A line without a readable
    /// id is skipped. Returns how many tokens there are.
    pub fn load_vocab_lines(&mut self, lines: &Vec<String>) -> (n: usize)
        requires
            old(self).wf(),
        ensures
            final(self).wf(),
            final(self).vocab@ == vocabulary::loaded(
                tsv::parsed_lines(text::texts(lines@)),
                alphabet::byte_decoder(),
            ),
            n == final(self).vocab@.len(),
            final(self).normalizer == old(self).normalizer,
            final(self).akshara_dfa == old(self).akshara_dfa,
            final(self).paradigm_registry == old(self).paradigm_registry,
    {
        let pairs = tsv::parse_lines(lines);
        self.load_vocab(pairs);
        self.vocab.len()
    }
}

/// Pieces, and the bytes that follow them.
spec fn pending(parts: Seq<Part>, bytes: Seq<u8>) -> Seq<PartModel> {
    if bytes.len() > 0 {
        part_models(parts).push(PartModel::Bytes(bytes))
    } else {
        part_models(parts)
    }
}

/// Nothing is missed where no surface is tried that is longer than the longest.
proof fn lemma_cap(v: Seq<EntryModel>, s: Seq<char>, i: int, hi: int, n: int)
    requires
        v.len() <= usize::MAX,
        0 <= i < hi <= n <= s.len(),
        hi == n || hi - i >= vocabulary::longest(v),
    ensures
        encoding::longest_match(v, s, i, n) == encoding::longest_match(v, s, i, hi),
    decreases n,
{
    if hi < n {
        let piece = s.subrange(i, n);
        vocabulary::lemma_id_of(v, piece);
        if let Some(id) = vocabulary::id_of(v, piece) {
            vocabulary::lemma_longest(v, id as int);
        }
        lemma_cap(v, s, i, hi, n - 1);
    }
}

/// A list of pieces stands for all of them, in order, each with its bytes or its text.
pub proof fn law_part_models(parts: Seq<Part>, k: int)
    ensures
        part_models(parts).len() == parts.len(),
        0 <= k < parts.len() ==> match parts[k] {
            Part::Bytes(bytes) => part_models(parts)[k] == PartModel::Bytes(bytes@),
            Part::Text(s) => part_models(parts)[k] == PartModel::Text(s@),
        },
{
}

} // verus!
