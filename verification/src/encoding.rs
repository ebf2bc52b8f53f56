//! What encoding and decoding are, as mathematics, and that one undoes the other.
use crate::alphabet;
use crate::pairs::TokenId;
use crate::script;
use crate::script::Script;
use crate::text;
use crate::token::TokenModel;
use crate::vocabulary::EntryModel;
use crate::vocabulary;
use vstd::prelude::*;
use vstd::utf8::*;

verus! {

/// The token that spells a byte: its own, or else the one that has its surface.
pub open spec fn byte_token(v: Seq<EntryModel>, b: u8) -> Option<TokenId> {
    match vocabulary::byte_id_of(v, b) {
        Some(id) => Some(id),
        None => vocabulary::id_of(v, seq![alphabet::byte_char(b)]),
    }
}

/// The tokens that spell out bytes. A byte without a token is left out.
pub open spec fn byte_ids(v: Seq<EntryModel>, bytes: Seq<u8>) -> Seq<TokenId>
    decreases bytes.len(),
{
    if bytes.len() == 0 {
        Seq::empty()
    } else {
        let ids = byte_ids(v, bytes.drop_last());
        match byte_token(v, bytes.last()) {
            Some(id) => ids.push(id),
            None => ids,
        }
    }
}

/// The bytes of a character.
pub open spec fn char_bytes(c: char) -> Seq<u8> {
    encode_utf8(seq![c])
}

/// The end of the longest surface in the vocabulary that starts at `i` and ends at
/// `j` or before.
pub open spec fn longest_match(v: Seq<EntryModel>, s: Seq<char>, i: int, j: int) -> Option<int>
    decreases j - i,
{
    if j <= i {
        None
    } else if vocabulary::id_of(v, s.subrange(i, j)) is Some {
        Some(j)
    } else {
        longest_match(v, s, i, j - 1)
    }
}

/// The end that was found is that of the longest surface.
pub proof fn lemma_longest_match(v: Seq<EntryModel>, s: Seq<char>, i: int, j: int)
    ensures
        match longest_match(v, s, i, j) {
            Some(e) => i < e <= j && vocabulary::id_of(v, s.subrange(i, e)) is Some && (forall|
                k: int,
            |
                e < k <= j ==> vocabulary::id_of(v, #[trigger] s.subrange(i, k)) is None),
            None => forall|k: int|
                i < k <= j ==> vocabulary::id_of(v, #[trigger] s.subrange(i, k)) is None,
        },
    decreases j - i,
{
    if j > i && vocabulary::id_of(v, s.subrange(i, j)) is None {
        lemma_longest_match(v, s, i, j - 1);
    }
}

/// The tokens of a run from `i` on, by longest match. A character that no surface
/// starts with is spelled out in bytes.
pub open spec fn greedy_ids(v: Seq<EntryModel>, s: Seq<char>, i: int) -> Seq<TokenId>
    decreases s.len() - i,
{
    if i < 0 || i >= s.len() {
        Seq::empty()
    } else {
        proof {
            lemma_longest_match(v, s, i, s.len() as int);
        }
        match longest_match(v, s, i, s.len() as int) {
            Some(j) => seq![vocabulary::id_of(v, s.subrange(i, j))->0] + greedy_ids(v, s, j),
            None => byte_ids(v, char_bytes(s[i])) + greedy_ids(v, s, i + 1),
        }
    }
}

/// The tokens of a single character: its own, or those of its bytes.
pub open spec fn char_ids(v: Seq<EntryModel>, c: char) -> Seq<TokenId> {
    match vocabulary::id_of(v, seq![c]) {
        Some(id) => seq![id],
        None => byte_ids(v, char_bytes(c)),
    }
}

/// The tokens of a run, character by character.
pub open spec fn single_ids(v: Seq<EntryModel>, s: Seq<char>) -> Seq<TokenId>
    decreases s.len(),
{
    if s.len() == 0 {
        Seq::empty()
    } else {
        single_ids(v, s.drop_last()) + char_ids(v, s.last())
    }
}

/// The tokens of a run of non-joiners: one for each, where the vocabulary has it.
pub open spec fn zwnj_ids(v: Seq<EntryModel>, n: nat) -> Seq<TokenId>
    decreases n,
{
    if n == 0 {
        Seq::empty()
    } else {
        match vocabulary::id_of(v, seq![script::ZWNJ]) {
            Some(id) => zwnj_ids(v, (n - 1) as nat).push(id),
            None => Seq::empty(),
        }
    }
}

/// The tokens of a run of characters of one script.
pub open spec fn run_ids(v: Seq<EntryModel>, s: Seq<char>, script: Script) -> Seq<TokenId> {
    match script {
        Script::DEV => greedy_ids(v, s, 0),
        Script::LAT => greedy_ids(v, s, 0),
        Script::PUN => single_ids(v, s),
        Script::FMT => zwnj_ids(v, s.len()),
        Script::MAL => byte_ids(v, encode_utf8(s)),
    }
}

/// Where the run of the script of `s[i]` ends, looked for from `k` on.
pub open spec fn run_end(s: Seq<char>, i: int, k: int) -> int
    decreases s.len() - k,
{
    if k >= s.len() || script::char_script(s[k]) != script::char_script(s[i]) {
        k
    } else {
        run_end(s, i, k + 1)
    }
}

/// All of a run is of one script, and what follows is not.
pub proof fn lemma_run_end(s: Seq<char>, i: int, k: int)
    requires
        0 <= i <= k <= s.len(),
        forall|j: int|
            i <= j < k ==> script::char_script(#[trigger] s[j]) == script::char_script(s[i]),
    ensures
        k <= run_end(s, i, k) <= s.len(),
        forall|j: int|
            i <= j < run_end(s, i, k) ==> script::char_script(#[trigger] s[j])
                == script::char_script(s[i]),
        run_end(s, i, k) < s.len() ==> script::char_script(s[run_end(s, i, k)])
            != script::char_script(s[i]),
    decreases s.len() - k,
{
    if k < s.len() && script::char_script(s[k]) == script::char_script(s[i]) {
        lemma_run_end(s, i, k + 1);
    }
}

/// The tokens of a text from `i` on: run by run.
pub open spec fn encoded(v: Seq<EntryModel>, s: Seq<char>, i: int) -> Seq<TokenId>
    decreases s.len() - i,
{
    if i < 0 || i >= s.len() {
        Seq::empty()
    } else {
        proof {
            lemma_run_end(s, i, i + 1);
        }
        let e = run_end(s, i, i + 1);
        run_ids(v, s.subrange(i, e), script::char_script(s[i])) + encoded(v, s, e)
    }
}

/// A piece of what tokens stand for: bytes, or text.
pub enum PartModel {
    Bytes(Seq<u8>),
    Text(Seq<char>),
}

/// Pieces with one more byte. It joins the bytes that it follows.
pub open spec fn with_byte(parts: Seq<PartModel>, b: u8) -> Seq<PartModel> {
    if parts.len() > 0 && parts.last() is Bytes {
        parts.drop_last().push(PartModel::Bytes(parts.last()->Bytes_0.push(b)))
    } else {
        parts.push(PartModel::Bytes(seq![b]))
    }
}

/// What tokens stand for. A byte is told by the kind of its token; every other
/// token stands for its surface. An unknown token stands for nothing, but parts the
/// bytes before it from those behind it.
pub open spec fn parts_of(v: Seq<EntryModel>, ids: Seq<TokenId>) -> Seq<PartModel>
    decreases ids.len(),
{
    if ids.len() == 0 {
        Seq::empty()
    } else {
        let parts = parts_of(v, ids.drop_last());
        let id = ids.last();
        if id >= v.len() {
            parts.push(PartModel::Text(Seq::empty()))
        } else {
            match v[id as int].token {
                TokenModel::ByteFallback(b) => with_byte(parts, b),
                _ => parts.push(PartModel::Text(v[id as int].surface)),
            }
        }
    }
}

/// The text of a piece.
pub open spec fn part_text(part: PartModel) -> Seq<char> {
    match part {
        PartModel::Bytes(bytes) => text::lossy_utf8(bytes),
        PartModel::Text(s) => s,
    }
}

/// The text of pieces.
pub open spec fn rendered(parts: Seq<PartModel>) -> Seq<char>
    decreases parts.len(),
{
    if parts.len() == 0 {
        Seq::empty()
    } else {
        rendered(parts.drop_last()) + part_text(parts.last())
    }
}

/// The text of tokens.
pub open spec fn decoded(v: Seq<EntryModel>, ids: Seq<TokenId>) -> Seq<char> {
    rendered(parts_of(v, ids))
}

/// Whether a vocabulary can spell any text: it has a token for the non-joiner, it
/// spells every byte that UTF-8 can hold, and the token of a byte has no surface but
/// that of the byte.
pub open spec fn lossless(v: Seq<EntryModel>) -> bool {
    &&& vocabulary::id_of(v, seq![script::ZWNJ]) is Some
    &&& forall|b: u8| in_utf8(b) ==> #[trigger] spells(v, b)
    &&& forall|i: int| 0 <= i < v.len() ==> well_typed(#[trigger] v[i])
}

/// Whether a byte can occur in UTF-8. The others would start a character in more bytes
/// than it needs, or one beyond the last.
pub open spec fn in_utf8(b: u8) -> bool {
    b < 0xC0 || 0xC2 <= b <= 0xF4
}

/// Whether a vocabulary has a token that spells a byte: its own, or, for graphic ASCII,
/// any that has its surface, which is what the byte stands for.
pub open spec fn spells(v: Seq<EntryModel>, b: u8) -> bool {
    ||| vocabulary::byte_id_of(v, b) is Some
    ||| alphabet::is_graphic(b) && vocabulary::id_of(v, seq![alphabet::byte_char(b)]) is Some
}

/// Whether the token of a byte has the surface of that byte.
pub open spec fn well_typed(e: EntryModel) -> bool {
    match e.token {
        TokenModel::ByteFallback(b) => e.surface == seq![alphabet::byte_char(b)],
        _ => true,
    }
}

// ---------------------------------------------------------------------------
// Bytes
// ---------------------------------------------------------------------------

/// Texts can be encoded piece by piece.
pub proof fn lemma_encode_concat(x: Seq<char>, y: Seq<char>)
    ensures
        encode_utf8(x + y) == encode_utf8(x) + encode_utf8(y),
    decreases x.len(),
{
    if x.len() == 0 {
        assert(x + y =~= y);
        assert(encode_utf8(x) + encode_utf8(y) =~= encode_utf8(y));
    } else {
        lemma_encode_concat(x.drop_first(), y);
        assert((x + y).drop_first() =~= x.drop_first() + y);
        assert(encode_utf8(x + y) =~= encode_utf8(x) + encode_utf8(y));
    }
}

proof fn lemma_decode_concat(x: Seq<u8>, y: Seq<u8>)
    requires
        valid_utf8(x),
        valid_utf8(y),
    ensures
        valid_utf8(x + y),
        decode_utf8(x + y) == decode_utf8(x) + decode_utf8(y),
{
    valid_utf8_concat(x, y);
    decode_utf8_encode_utf8(x);
    decode_utf8_encode_utf8(y);
    lemma_encode_concat(decode_utf8(x), decode_utf8(y));
    encode_utf8_decode_utf8(decode_utf8(x) + decode_utf8(y));
}

/// Bytes can be spelled out piece by piece.
pub proof fn lemma_byte_ids_concat(v: Seq<EntryModel>, x: Seq<u8>, y: Seq<u8>)
    ensures
        byte_ids(v, x + y) == byte_ids(v, x) + byte_ids(v, y),
    decreases y.len(),
{
    if y.len() == 0 {
        assert(x + y =~= x);
        assert(byte_ids(v, x) + byte_ids(v, y) =~= byte_ids(v, x));
    } else {
        lemma_byte_ids_concat(v, x, y.drop_last());
        assert((x + y).drop_last() =~= x + y.drop_last());
        assert(byte_ids(v, x + y) =~= byte_ids(v, x) + byte_ids(v, y));
    }
}

/// The bytes of a character: one byte for ASCII, and no ASCII byte otherwise, nor one
/// that UTF-8 cannot hold.
proof fn lemma_char_bytes(c: char)
    ensures
        valid_utf8(char_bytes(c)),
        decode_utf8(char_bytes(c)) == seq![c],
        c as u32 <= 0x7F ==> char_bytes(c) == seq![c as u8],
        c as u32 > 0x7F ==> forall|k: int|
            0 <= k < char_bytes(c).len() ==> #[trigger] char_bytes(c)[k] >= 0x80 && in_utf8(
                char_bytes(c)[k],
            ),
{
    let s = seq![c];
    encode_utf8_valid_utf8(s);
    encode_utf8_decode_utf8(s);
    encode_utf8_first_scalar(s);
    char_is_scalar(c);
    if c as u32 <= 0x7F {
        assert(is_ascii_chars(s));
        is_ascii_chars_encode_utf8(s);
        assert(char_bytes(c) =~= seq![c as u8]);
    } else {
        reveal_with_fuel(encode_utf8, 2);
        assert(s.drop_first() =~= Seq::<char>::empty());
        let n = c as u32;
        assert(char_bytes(c) =~= encode_scalar(n));
        assert(0x80 <= n <= 0x7FF ==> 0xC2 <= (0xC0 | ((n >> 6) & 0x1F) as u8) <= 0xDF)
            by (bit_vector);
        assert(0xE0 <= (0xE0 | ((n >> 12) & 0x0F) as u8) <= 0xEF) by (bit_vector);
        assert(0x10000 <= n <= 0x10FFFF ==> 0xF0 <= (0xF0 | ((n >> 18) & 0x7) as u8) <= 0xF4)
            by (bit_vector);
        assert(0x80 <= (0x80 | (n & 0x3F) as u8) <= 0xBF) by (bit_vector);
        assert(0x80 <= (0x80 | ((n >> 6) & 0x3F) as u8) <= 0xBF) by (bit_vector);
        assert(0x80 <= (0x80 | ((n >> 12) & 0x3F) as u8) <= 0xBF) by (bit_vector);
    }
}

// ---------------------------------------------------------------------------
// Reading tokens back
// ---------------------------------------------------------------------------

/// Whether tokens read as a text, and end in no broken character.
#[verifier::opaque]
spec fn reads(v: Seq<EntryModel>, ids: Seq<TokenId>, s: Seq<char>) -> bool {
    let parts = parts_of(v, ids);
    &&& rendered(parts) == s
    &&& parts.len() > 0 && parts.last() is Bytes ==> valid_utf8(parts.last()->Bytes_0)
}

proof fn lemma_reads_text(v: Seq<EntryModel>, ids: Seq<TokenId>, s: Seq<char>, id: TokenId)
    requires
        reads(v, ids, s),
        id < v.len(),
        !(v[id as int].token is ByteFallback),
    ensures
        reads(v, ids.push(id), s + v[id as int].surface),
{
    reveal(reads);
    let parts = parts_of(v, ids);
    assert(ids.push(id).drop_last() =~= ids);
    let next = parts.push(PartModel::Text(v[id as int].surface));
    assert(parts_of(v, ids.push(id)) == next);
    assert(next.drop_last() =~= parts);
}

/// Pieces with more bytes.
spec fn with_bytes(parts: Seq<PartModel>, bytes: Seq<u8>) -> Seq<PartModel>
    decreases bytes.len(),
{
    if bytes.len() == 0 {
        parts
    } else {
        with_byte(with_bytes(parts, bytes.drop_last()), bytes.last())
    }
}

proof fn lemma_with_bytes(parts: Seq<PartModel>, bytes: Seq<u8>)
    requires
        bytes.len() > 0,
    ensures
        with_bytes(parts, bytes) == (if parts.len() > 0 && parts.last() is Bytes {
            parts.drop_last().push(PartModel::Bytes(parts.last()->Bytes_0 + bytes))
        } else {
            parts.push(PartModel::Bytes(bytes))
        }),
    decreases bytes.len(),
{
    let d = bytes.drop_last();
    let b = bytes.last();
    if d.len() > 0 {
        lemma_with_bytes(parts, d);
        if parts.len() > 0 && parts.last() is Bytes {
            let x = parts.last()->Bytes_0;
            let mid = parts.drop_last().push(PartModel::Bytes(x + d));
            assert(mid.drop_last() =~= parts.drop_last());
            assert((x + d).push(b) =~= x + bytes);
        } else {
            let mid = parts.push(PartModel::Bytes(d));
            assert(mid.drop_last() =~= parts);
            assert(d.push(b) =~= bytes);
        }
    } else {
        assert(with_bytes(parts, d) == parts);
        if parts.len() > 0 && parts.last() is Bytes {
            let x = parts.last()->Bytes_0;
            assert(x.push(b) =~= x + bytes);
        } else {
            assert(seq![b] =~= bytes);
        }
    }
}

/// Whether tokens are those of bytes, one for each.
spec fn stand_for(v: Seq<EntryModel>, more: Seq<TokenId>, bytes: Seq<u8>) -> bool {
    &&& more.len() == bytes.len()
    &&& forall|k: int|
        0 <= k < bytes.len() ==> (#[trigger] more[k]) < v.len() && v[more[k] as int].token
            == TokenModel::ByteFallback(bytes[k])
}

/// A byte that has a token of its own is spelled by it.
proof fn lemma_own_tokens(v: Seq<EntryModel>, bytes: Seq<u8>)
    requires
        v.len() <= usize::MAX,
        forall|k: int|
            0 <= k < bytes.len() ==> vocabulary::byte_id_of(v, #[trigger] bytes[k]) is Some,
    ensures
        stand_for(v, byte_ids(v, bytes), bytes),
    decreases bytes.len(),
{
    if bytes.len() > 0 {
        let d = bytes.drop_last();
        assert forall|k: int| 0 <= k < d.len() implies vocabulary::byte_id_of(
            v,
            #[trigger] d[k],
        ) is Some by {
            assert(d[k] == bytes[k]);
        }
        lemma_own_tokens(v, d);
        assert(vocabulary::byte_id_of(v, bytes[bytes.len() - 1]) is Some);
        vocabulary::lemma_byte_id_of(v, bytes.last());
        let ids = byte_ids(v, bytes);
        assert forall|k: int| 0 <= k < bytes.len() implies (#[trigger] ids[k]) < v.len()
            && v[ids[k] as int].token == TokenModel::ByteFallback(bytes[k]) by {
            if k < d.len() {
                assert(ids[k] == byte_ids(v, d)[k]);
                assert(d[k] == bytes[k]);
            }
        }
    }
}

/// Byte tokens are read as the bytes that they are the tokens of.
proof fn lemma_parts_bytes(
    v: Seq<EntryModel>,
    ids: Seq<TokenId>,
    more: Seq<TokenId>,
    bytes: Seq<u8>,
)
    requires
        stand_for(v, more, bytes),
    ensures
        parts_of(v, ids + more) == with_bytes(parts_of(v, ids), bytes),
    decreases bytes.len(),
{
    if bytes.len() == 0 {
        assert(ids + more =~= ids);
    } else {
        let d = bytes.drop_last();
        let m = more.drop_last();
        assert forall|k: int| 0 <= k < d.len() implies (#[trigger] m[k]) < v.len()
            && v[m[k] as int].token == TokenModel::ByteFallback(d[k]) by {
            assert(m[k] == more[k] && d[k] == bytes[k]);
        }
        lemma_parts_bytes(v, ids, m, d);
        assert(more[more.len() - 1] == more.last());
        assert((ids + more).drop_last() =~= ids + m);
    }
}

/// Whole characters in byte tokens are read back.
proof fn lemma_reads_bytes(
    v: Seq<EntryModel>,
    ids: Seq<TokenId>,
    s: Seq<char>,
    more: Seq<TokenId>,
    bytes: Seq<u8>,
)
    requires
        reads(v, ids, s),
        valid_utf8(bytes),
        stand_for(v, more, bytes),
    ensures
        reads(v, ids + more, s + decode_utf8(bytes)),
{
    reveal(reads);
    let parts = parts_of(v, ids);
    lemma_parts_bytes(v, ids, more, bytes);
    let next = parts_of(v, ids + more);
    if bytes.len() == 0 {
        assert(s + decode_utf8(bytes) =~= s);
    } else {
        lemma_with_bytes(parts, bytes);
        if parts.len() > 0 && parts.last() is Bytes {
            let x = parts.last()->Bytes_0;
            lemma_decode_concat(x, bytes);
            assert(next.drop_last() =~= parts.drop_last());
            assert(rendered(next) =~= s + decode_utf8(bytes));
        } else {
            assert(next.drop_last() =~= parts);
        }
    }
}

/// A character that is spelled out in bytes is read back.
proof fn lemma_reads_char(v: Seq<EntryModel>, ids: Seq<TokenId>, s: Seq<char>, c: char)
    requires
        v.len() <= usize::MAX,
        lossless(v),
        reads(v, ids, s),
    ensures
        reads(v, ids + byte_ids(v, char_bytes(c)), s.push(c)),
{
    let bytes = char_bytes(c);
    lemma_char_bytes(c);
    assert(s.push(c) =~= s + seq![c]);
    if c as u32 <= 0x7F {
        let b = c as u8;
        assert(spells(v, b));
        assert(bytes[0] == b);
        if vocabulary::byte_id_of(v, b) is Some {
            lemma_own_tokens(v, bytes);
            lemma_reads_bytes(v, ids, s, byte_ids(v, bytes), bytes);
        } else {
            let surface = seq![alphabet::byte_char(b)];
            vocabulary::lemma_id_of(v, surface);
            vocabulary::lemma_byte_id_of(v, b);
            let id = vocabulary::id_of(v, surface)->0;
            assert(well_typed(v[id as int]));
            if let TokenModel::ByteFallback(x) = v[id as int].token {
                alphabet::law_byte_alphabet(x, b);
                assert(seq![alphabet::byte_char(x)][0] == seq![alphabet::byte_char(b)][0]);
            }
            alphabet::law_byte_alphabet(b, b);
            assert(surface =~= seq![c]);
            lemma_reads_text(v, ids, s, id);
            assert(bytes.drop_last() =~= Seq::<u8>::empty());
            assert(byte_ids(v, bytes) =~= seq![id]) by {
                reveal_with_fuel(byte_ids, 2);
            }
            assert(ids.push(id) =~= ids + byte_ids(v, bytes));
        }
    } else {
        assert forall|k: int| 0 <= k < bytes.len() implies vocabulary::byte_id_of(
            v,
            #[trigger] bytes[k],
        ) is Some by {
            assert(bytes[k] >= 0x80);
            assert(spells(v, bytes[k]));
        }
        lemma_own_tokens(v, bytes);
        lemma_reads_bytes(v, ids, s, byte_ids(v, bytes), bytes);
    }
}

/// Bytes of whole characters are read back.
proof fn lemma_reads_malformed(v: Seq<EntryModel>, ids: Seq<TokenId>, s: Seq<char>, run: Seq<char>)
    requires
        v.len() <= usize::MAX,
        lossless(v),
        reads(v, ids, s),
    ensures
        reads(v, ids + byte_ids(v, encode_utf8(run)), s + run),
    decreases run.len(),
{
    if run.len() == 0 {
        assert(ids + byte_ids(v, encode_utf8(run)) =~= ids);
        assert(s + run =~= s);
    } else {
        let d = run.drop_last();
        let c = run.last();
        lemma_reads_malformed(v, ids, s, d);
        let mid = ids + byte_ids(v, encode_utf8(d));
        lemma_reads_char(v, mid, s + d, c);
        lemma_encode_concat(d, seq![c]);
        assert(d + seq![c] =~= run);
        lemma_byte_ids_concat(v, encode_utf8(d), char_bytes(c));
        assert(mid + byte_ids(v, char_bytes(c)) =~= ids + byte_ids(v, encode_utf8(run)));
        assert((s + d).push(c) =~= s + run);
    }
}

/// A token that was found under a surface is read back as that surface, where this
/// is no single malformed character.
proof fn lemma_reads_match(
    v: Seq<EntryModel>,
    ids: Seq<TokenId>,
    s: Seq<char>,
    surface: Seq<char>,
)
    requires
        v.len() <= usize::MAX,
        lossless(v),
        reads(v, ids, s),
        vocabulary::id_of(v, surface) is Some,
        surface.len() == 1 ==> script::char_script(surface[0]) != Script::MAL,
    ensures
        reads(v, ids.push(vocabulary::id_of(v, surface)->0), s + surface),
{
    vocabulary::lemma_id_of(v, surface);
    let id = vocabulary::id_of(v, surface)->0;
    let e = v[id as int];
    assert(well_typed(e));
    if let TokenModel::ByteFallback(b) = e.token {
        alphabet::law_byte_alphabet(b, b);
        let c = alphabet::byte_char(b);
        assert(surface == seq![c]);
        assert(surface[0] == c);
        lemma_char_bytes(c);
        let bytes = seq![b];
        assert(char_bytes(c) == bytes);
        assert(bytes[0] == b);
        lemma_reads_bytes(v, ids, s, seq![id], bytes);
        assert(ids.push(id) =~= ids + seq![id]);
    } else {
        lemma_reads_text(v, ids, s, id);
    }
}

proof fn lemma_reads_greedy(
    v: Seq<EntryModel>,
    ids: Seq<TokenId>,
    s: Seq<char>,
    run: Seq<char>,
    i: int,
)
    requires
        v.len() <= usize::MAX,
        lossless(v),
        reads(v, ids, s),
        0 <= i <= run.len(),
        forall|k: int|
            0 <= k < run.len() ==> script::char_script(#[trigger] run[k]) != Script::MAL,
    ensures
        reads(v, ids + greedy_ids(v, run, i), s + run.skip(i)),
    decreases run.len() - i,
{
    if i < run.len() {
        lemma_longest_match(v, run, i, run.len() as int);
        match longest_match(v, run, i, run.len() as int) {
            Some(j) => {
                let piece = run.subrange(i, j);
                assert(piece[0] == run[i]);
                lemma_reads_match(v, ids, s, piece);
                let next = ids.push(vocabulary::id_of(v, piece)->0);
                lemma_reads_greedy(v, next, s + piece, run, j);
                assert(next + greedy_ids(v, run, j) =~= ids + greedy_ids(v, run, i));
                assert(s + piece + run.skip(j) =~= s + run.skip(i));
            },
            None => {
                lemma_reads_char(v, ids, s, run[i]);
                let next = ids + byte_ids(v, char_bytes(run[i]));
                lemma_reads_greedy(v, next, s.push(run[i]), run, i + 1);
                assert(next + greedy_ids(v, run, i + 1) =~= ids + greedy_ids(v, run, i));
                assert(s.push(run[i]) + run.skip(i + 1) =~= s + run.skip(i));
            },
        }
    } else {
        assert(ids + greedy_ids(v, run, i) =~= ids);
        assert(s + run.skip(i) =~= s);
    }
}

proof fn lemma_reads_single(v: Seq<EntryModel>, ids: Seq<TokenId>, s: Seq<char>, run: Seq<char>)
    requires
        v.len() <= usize::MAX,
        lossless(v),
        reads(v, ids, s),
        forall|k: int|
            0 <= k < run.len() ==> script::char_script(#[trigger] run[k]) != Script::MAL,
    ensures
        reads(v, ids + single_ids(v, run), s + run),
    decreases run.len(),
{
    if run.len() == 0 {
        assert(ids + single_ids(v, run) =~= ids);
        assert(s + run =~= s);
    } else {
        let d = run.drop_last();
        let c = run.last();
        assert forall|k: int| 0 <= k < d.len() implies script::char_script(#[trigger] d[k]) != Script::MAL by {
            assert(d[k] == run[k]);
        }
        lemma_reads_single(v, ids, s, d);
        let mid = ids + single_ids(v, d);
        assert(run[run.len() - 1] == c);
        if vocabulary::id_of(v, seq![c]) is Some {
            assert(seq![c][0] == c);
            lemma_reads_match(v, mid, s + d, seq![c]);
            assert(mid.push(vocabulary::id_of(v, seq![c])->0) =~= ids + single_ids(v, run));
            assert(s + d + seq![c] =~= s + run);
        } else {
            lemma_reads_char(v, mid, s + d, c);
            assert(mid + byte_ids(v, char_bytes(c)) =~= ids + single_ids(v, run));
            assert((s + d).push(c) =~= s + run);
        }
    }
}

proof fn lemma_reads_zwnj(v: Seq<EntryModel>, ids: Seq<TokenId>, s: Seq<char>, run: Seq<char>)
    requires
        v.len() <= usize::MAX,
        lossless(v),
        reads(v, ids, s),
        forall|k: int| 0 <= k < run.len() ==> #[trigger] run[k] == script::ZWNJ,
    ensures
        reads(v, ids + zwnj_ids(v, run.len()), s + run),
    decreases run.len(),
{
    if run.len() == 0 {
        assert(ids + zwnj_ids(v, run.len()) =~= ids);
        assert(s + run =~= s);
    } else {
        let d = run.drop_last();
        let one = seq![script::ZWNJ];
        assert forall|k: int| 0 <= k < d.len() implies #[trigger] d[k] == script::ZWNJ by {
            assert(d[k] == run[k]);
        }
        lemma_reads_zwnj(v, ids, s, d);
        let mid = ids + zwnj_ids(v, d.len());
        assert(run[run.len() - 1] == script::ZWNJ);
        assert(one[0] == script::ZWNJ);
        lemma_reads_match(v, mid, s + d, one);
        assert(mid.push(vocabulary::id_of(v, one)->0) =~= ids + zwnj_ids(v, run.len()));
        assert(s + d + one =~= s + run);
    }
}

proof fn lemma_reads_encoded(
    v: Seq<EntryModel>,
    ids: Seq<TokenId>,
    t: Seq<char>,
    s: Seq<char>,
    i: int,
)
    requires
        v.len() <= usize::MAX,
        lossless(v),
        reads(v, ids, t),
        0 <= i <= s.len(),
    ensures
        reads(v, ids + encoded(v, s, i), t + s.skip(i)),
    decreases s.len() - i,
{
    if i < s.len() {
        lemma_run_end(s, i, i + 1);
        let e = run_end(s, i, i + 1);
        let run = s.subrange(i, e);
        let sc = script::char_script(s[i]);
        assert forall|k: int| 0 <= k < run.len() implies script::char_script(#[trigger] run[k]) == sc by {
            assert(run[k] == s[i + k]);
        }
        let next = ids + run_ids(v, run, sc);
        assert(reads(v, next, t + run)) by {
            match sc {
                Script::DEV => {
                    lemma_reads_greedy(v, ids, t, run, 0);
                    assert(run.skip(0) =~= run);
                },
                Script::LAT => {
                    lemma_reads_greedy(v, ids, t, run, 0);
                    assert(run.skip(0) =~= run);
                },
                Script::PUN => {
                    lemma_reads_single(v, ids, t, run);
                },
                Script::FMT => {
                    assert forall|k: int| 0 <= k < run.len() implies #[trigger] run[k] == script::ZWNJ by {
                        assert(script::char_script(run[k]) == Script::FMT);
                    }
                    lemma_reads_zwnj(v, ids, t, run);
                },
                Script::MAL => {
                    lemma_reads_malformed(v, ids, t, run);
                },
            }
        }
        lemma_reads_encoded(v, next, t + run, s, e);
        assert(next + encoded(v, s, e) =~= ids + encoded(v, s, i));
        assert(t + run + s.skip(e) =~= t + s.skip(i));
    } else {
        assert(ids + encoded(v, s, i) =~= ids);
        assert(t + s.skip(i) =~= t);
    }
}

// ---------------------------------------------------------------------------
// Laws
// ---------------------------------------------------------------------------

/// Encoding is lossless: with a vocabulary that can spell any text, decoding the
/// tokens of a text gives back the text, whatever characters it has.
pub proof fn law_round_trip(v: Seq<EntryModel>, s: Seq<char>)
    requires
        v.len() <= usize::MAX,
        lossless(v),
    ensures
        decoded(v, encoded(v, s, 0)) == s,
{
    reveal(reads);
    let none = Seq::<TokenId>::empty();
    assert(reads(v, none, Seq::<char>::empty()));
    lemma_reads_encoded(v, none, Seq::<char>::empty(), s, 0);
    assert(none + encoded(v, s, 0) =~= encoded(v, s, 0));
    assert(Seq::<char>::empty() + s.skip(0) =~= s);
}

/// Whether all tokens of a sequence are in a vocabulary.
pub open spec fn all_known(v: Seq<EntryModel>, ids: Seq<TokenId>) -> bool {
    forall|k: int| 0 <= k < ids.len() ==> #[trigger] ids[k] < v.len()
}

/// Whether no token of a sequence has an empty surface.
pub open spec fn all_visible(v: Seq<EntryModel>, ids: Seq<TokenId>) -> bool {
    forall|k: int| 0 <= k < ids.len() ==> vocabulary::surface_of(v, #[trigger] ids[k]).len() > 0
}

proof fn lemma_known_bytes(v: Seq<EntryModel>, bytes: Seq<u8>)
    requires
        v.len() <= usize::MAX,
    ensures
        all_known(v, byte_ids(v, bytes)),
        vocabulary::bytes_visible(v) ==> all_visible(v, byte_ids(v, bytes)),
    decreases bytes.len(),
{
    if bytes.len() > 0 {
        lemma_known_bytes(v, bytes.drop_last());
        vocabulary::lemma_byte_id_of(v, bytes.last());
        vocabulary::lemma_id_of(v, seq![alphabet::byte_char(bytes.last())]);
    }
}

proof fn lemma_known_greedy(v: Seq<EntryModel>, s: Seq<char>, i: int)
    requires
        v.len() <= usize::MAX,
    ensures
        all_known(v, greedy_ids(v, s, i)),
        vocabulary::bytes_visible(v) ==> all_visible(v, greedy_ids(v, s, i)),
    decreases s.len() - i,
{
    if 0 <= i < s.len() {
        lemma_longest_match(v, s, i, s.len() as int);
        match longest_match(v, s, i, s.len() as int) {
            Some(j) => {
                vocabulary::lemma_id_of(v, s.subrange(i, j));
                lemma_known_greedy(v, s, j);
            },
            None => {
                lemma_known_bytes(v, char_bytes(s[i]));
                lemma_known_greedy(v, s, i + 1);
            },
        }
    }
}

proof fn lemma_known_single(v: Seq<EntryModel>, s: Seq<char>)
    requires
        v.len() <= usize::MAX,
    ensures
        all_known(v, single_ids(v, s)),
        vocabulary::bytes_visible(v) ==> all_visible(v, single_ids(v, s)),
    decreases s.len(),
{
    if s.len() > 0 {
        lemma_known_single(v, s.drop_last());
        vocabulary::lemma_id_of(v, seq![s.last()]);
        lemma_known_bytes(v, char_bytes(s.last()));
    }
}

proof fn lemma_known_zwnj(v: Seq<EntryModel>, n: nat)
    requires
        v.len() <= usize::MAX,
    ensures
        all_known(v, zwnj_ids(v, n)),
        vocabulary::bytes_visible(v) ==> all_visible(v, zwnj_ids(v, n)),
    decreases n,
{
    if n > 0 {
        lemma_known_zwnj(v, (n - 1) as nat);
        vocabulary::lemma_id_of(v, seq![script::ZWNJ]);
    }
}

proof fn lemma_known_encoded(v: Seq<EntryModel>, s: Seq<char>, i: int)
    requires
        v.len() <= usize::MAX,
    ensures
        all_known(v, encoded(v, s, i)),
        vocabulary::bytes_visible(v) ==> all_visible(v, encoded(v, s, i)),
    decreases s.len() - i,
{
    if 0 <= i < s.len() {
        lemma_run_end(s, i, i + 1);
        let e = run_end(s, i, i + 1);
        let run = s.subrange(i, e);
        lemma_known_greedy(v, run, 0);
        lemma_known_single(v, run);
        lemma_known_zwnj(v, run.len());
        lemma_known_bytes(v, encode_utf8(run));
        lemma_known_encoded(v, s, e);
    }
}

/// The tokens of a text are all in the vocabulary, and none has an empty surface.
pub proof fn law_encoded_tokens_are_known(v: Seq<EntryModel>, s: Seq<char>)
    requires
        v.len() <= usize::MAX,
    ensures
        all_known(v, encoded(v, s, 0)),
        vocabulary::bytes_visible(v) ==> all_visible(v, encoded(v, s, 0)),
{
    lemma_known_encoded(v, s, 0);
}

// ---------------------------------------------------------------------------
// Which tokens a text is encoded into
// ---------------------------------------------------------------------------

/// Whether some token has a surface.
pub open spec fn is_surface(v: Seq<EntryModel>, s: Seq<char>) -> bool {
    exists|i: int| 0 <= i < v.len() && (#[trigger] v[i]).surface == s
}

/// A surface is found where some token has it.
proof fn lemma_is_surface(v: Seq<EntryModel>, s: Seq<char>)
    requires
        v.len() <= usize::MAX,
    ensures
        is_surface(v, s) <==> vocabulary::id_of(v, s) is Some,
        is_surface(v, s) ==> vocabulary::id_of(v, s)->0 < v.len() && v[vocabulary::id_of(v, s)->0 as int].surface
            == s,
{
    vocabulary::lemma_id_of(v, s);
    if let Some(id) = vocabulary::id_of(v, s) {
        assert(v[id as int].surface == s);
    }
}

/// Bytes are spelled one by one: each by the last of its own tokens, where it has any;
/// otherwise by the token that has its surface; and by nothing where there is none.
pub proof fn law_bytes_one_by_one(v: Seq<EntryModel>, x: Seq<u8>, b: u8)
    requires
        v.len() <= usize::MAX,
    ensures
        byte_ids(v, seq![b] + x) == byte_ids(v, seq![b]) + byte_ids(v, x),
        byte_ids(v, Seq::<u8>::empty()).len() == 0,
        byte_ids(v, seq![b]).len() <= 1,
        forall|i: int|
            0 <= i < v.len() && (#[trigger] v[i]).token == TokenModel::ByteFallback(b) ==> byte_ids(
                v,
                seq![b],
            ).len() == 1 && i <= byte_ids(v, seq![b])[0] < v.len() && v[byte_ids(
                v,
                seq![b],
            )[0] as int].token == TokenModel::ByteFallback(b),
        (forall|i: int| 0 <= i < v.len() ==> (#[trigger] v[i]).token != TokenModel::ByteFallback(b))
            ==> {
            if is_surface(v, seq![alphabet::byte_char(b)]) {
                &&& byte_ids(v, seq![b]).len() == 1
                &&& byte_ids(v, seq![b])[0] < v.len()
                &&& v[byte_ids(v, seq![b])[0] as int].surface == seq![alphabet::byte_char(b)]
                &&& vocabulary::id_of(v, seq![alphabet::byte_char(b)]) == Some(
                    byte_ids(v, seq![b])[0],
                )
            } else {
                byte_ids(v, seq![b]).len() == 0
            }
        },
{
    let one = seq![b];
    lemma_byte_ids_concat(v, one, x);
    assert(one.drop_last() =~= Seq::<u8>::empty());
    reveal_with_fuel(byte_ids, 2);
    vocabulary::lemma_byte_id_of(v, b);
    lemma_is_surface(v, seq![alphabet::byte_char(b)]);
}

proof fn lemma_run_end_shift(p: Seq<char>, y: Seq<char>, i: int, k: int)
    requires
        0 <= i < k <= y.len(),
    ensures
        run_end(p + y, p.len() + i, p.len() + k) == p.len() + run_end(y, i, k),
    decreases y.len() - k,
{
    let s = p + y;
    assert(s[p.len() + i] == y[i]);
    if k < y.len() {
        assert(s[p.len() + k] == y[k]);
        lemma_run_end_shift(p, y, i, k + 1);
    }
}

/// What a text is encoded into from a place on does not depend on what stands before it.
proof fn lemma_encoded_shift(v: Seq<EntryModel>, p: Seq<char>, y: Seq<char>, i: int)
    requires
        0 <= i <= y.len(),
    ensures
        encoded(v, p + y, p.len() + i) == encoded(v, y, i),
    decreases y.len() - i,
{
    let s = p + y;
    if i < y.len() {
        assert(s[p.len() + i] == y[i]);
        lemma_run_end(y, i, i + 1);
        lemma_run_end_shift(p, y, i, i + 1);
        let e = run_end(y, i, i + 1);
        assert(s.subrange(p.len() + i, p.len() + e) =~= y.subrange(i, e));
        lemma_encoded_shift(v, p, y, e);
    }
}

/// Where a run ends, looked for within the first part of a text.
proof fn lemma_run_end_within(x: Seq<char>, y: Seq<char>, i: int, k: int)
    requires
        0 <= i < k <= x.len(),
        run_end(x, i, k) < x.len() || y.len() == 0 || script::char_script(y[0])
            != script::char_script(x[i]),
    ensures
        run_end(x + y, i, k) == run_end(x, i, k),
    decreases x.len() - k,
{
    let s = x + y;
    assert(s[i] == x[i]);
    if k < x.len() {
        assert(s[k] == x[k]);
        if script::char_script(x[k]) == script::char_script(x[i]) {
            lemma_run_end_within(x, y, i, k + 1);
        }
    } else if y.len() > 0 {
        assert(s[k] == y[0]);
    }
}

/// Where a run ends that goes on in the second part of a text.
proof fn lemma_run_end_across(x: Seq<char>, y: Seq<char>, i: int, k: int)
    requires
        0 <= i < k <= x.len(),
        y.len() > 0,
        run_end(x, i, k) == x.len(),
        script::char_script(y[0]) == script::char_script(x[i]),
    ensures
        run_end(x + y, i, k) == x.len() + run_end(y, 0, 1),
    decreases x.len() - k,
{
    let s = x + y;
    assert(s[i] == x[i]);
    if k < x.len() {
        assert(s[k] == x[k]);
        if script::char_script(x[k]) == script::char_script(x[i]) {
            lemma_run_end_across(x, y, i, k + 1);
        }
    } else {
        lemma_run_end_from(s, i, x.len() as int, x.len() as int + 1);
        lemma_run_end_shift(x, y, 0, 1);
        assert(s[k] == y[0]);
    }
}

/// Only the script that a run is of matters, not the place that it is read off.
proof fn lemma_run_end_from(s: Seq<char>, i: int, j: int, k: int)
    requires
        0 <= i < s.len(),
        0 <= j < s.len(),
        script::char_script(s[i]) == script::char_script(s[j]),
    ensures
        run_end(s, i, k) == run_end(s, j, k),
    decreases s.len() - k,
{
    if k < s.len() && script::char_script(s[k]) == script::char_script(s[i]) {
        lemma_run_end_from(s, i, j, k + 1);
    }
}

proof fn lemma_single_concat(v: Seq<EntryModel>, a: Seq<char>, b: Seq<char>)
    ensures
        single_ids(v, a + b) == single_ids(v, a) + single_ids(v, b),
    decreases b.len(),
{
    if b.len() == 0 {
        assert(a + b =~= a);
        assert(single_ids(v, a) + single_ids(v, b) =~= single_ids(v, a));
    } else {
        lemma_single_concat(v, a, b.drop_last());
        assert((a + b).drop_last() =~= a + b.drop_last());
        assert(single_ids(v, a + b) =~= single_ids(v, a) + single_ids(v, b));
    }
}

proof fn lemma_zwnj_concat(v: Seq<EntryModel>, m: nat, n: nat)
    ensures
        zwnj_ids(v, m + n) == zwnj_ids(v, m) + zwnj_ids(v, n),
    decreases n,
{
    if n == 0 {
        assert(zwnj_ids(v, m) + zwnj_ids(v, n) =~= zwnj_ids(v, m));
    } else {
        lemma_zwnj_concat(v, m, (n - 1) as nat);
        assert(zwnj_ids(v, m + n) =~= zwnj_ids(v, m) + zwnj_ids(v, n));
    }
}

/// A run that is not matched greedily can be cut anywhere.
proof fn lemma_run_concat(v: Seq<EntryModel>, a: Seq<char>, b: Seq<char>, sc: Script)
    requires
        sc != Script::DEV,
        sc != Script::LAT,
    ensures
        run_ids(v, a + b, sc) == run_ids(v, a, sc) + run_ids(v, b, sc),
{
    lemma_single_concat(v, a, b);
    lemma_zwnj_concat(v, a.len(), b.len());
    lemma_encode_concat(a, b);
    lemma_byte_ids_concat(v, encode_utf8(a), encode_utf8(b));
}

proof fn lemma_encoded_cut(v: Seq<EntryModel>, x: Seq<char>, y: Seq<char>, i: int)
    requires
        0 <= i <= x.len(),
        x.len() > 0 && y.len() > 0 && script::char_script(x.last()) == script::char_script(y[0])
            ==> script::char_script(y[0]) != Script::DEV && script::char_script(y[0])
            != Script::LAT,
    ensures
        encoded(v, x + y, i) == encoded(v, x, i) + encoded(v, y, 0),
    decreases x.len() - i,
{
    let s = x + y;
    let n = x.len() as int;
    if i == n {
        lemma_encoded_shift(v, x, y, 0);
        assert(encoded(v, x, i) + encoded(v, y, 0) =~= encoded(v, y, 0));
    } else {
        lemma_run_end(x, i, i + 1);
        let e = run_end(x, i, i + 1);
        let a = x.subrange(i, e);
        let sc = script::char_script(x[i]);
        assert(s[i] == x[i]);
        if e == n && y.len() > 0 && script::char_script(y[0]) == sc {
            assert(script::char_script(x[n - 1]) == sc);
            lemma_run_end_across(x, y, i, i + 1);
            lemma_run_end(y, 0, 1);
            let f = run_end(y, 0, 1);
            let b = y.subrange(0, f);
            assert(s.subrange(i, n + f) =~= a + b);
            lemma_run_concat(v, a, b, sc);
            lemma_encoded_shift(v, x, y, f);
            assert(encoded(v, x, n) =~= Seq::<TokenId>::empty());
            assert(encoded(v, s, i) =~= encoded(v, x, i) + encoded(v, y, 0));
        } else {
            lemma_run_end_within(x, y, i, i + 1);
            assert(s.subrange(i, e) =~= a);
            lemma_encoded_cut(v, x, y, e);
            assert(encoded(v, s, i) =~= encoded(v, x, i) + encoded(v, y, 0));
        }
    }
}

/// A text can be cut and encoded in two parts wherever it does not tear a run of
/// Devanagari or of Latin letters apart.
pub proof fn law_encoding_in_parts(v: Seq<EntryModel>, x: Seq<char>, y: Seq<char>)
    requires
        x.len() > 0 && y.len() > 0 && script::char_script(x.last()) == script::char_script(y[0])
            ==> script::char_script(y[0]) != Script::DEV && script::char_script(y[0])
            != Script::LAT,
    ensures
        encoded(v, x + y, 0) == encoded(v, x, 0) + encoded(v, y, 0),
{
    lemma_encoded_cut(v, x, y, 0);
}

/// A single character is encoded into the token that has it for a surface, unless it is
/// malformed. Otherwise it is spelled in the bytes of its UTF-8 encoding, but for a
/// non-joiner, which then has no tokens.
pub proof fn law_encoding_a_character(v: Seq<EntryModel>, c: char)
    requires
        v.len() <= usize::MAX,
    ensures
        script::char_script(c) != Script::MAL && is_surface(v, seq![c]) ==> encoded(
            v,
            seq![c],
            0,
        ).len() == 1 && encoded(v, seq![c], 0)[0] < v.len() && v[encoded(
            v,
            seq![c],
            0,
        )[0] as int].surface == seq![c] && vocabulary::id_of(v, seq![c]) == Some(
            encoded(v, seq![c], 0)[0],
        ),
        script::char_script(c) == Script::FMT && !is_surface(v, seq![c]) ==> encoded(
            v,
            seq![c],
            0,
        ).len() == 0,
        script::char_script(c) == Script::MAL || (script::char_script(c) != Script::FMT
            && !is_surface(v, seq![c])) ==> encoded(v, seq![c], 0) == byte_ids(
            v,
            encode_utf8(seq![c]),
        ),
        encoded(v, Seq::<char>::empty(), 0).len() == 0,
{
    let s = seq![c];
    lemma_is_surface(v, s);
    lemma_run_end(s, 0, 1);
    assert(run_end(s, 0, 1) == 1);
    let run = s.subrange(0, 1);
    assert(run =~= s);
    assert(s.subrange(0, 1) =~= s);
    let sc = script::char_script(c);
    assert(encoded(v, s, 1) =~= Seq::<TokenId>::empty());
    assert(encoded(v, s, 0) =~= run_ids(v, s, sc));
    lemma_longest_match(v, s, 0, 1);
    match longest_match(v, s, 0, 1) {
        Some(j) => {
            assert(j == 1);
        },
        None => {
            assert(vocabulary::id_of(v, s.subrange(0, 1)) is None);
        },
    }
    assert(greedy_ids(v, s, 1) =~= Seq::<TokenId>::empty());
    assert(single_ids(v, s) =~= char_ids(v, c)) by {
        assert(s.drop_last() =~= Seq::<char>::empty());
        reveal_with_fuel(single_ids, 2);
    }
    assert(zwnj_ids(v, 1) =~= if vocabulary::id_of(v, seq![script::ZWNJ]) is Some {
        seq![vocabulary::id_of(v, seq![script::ZWNJ])->0]
    } else {
        Seq::<TokenId>::empty()
    }) by {
        reveal_with_fuel(zwnj_ids, 2);
    }
    match sc {
        Script::DEV => {
            assert(greedy_ids(v, s, 0) =~= char_ids(v, c));
        },
        Script::LAT => {
            assert(greedy_ids(v, s, 0) =~= char_ids(v, c));
        },
        _ => {},
    }
}

/// Whether a text is of one script all through.
pub open spec fn all_of(s: Seq<char>, sc: Script) -> bool {
    forall|k: int| 0 <= k < s.len() ==> script::char_script(#[trigger] s[k]) == sc
}

proof fn lemma_match_shift(v: Seq<EntryModel>, s: Seq<char>, i: int, j: int)
    requires
        0 <= i <= j <= s.len(),
    ensures
        longest_match(v, s, i, j) == (match longest_match(v, s.skip(i), 0, j - i) {
            Some(e) => Some(e + i),
            None => None,
        }),
    decreases j - i,
{
    if j > i {
        assert(s.skip(i).subrange(0, j - i) =~= s.subrange(i, j));
        lemma_match_shift(v, s, i, j - 1);
    }
}

proof fn lemma_greedy_shift(v: Seq<EntryModel>, s: Seq<char>, i: int, k: int)
    requires
        0 <= i <= k <= s.len(),
    ensures
        greedy_ids(v, s, k) == greedy_ids(v, s.skip(i), k - i),
    decreases s.len() - k,
{
    let t = s.skip(i);
    if k < s.len() {
        let n = s.len() as int;
        lemma_match_shift(v, s, k, n);
        lemma_match_shift(v, t, k - i, n - i);
        assert(t.skip(k - i) =~= s.skip(k));
        lemma_longest_match(v, s, k, n);
        match longest_match(v, s, k, n) {
            Some(j) => {
                assert(t.subrange(k - i, j - i) =~= s.subrange(k, j));
                lemma_greedy_shift(v, s, i, j);
            },
            None => {
                assert(t[k - i] == s[k]);
                lemma_greedy_shift(v, s, i, k + 1);
            },
        }
    }
}

/// A text that is all Devanagari or all Latin is one run.
proof fn lemma_one_run(v: Seq<EntryModel>, s: Seq<char>, sc: Script)
    requires
        all_of(s, sc),
        sc == Script::DEV || sc == Script::LAT,
    ensures
        encoded(v, s, 0) == greedy_ids(v, s, 0),
{
    if s.len() > 0 {
        lemma_run_end(s, 0, 1);
        let e = run_end(s, 0, 1);
        assert(script::char_script(s[0]) == sc);
        if e < s.len() {
            assert(script::char_script(s[e]) == sc);
        }
        assert(s.subrange(0, e) =~= s);
        assert(encoded(v, s, e) =~= Seq::<TokenId>::empty());
        assert(encoded(v, s, 0) =~= greedy_ids(v, s, 0));
    }
}

/// Encoding takes the longest match, in Devanagari and in Latin text of any length: the
/// first token is that of the longest prefix that is a surface, and the rest of the text is
/// encoded on its own. Where no prefix is a surface, the first character is spelled in
/// bytes.
pub proof fn law_encoding_takes_the_longest_match(
    v: Seq<EntryModel>,
    s: Seq<char>,
    sc: Script,
    j: int,
)
    requires
        v.len() <= usize::MAX,
        sc == Script::DEV || sc == Script::LAT,
        all_of(s, sc),
        0 < j <= s.len(),
        forall|k: int| j < k <= s.len() ==> !is_surface(v, #[trigger] s.take(k)),
        is_surface(v, s.take(j)) || j == 1,
    ensures
        is_surface(v, s.take(j)) ==> encoded(v, s, 0).len() > 0 && encoded(v, s, 0)[0] < v.len()
            && v[encoded(v, s, 0)[0] as int].surface == s.take(j) && vocabulary::id_of(v, s.take(j))
            == Some(encoded(v, s, 0)[0]) && encoded(v, s, 0).skip(1) == encoded(v, s.skip(j), 0),
        !is_surface(v, s.take(j)) ==> encoded(v, s, 0) == byte_ids(v, encode_utf8(seq![s[0]]))
            + encoded(v, s.skip(1), 0),
{
    let n = s.len() as int;
    let t = s.skip(j);
    assert forall|k: int| 0 <= k < t.len() implies script::char_script(#[trigger] t[k]) == sc by {
        assert(t[k] == s[j + k]);
    }
    lemma_one_run(v, s, sc);
    lemma_one_run(v, t, sc);
    lemma_greedy_shift(v, s, j, j);
    lemma_longest_match(v, s, 0, n);
    lemma_is_surface(v, s.take(j));
    assert(s.subrange(0, j) =~= s.take(j));
    match longest_match(v, s, 0, n) {
        Some(e) => {
            assert(s.subrange(0, e) =~= s.take(e));
            lemma_is_surface(v, s.take(e));
            if e > j {
                assert(!is_surface(v, s.take(e)));
            }
            if e < j {
                assert(vocabulary::id_of(v, s.subrange(0, j)) is None);
            }
            assert(encoded(v, s, 0).skip(1) =~= encoded(v, t, 0));
        },
        None => {
            assert(vocabulary::id_of(v, s.subrange(0, j)) is None);
        },
    }
}

// ---------------------------------------------------------------------------
// Which text tokens stand for
// ---------------------------------------------------------------------------

/// Whether a token is that of a byte.
pub open spec fn is_byte(v: Seq<EntryModel>, id: TokenId) -> bool {
    id < v.len() && v[id as int].token is ByteFallback
}

proof fn lemma_parts_concat(v: Seq<EntryModel>, x: Seq<TokenId>, y: Seq<TokenId>)
    requires
        x.len() > 0 && y.len() > 0 ==> !is_byte(v, x.last()) || !is_byte(v, y[0]),
    ensures
        parts_of(v, x + y) == parts_of(v, x) + parts_of(v, y),
    decreases y.len(),
{
    let px = parts_of(v, x);
    if y.len() == 0 {
        assert(x + y =~= x);
        assert(px + parts_of(v, y) =~= px);
    } else {
        let d = y.drop_last();
        let id = y.last();
        if d.len() > 0 {
            assert(d[0] == y[0]);
        }
        lemma_parts_concat(v, x, d);
        assert((x + y).drop_last() =~= x + d);
        let pd = parts_of(v, d);
        if is_byte(v, id) {
            let b = v[id as int].token->ByteFallback_0;
            if d.len() > 0 {
                lemma_parts_nonempty(v, d);
                assert((px + pd).drop_last() =~= px + pd.drop_last());
                assert((px + pd).last() == pd.last());
                assert(with_byte(px + pd, b) =~= px + with_byte(pd, b));
            } else {
                assert(pd =~= Seq::<PartModel>::empty());
                assert(px + pd =~= px);
                if x.len() > 0 {
                    assert(y[0] == id);
                    assert(px.last() is Text);
                }
                assert(with_byte(px, b) =~= px + with_byte(pd, b));
            }
        }
        assert(parts_of(v, x + y) =~= px + parts_of(v, y));
    }
}

proof fn lemma_parts_nonempty(v: Seq<EntryModel>, ids: Seq<TokenId>)
    requires
        ids.len() > 0,
    ensures
        parts_of(v, ids).len() > 0,
{
}

proof fn lemma_rendered_concat(x: Seq<PartModel>, y: Seq<PartModel>)
    ensures
        rendered(x + y) == rendered(x) + rendered(y),
    decreases y.len(),
{
    if y.len() == 0 {
        assert(x + y =~= x);
        assert(rendered(x) + rendered(y) =~= rendered(x));
    } else {
        lemma_rendered_concat(x, y.drop_last());
        assert((x + y).drop_last() =~= x + y.drop_last());
        assert(rendered(x + y) =~= rendered(x) + rendered(y));
    }
}

/// A token that is no byte stands for its surface, whatever is around it, and what is
/// before it and behind it is decoded apart. An unknown token stands for nothing.
pub proof fn law_decoding_a_token(
    v: Seq<EntryModel>,
    x: Seq<TokenId>,
    id: TokenId,
    y: Seq<TokenId>,
)
    requires
        !is_byte(v, id),
    ensures
        id < v.len() ==> decoded(v, x + seq![id] + y) == decoded(v, x) + v[id as int].surface
            + decoded(v, y),
        id >= v.len() ==> decoded(v, x + seq![id] + y) == decoded(v, x) + decoded(v, y),
        id < v.len() ==> parts_of(v, x + seq![id] + y) == parts_of(v, x).push(
            PartModel::Text(v[id as int].surface),
        ) + parts_of(v, y),
        id >= v.len() ==> parts_of(v, x + seq![id] + y) == parts_of(v, x).push(
            PartModel::Text(Seq::empty()),
        ) + parts_of(v, y),
        decoded(v, Seq::<TokenId>::empty()).len() == 0,
{
    let one = seq![id];
    lemma_parts_concat(v, x, one);
    lemma_parts_concat(v, x + one, y);
    lemma_rendered_concat(parts_of(v, x + one), parts_of(v, y));
    lemma_rendered_concat(parts_of(v, x), parts_of(v, one));
    let s = if id < v.len() {
        v[id as int].surface
    } else {
        Seq::<char>::empty()
    };
    assert(one.drop_last() =~= Seq::<TokenId>::empty());
    assert(parts_of(v, one.drop_last()) =~= Seq::<PartModel>::empty());
    assert(parts_of(v, one) =~= seq![PartModel::Text(s)]);
    let p = seq![PartModel::Text(s)];
    assert(p.drop_last() =~= Seq::<PartModel>::empty());
    assert(rendered(p.drop_last()) =~= Seq::<char>::empty());
    assert(rendered(p) =~= s);
    assert(parts_of(v, x) + p =~= parts_of(v, x).push(PartModel::Text(s)));
    if id >= v.len() {
        assert(decoded(v, x) + s + decoded(v, y) =~= decoded(v, x) + decoded(v, y));
    }
}

/// Adjacent byte tokens are read together, however many there are: as the text that their
/// bytes encode, where they are UTF-8.
pub proof fn law_decoding_bytes(v: Seq<EntryModel>, ids: Seq<TokenId>, bytes: Seq<u8>)
    requires
        ids.len() == bytes.len(),
        bytes.len() > 0,
        forall|k: int|
            0 <= k < ids.len() ==> (#[trigger] ids[k]) < v.len() && v[ids[k] as int].token
                == TokenModel::ByteFallback(bytes[k]),
    ensures
        parts_of(v, ids) == seq![PartModel::Bytes(bytes)],
        valid_utf8(bytes) ==> decoded(v, ids) == decode_utf8(bytes),
        !valid_utf8(bytes) ==> decoded(v, ids) == text::replaced_utf8(bytes),
{
    let none = Seq::<TokenId>::empty();
    lemma_parts_bytes(v, none, ids, bytes);
    lemma_with_bytes(parts_of(v, none), bytes);
    assert(none + ids =~= ids);
    assert(parts_of(v, none) =~= Seq::<PartModel>::empty());
    assert(parts_of(v, ids) =~= seq![PartModel::Bytes(bytes)]);
    let p = seq![PartModel::Bytes(bytes)];
    assert(p.drop_last() =~= Seq::<PartModel>::empty());
    assert(rendered(p.drop_last()) =~= Seq::<char>::empty());
    assert(rendered(p) =~= text::lossy_utf8(bytes));
}

} // verus!
