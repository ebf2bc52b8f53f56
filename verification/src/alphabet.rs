//! The byte alphabet: a printable one-character surface for every raw byte.
use crate::script;
use crate::script::Script;
use std::collections::HashMap;
use vstd::prelude::*;
use vstd::utf8::*;

verus! {

/// Whether a byte is graphic ASCII.
pub open spec fn is_graphic(b: u8) -> bool {
    0x21 <= b <= 0x7E
}

/// Whether a byte is its own surface: graphic ASCII, or printable Latin-1.
pub open spec fn is_printable(b: u8) -> bool {
    ||| is_graphic(b)
    ||| 0xA1 <= b <= 0xAC
    ||| 0xAE <= b
}

/// The code point of the surface of a byte. A printable byte stands for itself;
/// the others are numbered from 256 on, in order.
pub open spec fn byte_code(b: u8) -> u32 {
    if is_printable(b) {
        b as u32
    } else if b <= 0x20 {
        (256 + b) as u32
    } else if b == 0x7F {
        289
    } else if b <= 0xA0 {
        (290 + (b - 0x80)) as u32
    } else {
        323
    }
}

/// The surface of a byte.
pub open spec fn byte_char(b: u8) -> char {
    byte_code(b) as char
}

/// The table of the byte alphabet: the surface of each byte.
pub fn bytes_to_unicode() -> (table: [char; 256])
    ensures
        forall|b: u8| #[trigger] table@[b as int] == byte_char(b),
{
    let mut table: [char; 256] = ['\u{0}'; 256];
    let mut n: u32 = 0;
    let mut i: usize = 0;
    while i < 256
        invariant
            i <= 256,
            n == (if i <= 0x21 {
                i as int
            } else if i <= 0x7F {
                33
            } else if i <= 0x80 {
                34
            } else if i <= 0xA1 {
                34 + (i - 0x80)
            } else if i <= 0xAD {
                67
            } else {
                68
            }),
            forall|b: u8| b < i ==> #[trigger] table@[b as int] == byte_char(b),
        decreases 256 - i,
    {
        let b: u8 = i as u8;
        let code: u32 = if (0x21 <= b && b <= 0x7E) || (0xA1 <= b && b <= 0xAC) || 0xAE <= b {
            b as u32
        } else {
            let c: u32 = 256 + n;
            n += 1;
            c
        };
        assert(code == byte_code(b));
        match char::from_u32(code) {
            Some(c) => {
                table[i] = c;
            },
            None => {
                assert(false);
            },
        }
        i += 1;
    }
    table
}

/// Whether a table is the byte alphabet.
pub open spec fn is_byte_encoder(encoder: Seq<char>) -> bool {
    forall|b: u8| #[trigger] encoder[b as int] == byte_char(b)
}

/// Whether a table leads from the surface of each byte back to the byte, and from
/// nothing else.
pub open spec fn is_byte_decoder(decoder: Map<u32, u8>) -> bool {
    &&& forall|b: u8|
        decoder.contains_key(#[trigger] byte_code(b)) && decoder[byte_code(b)]
            == b
    &&& forall|c: u32| #[trigger]
        decoder.contains_key(c) ==> byte_code(decoder[c]) == c
}

/// The table that leads from the code point of the surface of each byte back to the
/// byte.
pub open spec fn byte_decoder() -> Map<u32, u8> {
    Map::new(
        |c: u32| exists|b: u8| #[trigger] byte_code(b) == c,
        |c: u32| choose|b: u8| #[trigger] byte_code(b) == c,
    )
}

/// There is one such table.
pub proof fn lemma_byte_decoder(decoder: Map<u32, u8>)
    ensures
        is_byte_decoder(byte_decoder()),
        is_byte_decoder(decoder) ==> decoder == byte_decoder(),
{
    assert forall|x: u8, y: u8| #[trigger] byte_code(x) == #[trigger] byte_code(y) implies x == y by {
        law_byte_alphabet(x, y);
    }
    let d = byte_decoder();
    assert forall|b: u8| d.contains_key(#[trigger] byte_code(b)) && d[byte_code(b)] == b by {}
    if is_byte_decoder(decoder) {
        assert forall|c: u32| decoder.contains_key(c) <==> d.contains_key(c) by {
            if d.contains_key(c) {
                let b = choose|b: u8| #[trigger] byte_code(b) == c;
                assert(decoder.contains_key(byte_code(b)));
            }
        }
        assert forall|c: u32| decoder.contains_key(c) implies decoder[c] == d[c] by {
            assert(byte_code(decoder[c]) == c);
        }
        assert(decoder =~= d);
    }
}

/// Inverts the byte alphabet.
pub fn invert_alphabet(encoder: &[char; 256]) -> (decoder: HashMap<u32, u8>)
    requires
        is_byte_encoder(encoder@),
    ensures
        decoder@ == byte_decoder(),
{
    let mut decoder: HashMap<u32, u8> = HashMap::new();
    let mut i: usize = 0;
    while i < 256
        invariant
            i <= 256,
            is_byte_encoder(encoder@),
            forall|b: u8|
                b < i ==> decoder@.contains_key(#[trigger] byte_code(b)) && decoder@[byte_code(b)]
                    == b,
            forall|c: u32| #[trigger]
                decoder@.contains_key(c) ==> byte_code(decoder@[c]) == c && decoder@[c] < i,
        decreases 256 - i,
    {
        let b: u8 = i as u8;
        let ch: char = encoder[i];
        proof {
            assert(encoder@[b as int] == byte_char(b));
            law_byte_alphabet(b, b);
            assert forall|x: u8| #[trigger] byte_code(x) == byte_code(b) implies x == b by {
                law_byte_alphabet(x, b);
            }
        }
        decoder.insert(ch as u32, b);
        i += 1;
    }
    proof {
        lemma_byte_decoder(decoder@);
    }
    decoder
}

/// The surfaces of the bytes are all different, and none of them is a control
/// character or a space. A surface that has a script other than malformed is graphic
/// ASCII, and stands for itself.
pub proof fn law_byte_alphabet(x: u8, y: u8)
    ensures
        byte_char(x) == byte_char(y) ==> x == y,
        byte_char(x) as u32 == byte_code(x),
        0x21 <= byte_code(x) <= 0x7E || 0xA1 <= byte_code(x) <= 323,
        script::char_script(byte_char(x)) != Script::MAL ==> is_graphic(x),
        is_graphic(x) ==> byte_char(x) == x as char,
{
    assert(is_scalar(byte_code(x)));
    assert(is_scalar(byte_code(y)));
}

/// A printable byte, that is, a graphic one of ASCII or Latin-1, is its own surface. The
/// others are numbered without gaps from 256 on, in the order of the bytes.
pub proof fn law_byte_numbering(x: u8, y: u8)
    ensures
        0x21 <= x <= 0x7E || 0xA1 <= x <= 0xAC || 0xAE <= x ==> byte_char(x) as u32 == x,
        !(0x21 <= x <= 0x7E || 0xA1 <= x <= 0xAC || 0xAE <= x) ==> 0x100
            <= (byte_char(x) as u32) <= 0x143,
        x < y && !(0x21 <= x <= 0x7E || 0xA1 <= x <= 0xAC || 0xAE <= x) && !(0x21 <= y <= 0x7E
            || 0xA1 <= y <= 0xAC || 0xAE <= y) ==> (byte_char(x) as u32) < (byte_char(y) as u32),
{
    law_byte_alphabet(x, y);
    law_byte_alphabet(y, x);
}

/// The alphabet can be read backwards: the surface of a byte stands for that byte, and no
/// other character stands for any.
pub proof fn law_byte_decoder(b: u8, c: u32, encoder: Seq<char>)
    ensures
        byte_decoder().contains_key(byte_char(b) as u32),
        byte_decoder()[byte_char(b) as u32] == b,
        byte_decoder().contains_key(c) ==> byte_char(byte_decoder()[c]) as u32 == c,
        is_byte_encoder(encoder) ==> encoder[b as int] == byte_char(b),
{
    law_byte_alphabet(b, b);
    let code = byte_code(b);
    let x = choose|x: u8| #[trigger] byte_code(x) == code;
    law_byte_alphabet(x, b);
    if byte_decoder().contains_key(c) {
        let y = choose|y: u8| #[trigger] byte_code(y) == c;
        law_byte_alphabet(y, y);
    }
}

} // verus!
