//! Script classes.
use vstd::prelude::*;

verus! {

/// The script class of a character or a token. Every character has one.
#[derive(Debug, Clone, Copy, PartialEq, Eq, Hash, Structural)]
pub enum Script {
    DEV,
    LAT,
    PUN,
    FMT,
    MAL,
}

impl Script {
    /// The priority of a script among merges: Devanagari first, then punctuation.
    pub open spec fn spec_rank(self) -> u8 {
        match self {
            Script::DEV => 2,
            Script::PUN => 1,
            _ => 0,
        }
    }

    /// The priority of a script among merges.
    pub fn rank(&self) -> (r: u8)
        ensures
            r == self.spec_rank(),
    {
        match self {
            Script::DEV => 2,
            Script::PUN => 1,
            _ => 0,
        }
    }
}

/// The zero width non-joiner.
pub const ZWNJ: char = '\u{200C}';

/// The zero width joiner.
pub const ZWJ: char = '\u{200D}';

/// Whether a character is an ASCII letter.
pub open spec fn is_ascii_letter(c: char) -> bool {
    'a' <= c <= 'z' || 'A' <= c <= 'Z'
}

/// Whether a character is an ASCII letter or digit.
pub open spec fn is_ascii_alnum(c: char) -> bool {
    is_ascii_letter(c) || '0' <= c <= '9'
}

/// Whether a character is ASCII punctuation: graphic, but no letter or digit.
pub open spec fn is_ascii_punct(c: char) -> bool {
    '!' <= c <= '~' && !is_ascii_alnum(c)
}

/// The script class of a character.
pub open spec fn char_script(c: char) -> Script {
    if c == ZWNJ {
        Script::FMT
    } else if is_ascii_punct(c) || c == '\u{0964}' || c == '\u{0965}' {
        Script::PUN
    } else if is_ascii_letter(c) {
        Script::LAT
    } else if '\u{0900}' <= c <= '\u{097F}' {
        Script::DEV
    } else {
        Script::MAL
    }
}

/// Whether a character is an ASCII letter or digit.
pub fn ascii_alnum(c: char) -> (r: bool)
    ensures
        r == is_ascii_alnum(c),
{
    ('a' <= c && c <= 'z') || ('A' <= c && c <= 'Z') || ('0' <= c && c <= '9')
}

/// The script class of a character.
pub fn classify_char(c: char) -> (r: Script)
    ensures
        r == char_script(c),
{
    let letter: bool = ('a' <= c && c <= 'z') || ('A' <= c && c <= 'Z');
    if c == ZWNJ {
        Script::FMT
    } else if ('!' <= c && c <= '~' && !ascii_alnum(c)) || c == '\u{0964}' || c == '\u{0965}' {
        Script::PUN
    } else if letter {
        Script::LAT
    } else if '\u{0900}' <= c && c <= '\u{097F}' {
        Script::DEV
    } else {
        Script::MAL
    }
}

/// Which characters are of which script, by their code points: the non-joiner alone is
/// formatting, the ASCII letters are Latin, the dandas and what else is graphic in ASCII
/// but digits is punctuation, the rest of the Devanagari block is Devanagari, and all
/// other characters are malformed.
pub proof fn law_scripts_by_code_point(c: char)
    ensures
        char_script(c) == Script::FMT <==> c as u32 == 0x200C,
        char_script(c) == Script::LAT <==> 0x41 <= c as u32 <= 0x5A || 0x61 <= c as u32 <= 0x7A,
        char_script(c) == Script::PUN <==> 0x21 <= c as u32 <= 0x2F || 0x3A <= c as u32 <= 0x40
            || 0x5B <= c as u32 <= 0x60 || 0x7B <= c as u32 <= 0x7E || 0x964 <= c as u32 <= 0x965,
        char_script(c) == Script::DEV <==> 0x900 <= c as u32 <= 0x963 || 0x966 <= c as u32 <= 0x97F,
        is_ascii_alnum(c) <==> 0x30 <= c as u32 <= 0x39 || 0x41 <= c as u32 <= 0x5A || 0x61
            <= c as u32 <= 0x7A,
{
}

/// Devanagari goes before punctuation, and punctuation before the other scripts, none of
/// which goes before another.
pub proof fn law_script_ranks(s: Script)
    ensures
        s != Script::DEV ==> s.spec_rank() < Script::DEV.spec_rank(),
        s != Script::DEV && s != Script::PUN ==> s.spec_rank() < Script::PUN.spec_rank(),
        s != Script::DEV && s != Script::PUN ==> s.spec_rank() == Script::LAT.spec_rank(),
{
}

} // verus!
