//! Text primitives: strings as sequences of characters, and the few library
//! calls that the rest of the crate builds on.
use unicode_normalization::UnicodeNormalization;
use vstd::hash_set::StringHashSet;
use vstd::prelude::*;
use vstd::string::*;
use vstd::utf8::*;

verus! {

/// `String::push` appends the one character that it is given.
pub assume_specification[ String::push ](s: &mut String, c: char)
    ensures
        final(s)@ == old(s)@.push(c),
;

/// `char::from_u32` gives the character with the scalar value `i`, and `None`
/// where `i` is not a Unicode scalar value.
pub assume_specification[ char::from_u32 ](i: u32) -> (c: Option<char>)
    ensures
        c == (if is_scalar(i) { Some(i as char) } else { None }),
;

/// Whether a character has the Unicode `White_Space` property. The Unicode Character
/// Database lists these characters in `PropList.txt`.
pub open spec fn white_space(c: char) -> bool {
    let n = c as u32;
    ||| 0x09 <= n <= 0x0D
    ||| n == 0x20
    ||| n == 0x85
    ||| n == 0xA0
    ||| n == 0x1680
    ||| 0x2000 <= n <= 0x200A
    ||| 0x2028 <= n <= 0x2029
    ||| n == 0x202F
    ||| n == 0x205F
    ||| n == 0x3000
}

/// `char::is_whitespace` tests whether a character has the `White_Space` property,
/// which [`white_space`] writes out.
pub assume_specification[ char::is_whitespace ](c: char) -> (b: bool)
    ensures
        b == white_space(c),
;

/// The Unicode Normalization Form C of a text.
pub uninterp spec fn nfc(text: Seq<char>) -> Seq<char>;

/// `UnicodeNormalization::nfc` brings a text into Unicode Normalization Form C
/// (canonical decomposition followed by canonical composition), here named
/// [`nfc`].
#[verifier::external_body]
pub(crate) fn to_nfc(s: &str) -> (r: String)
    ensures
        r@ == nfc(s@),
{
    s.nfc().collect()
}

/// What lossy decoding makes of bytes that are not valid UTF-8.
pub uninterp spec fn replaced_utf8(bytes: Seq<u8>) -> Seq<char>;

/// The text that bytes are read as: their UTF-8 decoding where they are valid,
/// a text with replacement characters where they are not.
pub open spec fn lossy_utf8(bytes: Seq<u8>) -> Seq<char> {
    if valid_utf8(bytes) {
        decode_utf8(bytes)
    } else {
        replaced_utf8(bytes)
    }
}

/// `String::from_utf8_lossy` decodes valid UTF-8 exactly. On other bytes its
/// result, in which replacement characters stand for what is invalid, is named
/// [`replaced_utf8`].
#[verifier::external_body]
pub(crate) fn from_utf8_lossy(bytes: &[u8]) -> (r: String)
    ensures
        r@ == (if valid_utf8(bytes@) { decode_utf8(bytes@) } else { replaced_utf8(bytes@) }),
{
    String::from_utf8_lossy(bytes).into_owned()
}

/// The characters of a string.
pub fn chars_of(s: &str) -> (r: Vec<char>)
    ensures
        r@ == s@,
{
    let mut out: Vec<char> = Vec::new();
    for c in it: s.chars()
        invariant
            out@ == it.seq().take(it.index() as int),
            it.seq() == s@,
    {
        out.push(c);
        assert(it.seq().take(it.index() + 1) =~= it.seq().take(it.index() as int).push(c));
    }
    assert(s@.take(s@.len() as int) =~= s@);
    out
}

/// The string of the characters `chars[from..to]`.
pub fn string_of(chars: &[char], from: usize, to: usize) -> (r: String)
    requires
        from <= to <= chars@.len(),
    ensures
        r@ == chars@.subrange(from as int, to as int),
{
    let mut out = String::new();
    let mut i: usize = from;
    while i < to
        invariant
            from <= i <= to <= chars@.len(),
            out@ == chars@.subrange(from as int, i as int),
        decreases to - i,
    {
        out.push(chars[i]);
        i += 1;
        assert(chars@.subrange(from as int, i as int) =~= chars@.subrange(
            from as int,
            i - 1,
        ).push(chars@[i - 1]));
    }
    out
}

/// The string of one character.
pub fn char_string(c: char) -> (r: String)
    ensures
        r@ == seq![c],
{
    let mut out = String::new();
    out.push(c);
    assert(out@ =~= seq![c]);
    out
}

/// The texts of a list of strings.
pub open spec fn texts(list: Seq<String>) -> Seq<Seq<char>> {
    list.map_values(|s: String| s@)
}

/// The set of the strings of a list.
pub fn string_set(list: &Vec<String>) -> (r: StringHashSet)
    ensures
        r@ == texts(list@).to_set(),
{
    let mut set = StringHashSet::new();
    let mut i: usize = 0;
    assert(texts(list@).take(0).to_set() =~= Set::<Seq<char>>::empty());
    while i < list.len()
        invariant
            i <= list@.len(),
            set@ == texts(list@).take(i as int).to_set(),
        decreases list@.len() - i,
    {
        set.insert(list[i].clone());
        proof {
            let t = texts(list@);
            let x = t.take(i as int);
            let y = t.take(i + 1);
            assert(y =~= x.push(t[i as int]));
            assert forall|s: Seq<char>| #[trigger] y.contains(s) <==> x.contains(s) || s == t[i as int] by {
                if x.contains(s) {
                    let k = choose|k: int| 0 <= k < x.len() && x[k] == s;
                    assert(y[k] == s);
                }
                assert(y[i as int] == t[i as int]);
            }
            assert(y.to_set() =~= x.to_set().insert(t[i as int]));
        }
        i += 1;
    }
    assert(texts(list@).take(list@.len() as int) =~= texts(list@));
    set
}

/// Where the word ends that starts at a place: before the next white space, or at
/// the end.
pub open spec fn word_end(s: Seq<char>, i: int) -> int
    decreases s.len() - i,
{
    if i >= s.len() || white_space(s[i]) {
        i
    } else {
        word_end(s, i + 1)
    }
}

/// A word ends behind the place that it is looked for from.
pub proof fn lemma_word_end(s: Seq<char>, i: int)
    requires
        i <= s.len(),
    ensures
        i <= word_end(s, i) <= s.len(),
        i < s.len() && !white_space(s[i]) ==> i < word_end(s, i),
        forall|j: int| i <= j < word_end(s, i) ==> !white_space(#[trigger] s[j]),
        word_end(s, i) < s.len() ==> white_space(s[word_end(s, i)]),
    decreases s.len() - i,
{
    if i < s.len() && !white_space(s[i]) {
        lemma_word_end(s, i + 1);
    }
}

/// The words of a text from a place on: what stands between white space.
pub open spec fn words_from(s: Seq<char>, i: int) -> Seq<Seq<char>>
    decreases s.len() - i,
{
    if i < 0 || i >= s.len() {
        Seq::empty()
    } else if white_space(s[i]) {
        words_from(s, i + 1)
    } else {
        proof {
            lemma_word_end(s, i);
        }
        seq![s.subrange(i, word_end(s, i))] + words_from(s, word_end(s, i))
    }
}

/// Splits a text into words.
pub fn split_words(s: &str) -> (r: Vec<String>)
    ensures
        texts(r@) == words_from(s@, 0),
{
    let chars = chars_of(s);
    let n: usize = chars.len();
    let mut out: Vec<String> = Vec::new();
    let mut i: usize = 0;
    assert(texts(out@) + words_from(chars@, 0) =~= words_from(chars@, 0));
    while i < n
        invariant
            i <= n == chars@.len(),
            chars@ == s@,
            texts(out@) + words_from(chars@, i as int) == words_from(s@, 0),
        decreases n - i,
    {
        if chars[i].is_whitespace() {
            i += 1;
        } else {
            let mut j: usize = i;
            while j < n && !chars[j].is_whitespace()
                invariant
                    i <= j <= n == chars@.len(),
                    word_end(chars@, i as int) == word_end(chars@, j as int),
                decreases n - j,
            {
                j += 1;
            }
            proof {
                lemma_word_end(chars@, i as int);
            }
            let ghost before = out@;
            let word = string_of(chars.as_slice(), i, j);
            out.push(word);
            proof {
                assert(texts(out@) =~= texts(before).push(word@));
                assert(texts(before) + words_from(chars@, i as int) =~= texts(before).push(word@)
                    + words_from(chars@, j as int));
            }
            i = j;
        }
    }
    assert(texts(out@) + words_from(chars@, i as int) =~= texts(out@));
    out
}

/// Splitting takes out the white space and nothing else: the words put together are
/// the text without it, and no word is empty or has white space in it.
pub proof fn law_split_words(s: Seq<char>)
    ensures
        words_from(s, 0).flatten() == s.filter(|c: char| !white_space(c)),
        forall|k: int| 0 <= k < words_from(s, 0).len() ==> is_word(#[trigger] words_from(s, 0)[k]),
{
    lemma_split_words(s, 0);
    assert(s.skip(0) =~= s);
}

/// Whether a text is not empty and has no white space in it.
pub open spec fn is_word(w: Seq<char>) -> bool {
    w.len() > 0 && forall|i: int| 0 <= i < w.len() ==> !white_space(#[trigger] w[i])
}

proof fn lemma_filter_word(w: Seq<char>)
    requires
        forall|i: int| 0 <= i < w.len() ==> !white_space(#[trigger] w[i]),
    ensures
        w.filter(|c: char| !white_space(c)) == w,
    decreases w.len(),
{
    reveal(Seq::filter);
    if w.len() > 0 {
        let d = w.drop_last();
        assert forall|i: int| 0 <= i < d.len() implies !white_space(#[trigger] d[i]) by {
            assert(d[i] == w[i]);
        }
        lemma_filter_word(d);
        assert(!white_space(w[w.len() - 1]));
        assert(d.push(w.last()) =~= w);
    }
}

proof fn lemma_split_words(s: Seq<char>, i: int)
    requires
        0 <= i <= s.len(),
    ensures
        words_from(s, i).flatten() == s.skip(i).filter(|c: char| !white_space(c)),
        forall|k: int| 0 <= k < words_from(s, i).len() ==> is_word(#[trigger] words_from(s, i)[k]),
    decreases s.len() - i,
{
    let f = |c: char| !white_space(c);
    if i < s.len() {
        if white_space(s[i]) {
            lemma_split_words(s, i + 1);
            let one = seq![s[i]];
            assert(s.skip(i) =~= one + s.skip(i + 1));
            Seq::filter_distributes_over_add(one, s.skip(i + 1), f);
            assert(one.filter(f) =~= Seq::<char>::empty()) by {
                reveal(Seq::filter);
                assert(one.drop_last().filter(f) =~= Seq::<char>::empty());
            }
            assert(one.filter(f) + s.skip(i + 1).filter(f) =~= s.skip(i + 1).filter(f));
        } else {
            let e = word_end(s, i);
            lemma_word_end(s, i);
            lemma_split_words(s, e);
            let w = s.subrange(i, e);
            let rest = words_from(s, e);
            assert(s.skip(i) =~= w + s.skip(e));
            Seq::filter_distributes_over_add(w, s.skip(e), f);
            assert forall|j: int| 0 <= j < w.len() implies !white_space(#[trigger] w[j]) by {
                assert(w[j] == s[i + j]);
            }
            lemma_filter_word(w);
            assert((seq![w] + rest).drop_first() =~= rest);
        }
    } else {
        assert(s.skip(i) =~= Seq::<char>::empty());
        reveal(Seq::filter);
        assert(s.skip(i).filter(f) =~= Seq::<char>::empty());
    }
}

/// A list of strings stands for all of their texts, in order.
pub proof fn law_texts(list: Seq<String>, k: int)
    ensures
        texts(list).len() == list.len(),
        0 <= k < list.len() ==> texts(list)[k] == list[k]@,
{
}

/// White space parts words, wherever it stands: the words of a text are those before it
/// and those behind it. What has no white space in it is one word, however long.
pub proof fn law_white_space_parts_words(x: Seq<char>, c: char, y: Seq<char>)
    requires
        white_space(c),
    ensures
        words_from(x + seq![c] + y, 0) == words_from(x, 0) + words_from(y, 0),
        (forall|i: int| 0 <= i < x.len() ==> !white_space(#[trigger] x[i])) && x.len() > 0
            ==> words_from(x, 0) == seq![x],
        x.len() == 0 ==> words_from(x, 0).len() == 0,
{
    lemma_words_parted(x, c, y, 0);
    if (forall|i: int| 0 <= i < x.len() ==> !white_space(#[trigger] x[i])) && x.len() > 0 {
        lemma_word_end(x, 0);
        let e = word_end(x, 0);
        assert(e == x.len());
        assert(x.subrange(0, e) =~= x);
        assert(words_from(x, e) =~= Seq::<Seq<char>>::empty());
        assert(words_from(x, 0) =~= seq![x]);
    }
}

proof fn lemma_words_shift(p: Seq<char>, y: Seq<char>, i: int)
    requires
        0 <= i <= y.len(),
    ensures
        word_end(p + y, p.len() + i) == p.len() + word_end(y, i),
        words_from(p + y, p.len() + i) == words_from(y, i),
    decreases y.len() - i,
{
    let s = p + y;
    if i < y.len() {
        assert(s[p.len() + i] == y[i]);
        lemma_words_shift(p, y, i + 1);
        if !white_space(y[i]) {
            lemma_word_end(y, i);
            let e = word_end(y, i);
            lemma_words_shift(p, y, e);
            assert(s.subrange(p.len() + i, p.len() + e) =~= y.subrange(i, e));
        }
    }
}

proof fn lemma_word_end_parted(x: Seq<char>, c: char, y: Seq<char>, i: int)
    requires
        white_space(c),
        0 <= i <= x.len(),
    ensures
        word_end(x + seq![c] + y, i) == word_end(x, i),
    decreases x.len() - i,
{
    let s = x + seq![c] + y;
    if i < x.len() {
        assert(s[i] == x[i]);
        lemma_word_end_parted(x, c, y, i + 1);
    } else {
        assert(s[i] == c);
    }
}

proof fn lemma_words_parted(x: Seq<char>, c: char, y: Seq<char>, i: int)
    requires
        white_space(c),
        0 <= i <= x.len(),
    ensures
        words_from(x + seq![c] + y, i) == words_from(x, i) + words_from(y, 0),
    decreases x.len() - i,
{
    let s = x + seq![c] + y;
    if i < x.len() {
        assert(s[i] == x[i]);
        if white_space(x[i]) {
            lemma_words_parted(x, c, y, i + 1);
        } else {
            lemma_word_end_parted(x, c, y, i);
            lemma_word_end(x, i);
            let e = word_end(x, i);
            lemma_words_parted(x, c, y, e);
            assert(s.subrange(i, e) =~= x.subrange(i, e));
            assert(words_from(s, i) =~= words_from(x, i) + words_from(y, 0));
        }
    } else {
        assert(s[i] == c);
        lemma_words_shift(x + seq![c], y, 0);
        assert(words_from(s, i) =~= words_from(x, i) + words_from(y, 0));
    }
}

/// White space, by code point: the controls from tab to carriage return, the blank, and the
/// spaces and separators beyond ASCII. Nothing graphic in ASCII is white space, no Devanagari
/// character is, and no joiner or non-joiner is.
pub proof fn law_white_space(c: char)
    ensures
        c as u32 <= 0x7F ==> (white_space(c) <==> c == ' ' || c == '\t' || c == '\n' || c == '\r'
            || c as u32 == 0x0B || c as u32 == 0x0C),
        0x80 <= c as u32 <= 0x1FFF ==> (white_space(c) <==> c as u32 == 0x85 || c as u32 == 0xA0
            || c as u32 == 0x1680),
        0x2000 <= c as u32 <= 0x2FFF ==> (white_space(c) <==> c as u32 <= 0x200A || c as u32
            == 0x2028 || c as u32 == 0x2029 || c as u32 == 0x202F || c as u32 == 0x205F),
        0x3000 <= c as u32 ==> (white_space(c) <==> c as u32 == 0x3000),
{
}

} // verus!
