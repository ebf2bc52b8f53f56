//! Saved vocabularies: lines of an id, a tab, and an escaped surface.
use crate::pairs::TokenId;
use crate::text;
use crate::vocabulary;
use vstd::prelude::*;

verus! {

/// How a character is written in a saved surface.
pub open spec fn escaped_char(c: char) -> Seq<char> {
    if c == '\\' {
        seq!['\\', '\\']
    } else if c == '\t' {
        seq!['\\', 't']
    } else if c == '\n' {
        seq!['\\', 'n']
    } else {
        seq![c]
    }
}

/// How a surface is saved: on one line and without tabs.
pub open spec fn escaped(s: Seq<char>) -> Seq<char>
    decreases s.len(),
{
    if s.len() == 0 {
        s
    } else {
        escaped_char(s[0]) + escaped(s.skip(1))
    }
}

/// What a backslash and the character behind it stand for.
pub open spec fn unescaped_char(c: char) -> Seq<char> {
    if c == 't' {
        seq!['\t']
    } else if c == 'n' {
        seq!['\n']
    } else if c == '\\' {
        seq!['\\']
    } else {
        seq!['\\', c]
    }
}

/// The surface that was saved, read from left to right from a place on. A
/// backslash that escapes nothing stands for itself.
pub open spec fn unescaped(s: Seq<char>, i: int) -> Seq<char>
    decreases s.len() - i,
{
    if i < 0 || i >= s.len() {
        Seq::empty()
    } else if s[i] != '\\' {
        seq![s[i]] + unescaped(s, i + 1)
    } else if i + 1 < s.len() {
        unescaped_char(s[i + 1]) + unescaped(s, i + 2)
    } else {
        seq!['\\']
    }
}

/// Reads a saved surface.
pub fn unescape_tsv(s: &str) -> (r: String)
    ensures
        r@ == unescaped(s@, 0),
{
    let chars = text::chars_of(s);
    unescape_chars(&chars, 0)
}

/// Reads a saved surface from a place on.
fn unescape_chars(chars: &Vec<char>, from: usize) -> (r: String)
    requires
        from <= chars@.len(),
    ensures
        r@ == unescaped(chars@, from as int),
{
    let mut out = String::new();
    let n: usize = chars.len();
    let mut i: usize = from;
    while i < n
        invariant
            from <= i <= n == chars@.len(),
            out@ + unescaped(chars@, i as int) == unescaped(chars@, from as int),
        decreases n - i,
    {
        let ghost before = out@;
        let ghost at = i as int;
        let c: char = chars[i];
        if c != '\\' {
            out.push(c);
            i += 1;
        } else if n - i > 1 {
            let e: char = chars[i + 1];
            if e == 't' {
                out.push('\t');
            } else if e == 'n' {
                out.push('\n');
            } else if e == '\\' {
                out.push('\\');
            } else {
                out.push('\\');
                out.push(e);
            }
            i += 2;
        } else {
            out.push('\\');
            i += 1;
        }
        assert(out@ + unescaped(chars@, i as int) =~= before + unescaped(chars@, at));
    }
    assert(out@ + unescaped(chars@, i as int) =~= out@);
    out
}

/// Whether a character is a decimal digit.
pub open spec fn is_digit(c: char) -> bool {
    '0' <= c <= '9'
}

/// Whether a text has digits only.
pub open spec fn all_digits(s: Seq<char>) -> bool {
    forall|i: int| 0 <= i < s.len() ==> is_digit(#[trigger] s[i])
}

/// The number that digits stand for.
pub open spec fn number(s: Seq<char>) -> nat
    decreases s.len(),
{
    if s.len() == 0 {
        0
    } else {
        10 * number(s.drop_last()) + ((s.last() as u32 - 48) as nat)
    }
}

/// A text without a plus sign in front.
pub open spec fn unsigned(s: Seq<char>) -> Seq<char> {
    if s.len() > 0 && s[0] == '+' {
        s.skip(1)
    } else {
        s
    }
}

/// The id that a text stands for: digits, perhaps behind a plus sign, whose number
/// the machine can hold.
pub open spec fn parsed_id(s: Seq<char>) -> Option<TokenId> {
    let d = unsigned(s);
    if d.len() > 0 && all_digits(d) && number(d) <= usize::MAX {
        Some(number(d) as usize)
    } else {
        None
    }
}

/// The place of the first tab from `i` on, or the end.
pub open spec fn first_tab(s: Seq<char>, i: int) -> int
    decreases s.len() - i,
{
    if i < 0 || i >= s.len() || s[i] == '\t' {
        i
    } else {
        first_tab(s, i + 1)
    }
}

/// What a line of a saved vocabulary says: the id before the first tab, and the
/// surface behind it. A line without a tab has the empty surface; a line without
/// a readable id says nothing.
pub open spec fn parsed_line(line: Seq<char>) -> Option<(TokenId, Seq<char>)> {
    let t = first_tab(line, 0);
    match parsed_id(line.take(t)) {
        Some(id) => Some((id, unescaped(line, t + 1))),
        None => None,
    }
}

/// What the lines of a saved vocabulary say.
pub open spec fn parsed_lines(lines: Seq<Seq<char>>) -> Seq<(TokenId, Seq<char>)>
    decreases lines.len(),
{
    if lines.len() == 0 {
        Seq::empty()
    } else {
        match parsed_line(lines.last()) {
            Some(p) => parsed_lines(lines.drop_last()).push(p),
            None => parsed_lines(lines.drop_last()),
        }
    }
}

proof fn lemma_number_prefix(s: Seq<char>, k: int)
    requires
        0 <= k <= s.len(),
        all_digits(s),
    ensures
        number(s.take(k)) <= number(s),
    decreases s.len(),
{
    if k < s.len() {
        let d = s.drop_last();
        assert forall|i: int| 0 <= i < d.len() implies is_digit(#[trigger] d[i]) by {
            assert(d[i] == s[i]);
        }
        lemma_number_prefix(d, k);
        assert(d.take(k) =~= s.take(k));
        assert(is_digit(s[s.len() - 1]));
    } else {
        assert(s.take(k) =~= s);
    }
}

/// Reads an id from `chars[..end]`.
fn parse_id(chars: &Vec<char>, end: usize) -> (r: Option<TokenId>)
    requires
        end <= chars@.len(),
    ensures
        r == parsed_id(chars@.take(end as int)),
{
    let ghost whole = chars@.take(end as int);
    let ghost d = unsigned(whole);
    let start: usize = if end > 0 && chars[0] == '+' {
        1
    } else {
        0
    };
    if start >= end {
        return None;
    }
    assert(d =~= chars@.subrange(start as int, end as int));
    let mut acc: usize = 0;
    let mut i: usize = start;
    assert(d.take(0) =~= Seq::<char>::empty());
    while i < end
        invariant
            start <= i <= end <= chars@.len(),
            whole == chars@.take(end as int),
            d == unsigned(whole),
            d == chars@.subrange(start as int, end as int),
            d.len() > 0,
            forall|j: int| 0 <= j < i - start ==> is_digit(#[trigger] d[j]),
            acc == number(d.take(i - start)),
        decreases end - i,
    {
        let c: char = chars[i];
        let ghost k = i - start;
        assert(d[k] == c);
        if !('0' <= c && c <= '9') {
            assert(!is_digit(d[k]));
            return None;
        }
        let digit: usize = (c as u32 - 48) as usize;
        proof {
            assert(d.take(k + 1).drop_last() =~= d.take(k));
            assert(d.take(k + 1).last() == c);
            assert(number(d.take(k + 1)) == 10 * acc + digit);
        }
        if acc > (usize::MAX - digit) / 10 {
            proof {
                if all_digits(d) {
                    lemma_number_prefix(d, k + 1);
                }
            }
            return None;
        }
        acc = acc * 10 + digit;
        i += 1;
    }
    assert(d.take(d.len() as int) =~= d);
    Some(acc)
}

/// Reads a line of a saved vocabulary.
pub fn parse_line(line: &str) -> (r: Option<(TokenId, String)>)
    ensures
        match r {
            Some(p) => parsed_line(line@) == Some((p.0, p.1@)),
            None => parsed_line(line@) is None,
        },
{
    let chars = text::chars_of(line);
    let n: usize = chars.len();
    let mut t: usize = 0;
    while t < n && chars[t] != '\t'
        invariant
            t <= n == chars@.len(),
            first_tab(chars@, t as int) == first_tab(chars@, 0),
        decreases n - t,
    {
        t += 1;
    }
    match parse_id(&chars, t) {
        Some(id) => {
            let from: usize = if t < n {
                t + 1
            } else {
                n
            };
            Some((id, unescape_chars(&chars, from)))
        },
        None => None,
    }
}

/// Reads the lines of a saved vocabulary. A line that says nothing is skipped.
pub fn parse_lines(lines: &Vec<String>) -> (r: Vec<(TokenId, String)>)
    ensures
        vocabulary::saved_pairs(r@) == parsed_lines(text::texts(lines@)),
{
    let mut out: Vec<(TokenId, String)> = Vec::new();
    let mut i: usize = 0;
    let ghost all = text::texts(lines@);
    assert(vocabulary::saved_pairs(out@) =~= parsed_lines(all.take(0)));
    while i < lines.len()
        invariant
            i <= lines@.len(),
            all == text::texts(lines@),
            vocabulary::saved_pairs(out@) == parsed_lines(all.take(i as int)),
        decreases lines@.len() - i,
    {
        let ghost before = out@;
        proof {
            assert(all.take(i + 1).drop_last() =~= all.take(i as int));
            assert(all.take(i + 1).last() == lines@[i as int]@);
        }
        if let Some(p) = parse_line(lines[i].as_str()) {
            out.push(p);
            assert(vocabulary::saved_pairs(out@) =~= vocabulary::saved_pairs(before).push(
                (p.0, p.1@),
            ));
        }
        i += 1;
    }
    assert(all.take(all.len() as int) =~= all);
    out
}

// ---------------------------------------------------------------------------
// Laws
// ---------------------------------------------------------------------------

proof fn lemma_unescape(prefix: Seq<char>, s: Seq<char>)
    ensures
        unescaped(prefix + escaped(s), prefix.len() as int) == s,
    decreases s.len(),
{
    let t = prefix + escaped(s);
    let i = prefix.len() as int;
    if s.len() == 0 {
        assert(t =~= prefix);
        assert(unescaped(t, i) =~= s);
    } else {
        let e = escaped_char(s[0]);
        let rest = s.skip(1);
        lemma_unescape(prefix + e, rest);
        assert(t =~= (prefix + e) + escaped(rest));
        assert(t[i] == e[0]);
        if e.len() == 2 {
            assert(t[i + 1] == e[1]);
        }
        assert(s =~= seq![s[0]] + rest);
        assert(unescaped(t, i) =~= s);
    }
}

/// Reading a saved surface gives back the surface.
pub proof fn law_unescape_inverts_escape(s: Seq<char>)
    ensures
        unescaped(escaped(s), 0) == s,
{
    lemma_unescape(Seq::empty(), s);
    assert(Seq::<char>::empty() + escaped(s) =~= escaped(s));
}

/// An escaped surface has no tab and no line break.
pub proof fn law_escape_is_one_field(s: Seq<char>)
    ensures
        !escaped(s).contains('\t'),
        !escaped(s).contains('\n'),
    decreases s.len(),
{
    if s.len() > 0 {
        law_escape_is_one_field(s.skip(1));
        let e = escaped_char(s[0]);
        let r = escaped(s.skip(1));
        assert forall|i: int| 0 <= i < (e + r).len() implies (e + r)[i] != '\t' && (e + r)[i] != '\n' by {
            if i < e.len() {
                assert((e + r)[i] == e[i]);
            } else {
                assert((e + r)[i] == r[i - e.len()]);
                assert(r.contains(r[i - e.len()]));
            }
        }
    }
}

/// The decimal digits of a number.
pub open spec fn decimal(n: nat) -> Seq<char>
    decreases n,
{
    if n < 10 {
        seq![((48 + n) as u32) as char]
    } else {
        decimal(n / 10).push(((48 + n % 10) as u32) as char)
    }
}

/// The line that a token is saved as.
pub open spec fn saved_line(id: TokenId, surface: Seq<char>) -> Seq<char> {
    decimal(id as nat).push('\t') + escaped(surface)
}

proof fn lemma_decimal(n: nat)
    ensures
        decimal(n).len() > 0,
        all_digits(decimal(n)),
        number(decimal(n)) == n,
    decreases n,
{
    if n < 10 {
        let d = decimal(n);
        reveal_with_fuel(number, 2);
        assert(d.drop_last() =~= Seq::<char>::empty());
    } else {
        lemma_decimal(n / 10);
        let p = decimal(n / 10);
        let c = ((48 + n % 10) as u32) as char;
        assert(p.push(c).drop_last() =~= p);
        assert forall|i: int| 0 <= i < p.push(c).len() implies is_digit(#[trigger] p.push(c)[i]) by {
            if i < p.len() {
                assert(is_digit(p[i]));
            }
        }
    }
}

proof fn lemma_first_tab(s: Seq<char>, i: int, t: int)
    requires
        0 <= i <= t < s.len(),
        s[t] == '\t',
        forall|j: int| i <= j < t ==> #[trigger] s[j] != '\t',
    ensures
        first_tab(s, i) == t,
    decreases t - i,
{
    if i < t {
        lemma_first_tab(s, i + 1, t);
    }
}

/// Reading the line that a token was saved as gives back its id and its surface.
pub proof fn law_saved_line_is_read_back(id: TokenId, surface: Seq<char>)
    ensures
        parsed_line(saved_line(id, surface)) == Some((id, surface)),
{
    let line = saved_line(id, surface);
    let d = decimal(id as nat);
    lemma_decimal(id as nat);
    let t = d.len() as int;
    assert forall|j: int| 0 <= j < t implies #[trigger] line[j] != '\t' by {
        assert(line[j] == d[j]);
        assert(is_digit(d[j]));
    }
    lemma_first_tab(line, 0, t);
    assert(line.take(t) =~= d);
    assert(is_digit(d[0]));
    lemma_unescape(d.push('\t'), surface);
}

/// The lines that a list of tokens is saved as.
pub open spec fn saved_lines(pairs: Seq<(TokenId, Seq<char>)>) -> Seq<Seq<char>> {
    pairs.map_values(|p: (TokenId, Seq<char>)| saved_line(p.0, p.1))
}

/// Reading saved lines gives back all that was saved.
pub proof fn law_saved_lines_are_read_back(pairs: Seq<(TokenId, Seq<char>)>)
    ensures
        parsed_lines(saved_lines(pairs)) == pairs,
    decreases pairs.len(),
{
    if pairs.len() > 0 {
        let d = pairs.drop_last();
        law_saved_lines_are_read_back(d);
        assert(saved_lines(pairs).drop_last() =~= saved_lines(d));
        law_saved_line_is_read_back(pairs.last().0, pairs.last().1);
        assert(d.push(pairs.last()) =~= pairs);
    } else {
        assert(parsed_lines(saved_lines(pairs)) =~= pairs);
    }
}

proof fn lemma_unescaped_shift(p: Seq<char>, y: Seq<char>, i: int)
    requires
        0 <= i <= y.len(),
    ensures
        unescaped(p + y, p.len() + i) == unescaped(y, i),
    decreases y.len() - i,
{
    let s = p + y;
    if i < y.len() {
        assert(s[p.len() + i] == y[i]);
        if y[i] != '\\' {
            lemma_unescaped_shift(p, y, i + 1);
        } else if i + 1 < y.len() {
            assert(s[p.len() + i + 1] == y[i + 1]);
            lemma_unescaped_shift(p, y, i + 2);
        }
    }
}

proof fn lemma_unescaped_plain(x: Seq<char>, y: Seq<char>, i: int)
    requires
        0 <= i <= x.len(),
        !x.contains('\\'),
    ensures
        unescaped(x + y, i) == x.skip(i) + unescaped(y, 0),
    decreases x.len() - i,
{
    let s = x + y;
    if i < x.len() {
        assert(s[i] == x[i]);
        assert(x.contains(x[i]));
        lemma_unescaped_plain(x, y, i + 1);
        assert(x.skip(i) =~= seq![x[i]] + x.skip(i + 1));
        assert(unescaped(s, i) =~= x.skip(i) + unescaped(y, 0));
    } else {
        lemma_unescaped_shift(x, y, 0);
        assert(x.skip(i) + unescaped(y, 0) =~= unescaped(y, 0));
    }
}

/// Reading a saved surface changes escapes and nothing else: what is before the first
/// backslash stays; a backslash and a `t`, an `n` or a backslash stand for a tab, a line
/// break and a backslash; before any other character, and at the end, a backslash stands
/// for itself; and the rest is read on its own.
pub proof fn law_unescaping(x: Seq<char>, c: char, y: Seq<char>)
    requires
        !x.contains('\\'),
    ensures
        unescaped(x, 0) == x,
        unescaped(x.push('\\'), 0) == x.push('\\'),
        unescaped(x + seq!['\\', c] + y, 0) == (if c == 't' {
            x.push('\t')
        } else if c == 'n' {
            x.push('\n')
        } else if c == '\\' {
            x.push('\\')
        } else {
            x.push('\\').push(c)
        }) + unescaped(y, 0),
{
    let none = Seq::<char>::empty();
    lemma_unescaped_plain(x, none, 0);
    assert(x + none =~= x);
    assert(x.skip(0) =~= x);
    assert(unescaped(none, 0) =~= none);
    assert(x + unescaped(none, 0) =~= x);
    let back = seq!['\\'];
    lemma_unescaped_plain(x, back, 0);
    assert(x + back =~= x.push('\\'));
    assert(unescaped(back, 0) =~= back);
    let esc = seq!['\\', c];
    lemma_unescaped_plain(x, esc + y, 0);
    assert(x + (esc + y) =~= x + esc + y);
    lemma_unescaped_shift(esc, y, 0);
    assert((esc + y)[0] == '\\' && (esc + y)[1] == c);
    assert(unescaped(esc + y, 0) == unescaped_char(c) + unescaped(y, 0));
    assert(unescaped(x + esc + y, 0) =~= x + unescaped_char(c) + unescaped(y, 0));
    assert(x + unescaped_char(c) =~= if c == 't' {
        x.push('\t')
    } else if c == 'n' {
        x.push('\n')
    } else if c == '\\' {
        x.push('\\')
    } else {
        x.push('\\').push(c)
    });
}

/// A line is parted at its first tab: before it stands the id, and all that is behind it is
/// the surface. Without a tab the whole line is the id, and the surface is empty.
pub proof fn law_lines_are_parted_at_the_tab(id: Seq<char>, surface: Seq<char>)
    requires
        !id.contains('\t'),
    ensures
        parsed_line(id + seq!['\t'] + surface) == (match parsed_id(id) {
            Some(n) => Some((n, unescaped(surface, 0))),
            None => None,
        }),
        parsed_line(id) == (match parsed_id(id) {
            Some(n) => Some((n, Seq::<char>::empty())),
            None => None,
        }),
{
    let head = id + seq!['\t'];
    let line = head + surface;
    let t = id.len() as int;
    assert forall|j: int| 0 <= j < t implies #[trigger] line[j] != '\t' by {
        assert(line[j] == id[j]);
        assert(id.contains(id[j]));
    }
    assert(line[t] == '\t');
    lemma_first_tab(line, 0, t);
    assert(line.take(t) =~= id);
    lemma_unescaped_shift(head, surface, 0);
    assert forall|j: int| 0 <= j < t implies #[trigger] id[j] != '\t' by {
        assert(id.contains(id[j]));
    }
    lemma_no_tab(id, 0);
    assert(id.take(t) =~= id);
    assert(unescaped(id, t + 1) =~= Seq::<char>::empty());
}

proof fn lemma_no_tab(s: Seq<char>, i: int)
    requires
        0 <= i <= s.len(),
        forall|j: int| i <= j < s.len() ==> #[trigger] s[j] != '\t',
    ensures
        first_tab(s, i) == s.len(),
    decreases s.len() - i,
{
    if i < s.len() {
        lemma_no_tab(s, i + 1);
    }
}

/// An id is a number in decimal digits that the machine can hold, perhaps behind one plus
/// sign. Each digit more makes ten times the number, and the digit. Anything else is no id.
pub proof fn law_ids(s: Seq<char>, d: char)
    ensures
        parsed_id(Seq::empty()) is None,
        '0' <= d <= '9' ==> parsed_id(seq![d]) == Some((d as u32 - 48) as usize),
        !('0' <= d <= '9') && d != '+' ==> parsed_id(s.push(d)) is None,
        s.len() > 0 && s[0] != '+' ==> parsed_id(seq!['+'] + s) == parsed_id(s),
        s.len() > 0 && s[0] == '+' ==> parsed_id(seq!['+'] + s) is None,
        s.len() > 0 && d == '+' ==> parsed_id(s.push(d)) is None,
        parsed_id(seq!['+']) is None,
        parsed_id(s) is Some && '0' <= d <= '9' ==> parsed_id(s.push(d)) == (if 10 * parsed_id(s)->0
            + (d as u32 - 48) <= usize::MAX {
            Some((10 * parsed_id(s)->0 + (d as u32 - 48)) as usize)
        } else {
            None
        }),
        parsed_id(s) is None && s.len() > 0 && s != seq!['+'] ==> parsed_id(s.push(d)) is None,
{
    let t = s.push(d);
    assert(unsigned(Seq::empty()) =~= Seq::<char>::empty());
    // One digit.
    let one = seq![d];
    reveal_with_fuel(number, 2);
    assert(one.drop_last() =~= Seq::<char>::empty());
    if '0' <= d <= '9' {
        assert(unsigned(one) =~= one);
        assert(all_digits(one));
    }
    // A sign.
    let plus = seq!['+'];
    assert(unsigned(plus) =~= Seq::<char>::empty());
    assert(unsigned(plus + s) =~= s);
    if s.len() > 0 && s[0] != '+' {
        assert(unsigned(s) =~= s);
    }
    if s.len() > 0 && s[0] == '+' {
        assert(!is_digit(s[0]));
    }
    // One character more.
    if s.len() > 0 {
        let u = unsigned(s);
        assert(unsigned(t) =~= u.push(d));
        let w = u.push(d);
        assert(w.drop_last() =~= u);
        assert(w[u.len() as int] == d);
        if !is_digit(d) {
            assert(!all_digits(w));
        }
        if all_digits(u) && is_digit(d) {
            assert forall|i: int| 0 <= i < w.len() implies is_digit(#[trigger] w[i]) by {
                if i < u.len() {
                    assert(w[i] == u[i]);
                }
            }
        }
        if !all_digits(u) {
            let i = choose|i: int| 0 <= i < u.len() && !is_digit(#[trigger] u[i]);
            assert(w[i] == u[i]);
        }
        if u.len() == 0 {
            assert(s =~= plus);
        }
    } else {
        assert(t =~= one);
        assert(s =~= Seq::<char>::empty());
        if !is_digit(d) && d != '+' {
            assert(unsigned(one) =~= one);
            assert(!is_digit(one[0]));
        }
    }
}

/// Lines are read one by one: those before, and then the last, unless it says nothing.
pub proof fn law_lines_one_by_one(x: Seq<Seq<char>>, y: Seq<Seq<char>>, line: Seq<char>)
    ensures
        parsed_lines(x + y) == parsed_lines(x) + parsed_lines(y),
        parsed_lines(seq![line]) == (match parsed_line(line) {
            Some(p) => seq![p],
            None => Seq::empty(),
        }),
    decreases y.len(),
{
    if y.len() == 0 {
        assert(x + y =~= x);
        assert(parsed_lines(x) + parsed_lines(y) =~= parsed_lines(x));
    } else {
        law_lines_one_by_one(x, y.drop_last(), line);
        assert((x + y).drop_last() =~= x + y.drop_last());
        assert(parsed_lines(x + y) =~= parsed_lines(x) + parsed_lines(y));
    }
    let one = seq![line];
    assert(one.drop_last() =~= Seq::<Seq<char>>::empty());
    reveal_with_fuel(parsed_lines, 2);
    assert(parsed_lines(one.drop_last()) =~= Seq::<(TokenId, Seq<char>)>::empty());
}

} // verus!
