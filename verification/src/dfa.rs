//! The akshara automaton: segments Devanagari text by maximal munch.
use crate::text;
use crate::token::Akshara;
use std::collections::{HashMap, HashSet};
use vstd::prelude::*;
use vstd::utf8::*;

verus! {

/// An automaton that starts in state 0.
pub struct DfaModel {
    pub transitions: Map<(usize, char), usize>,
    pub accepting: Set<usize>,
}

impl DfaModel {
    /// The state that a character leads to.
    pub open spec fn next(self, state: usize, ch: char) -> Option<usize> {
        if self.transitions.contains_key((state, ch)) {
            Some(self.transitions[(state, ch)])
        } else {
            None
        }
    }

    /// The state after `s[i..j]` was read, if the automaton can read it.
    pub open spec fn run(self, s: Seq<char>, i: int, j: int) -> Option<usize>
        decreases j - i,
    {
        if j <= i {
            Some(0)
        } else {
            match self.run(s, i, j - 1) {
                Some(state) => self.next(state, s[j - 1]),
                None => None,
            }
        }
    }

    /// Whether `s[i..j]` is an akshara.
    pub open spec fn accepts(self, s: Seq<char>, i: int, j: int) -> bool {
        &&& 0 <= i < j <= s.len()
        &&& self.run(s, i, j) is Some
        &&& self.accepting.contains(self.run(s, i, j)->0)
    }

    /// The end of the longest akshara that starts at `i` and ends at `j` or before.
    pub open spec fn last_accepted(self, s: Seq<char>, i: int, j: int) -> Option<int>
        decreases j - i,
    {
        if j <= i {
            None
        } else if self.accepts(s, i, j) {
            Some(j)
        } else {
            self.last_accepted(s, i, j - 1)
        }
    }

    /// Where the piece ends that starts at `i`: behind the longest akshara there, or
    /// behind one character where there is none.
    pub open spec fn piece_end(self, s: Seq<char>, i: int) -> int {
        match self.last_accepted(s, i, s.len() as int) {
            Some(end) => end,
            None => i + 1,
        }
    }

    /// The pieces of a text from `i` on.
    pub open spec fn pieces(self, s: Seq<char>, i: int) -> Seq<Seq<char>>
        decreases s.len() - i,
    {
        if i < 0 || i >= s.len() {
            Seq::empty()
        } else {
            proof {
                self.lemma_last_accepted(s, i, s.len() as int);
            }
            seq![s.subrange(i, self.piece_end(s, i))] + self.pieces(s, self.piece_end(s, i))
        }
    }

    /// The end that was found is that of the longest akshara.
    pub proof fn lemma_last_accepted(self, s: Seq<char>, i: int, j: int)
        requires
            0 <= i,
            j <= s.len(),
        ensures
            match self.last_accepted(s, i, j) {
                Some(end) => i < end <= j && self.accepts(s, i, end) && (forall|k: int|
                    end < k <= j ==> !self.accepts(s, i, k)),
                None => forall|k: int| k <= j ==> !self.accepts(s, i, k),
            },
        decreases j - i,
    {
        if j > i && !self.accepts(s, i, j) {
            self.lemma_last_accepted(s, i, j - 1);
        }
    }

    /// Where the automaton is stuck, nothing longer is accepted.
    proof fn lemma_stuck(self, s: Seq<char>, i: int, j: int, k: int)
        requires
            0 <= i <= j,
            j < k <= s.len(),
            self.run(s, i, j + 1) is None,
        ensures
            self.run(s, i, k) is None,
            self.last_accepted(s, i, k) == self.last_accepted(s, i, j),
        decreases k - j,
    {
        if k > j + 1 {
            self.lemma_stuck(s, i, j, k - 1);
        }
    }
}

/// The surfaces of aksharas.
pub open spec fn surfaces(aksharas: Seq<Akshara>) -> Seq<Seq<char>> {
    aksharas.map_values(|a: Akshara| a.surface@)
}

spec fn pack(t: (usize, char)) -> u128 {
    (t.0 * 0x1_0000_0000 + t.1 as u32) as u128
}

spec fn unpack(k: u128) -> (usize, char) {
    ((k / 0x1_0000_0000) as usize, ((k % 0x1_0000_0000) as u32) as char)
}

spec fn is_packed(k: u128) -> bool {
    pack(unpack(k)) == k
}

proof fn lemma_pack(t: (usize, char))
    ensures
        pack(t) == t.0 * 0x1_0000_0000 + t.1 as u32,
        unpack(pack(t)) == t,
        is_packed(pack(t)),
{
    let a = t.0 as int;
    let b = (t.1 as u32) as int;
    char_is_scalar(t.1);
    char_u32_cast(t.1, t.1 as u32);
    assert(0 <= a * 0x1_0000_0000 + b <= u128::MAX);
    assert((a * 0x1_0000_0000 + b) / 0x1_0000_0000 == a);
    assert((a * 0x1_0000_0000 + b) % 0x1_0000_0000 == b);
}

fn pack_key(state: usize, ch: char) -> (k: u128)
    ensures
        k == pack((state, ch)),
{
    proof {
        lemma_pack((state, ch));
    }
    (state as u128) * 0x1_0000_0000 + (ch as u128)
}

/// The akshara automaton.
#[derive(Debug)]
pub struct AksharaDFA {
    transitions: HashMap<u128, usize>,
    accepting_states: HashSet<usize>,
    initial_state: usize,
}

impl View for AksharaDFA {
    type V = DfaModel;

    closed spec fn view(&self) -> DfaModel {
        DfaModel {
            transitions: Map::new(
                |t: (usize, char)| self.transitions@.contains_key(pack(t)),
                |t: (usize, char)| self.transitions@[pack(t)],
            ),
            accepting: self.accepting_states@,
        }
    }
}

impl AksharaDFA {
    pub closed spec fn wf(&self) -> bool {
        &&& self.initial_state == 0
        &&& forall|k: u128| #[trigger] self.transitions@.contains_key(k) ==> is_packed(k)
    }

    /// An automaton without transitions.
    pub fn new() -> (r: Self)
        ensures
            r.wf(),
            r@.transitions == Map::<(usize, char), usize>::empty(),
            r@.accepting == Set::<usize>::empty(),
    {
        let r = AksharaDFA {
            transitions: HashMap::new(),
            accepting_states: HashSet::new(),
            initial_state: 0,
        };
        assert(r@.transitions =~= Map::<(usize, char), usize>::empty());
        r
    }

    /// Lets a character lead from one state to another, which may be accepting. A
    /// state that was accepting stays so.
    pub fn add_transition(&mut self, state: usize, ch: char, next_state: usize, accepting: bool)
        requires
            old(self).wf(),
        ensures
            final(self).wf(),
            final(self)@.transitions == old(self)@.transitions.insert((state, ch), next_state),
            final(self)@.accepting == (if accepting {
                old(self)@.accepting.insert(next_state)
            } else {
                old(self)@.accepting
            }),
    {
        let k: u128 = pack_key(state, ch);
        self.transitions.insert(k, next_state);
        if accepting {
            self.accepting_states.insert(next_state);
        }
        proof {
            lemma_pack((state, ch));
            assert forall|t: (usize, char)| #[trigger] self@.transitions.contains_key(t) <==> old(
                self,
            )@.transitions.insert((state, ch), next_state).contains_key(t) by {
                lemma_pack(t);
            }
            assert forall|t: (usize, char)| #[trigger] self@.transitions.contains_key(t) implies self@.transitions[t]
                == old(self)@.transitions.insert((state, ch), next_state)[t] by {
                lemma_pack(t);
            }
            assert(self@.transitions =~= old(self)@.transitions.insert((state, ch), next_state));
        }
    }

    /// The state that a character leads to.
    pub fn has_transition(&self, state: usize, ch: char) -> (r: Option<usize>)
        ensures
            r == self@.next(state, ch),
    {
        match self.transitions.get(&pack_key(state, ch)) {
            Some(next) => Some(*next),
            None => None,
        }
    }

    /// The states and characters that transitions start from, each once.
    fn keys(&self) -> (r: Vec<(usize, char)>)
        requires
            self.wf(),
        ensures
            r@.no_duplicates(),
            forall|t: (usize, char)| #[trigger]
                r@.contains(t) <==> self@.transitions.contains_key(t),
    {
        let mut out: Vec<(usize, char)> = Vec::new();
        let ghost mut ks: Seq<u128> = Seq::empty();
        for k in it: self.transitions.keys()
            invariant
                self.wf(),
                ks.len() == it.index(),
                it.seq().unref().to_set() == self.transitions@.dom(),
                it.seq().no_duplicates(),
                ks == it.seq().unref().take(it.index() as int),
                out@ == ks.map_values(|k: u128| unpack(k)),
                it.index() == it.seq().len() ==> ks.to_set() == self.transitions@.dom(),
                ks.no_duplicates(),
                forall|i: int| 0 <= i < ks.len() ==> is_packed(#[trigger] ks[i]),
        {
            let k: u128 = *k;
            let ghost t = unpack(k);
            proof {
                assert(it.seq().unref()[it.index() as int] == k);
                assert(it.seq().unref().to_set().contains(k));
                assert(is_packed(k));
                lemma_pack(t);
                assert(it.seq().unref().take(it.index() + 1) =~= ks.push(k));
                assert(ks.push(k).map_values(|k: u128| unpack(k)) =~= ks.map_values(
                    |k: u128| unpack(k),
                ).push(unpack(k)));
                ks = ks.push(k);
                assert(ks.len() == it.seq().len() ==> ks =~= it.seq().unref());
            }
            let code: u32 = (k % 0x1_0000_0000) as u32;
            assert(is_scalar(code)) by {
                char_is_scalar(t.1);
                assert((t.0 * 0x1_0000_0000 + t.1 as u32) % 0x1_0000_0000 == t.1 as u32);
            }
            match char::from_u32(code) {
                Some(ch) => {
                    out.push(((k / 0x1_0000_0000) as usize, ch));
                },
                None => {
                    assert(false);
                },
            }
        }
        proof {
            assert(ks.to_set() == self.transitions@.dom());
            assert forall|i: int, j: int|
                0 <= i < out@.len() && 0 <= j < out@.len() && i != j implies out@[i] != out@[j] by {
                assert(out@[i] == unpack(ks[i]) && out@[j] == unpack(ks[j]));
            }
            assert forall|t: (usize, char)| #[trigger] out@.contains(t) <==> self@.transitions.contains_key(t) by {
                lemma_pack(t);
                if self@.transitions.contains_key(t) {
                    assert(ks.to_set().contains(pack(t)));
                    let i = choose|i: int| 0 <= i < ks.len() && ks[i] == pack(t);
                    assert(out@[i] == t);
                }
                if out@.contains(t) {
                    let i = choose|i: int| 0 <= i < out@.len() && out@[i] == t;
                    assert(ks.to_set().contains(ks[i]));
                }
            }
        }
        out
    }

    /// The transitions from a state, each once and in no particular order: the
    /// character, the next state, and whether that is accepting.
    pub fn get_transitions_from(&self, state: usize) -> (r: Vec<(char, usize, bool)>)
        requires
            self.wf(),
        ensures
            r@.no_duplicates(),
            forall|x: (char, usize, bool)| #[trigger]
                r@.contains(x) <==> self@.next(state, x.0) == Some(x.1) && x.2
                    == self@.accepting.contains(x.1),
    {
        let keys = self.keys();
        let mut out: Vec<(char, usize, bool)> = Vec::new();
        let mut i: usize = 0;
        while i < keys.len()
            invariant
                i <= keys@.len(),
                keys@.no_duplicates(),
                forall|t: (usize, char)| #[trigger]
                    keys@.contains(t) <==> self@.transitions.contains_key(t),
                out@.no_duplicates(),
                forall|x: (char, usize, bool)| #[trigger]
                    out@.contains(x) ==> self@.next(state, x.0) == Some(x.1) && x.2
                        == self@.accepting.contains(x.1) && keys@.take(i as int).contains(
                        (state, x.0),
                    ),
                forall|x: (char, usize, bool)|
                    self@.next(state, x.0) == Some(x.1) && x.2 == self@.accepting.contains(x.1)
                        && keys@.take(i as int).contains((state, x.0)) ==> #[trigger] out@.contains(
                        x,
                    ),
            decreases keys@.len() - i,
        {
            let (s, ch) = keys[i];
            let ghost before = out@;
            let ghost old_keys = keys@.take(i as int);
            let ghost new_keys = keys@.take(i + 1);
            proof {
                assert(new_keys =~= old_keys.push((s, ch)));
                assert(keys@.contains(keys@[i as int]));
                assert forall|t: (usize, char)| #[trigger] new_keys.contains(t) <==> old_keys.contains(t) || t == (s, ch) by {
                    if old_keys.contains(t) {
                        let j = choose|j: int| 0 <= j < old_keys.len() && old_keys[j] == t;
                        assert(new_keys[j] == t);
                    }
                    assert(new_keys[i as int] == (s, ch));
                }
                assert(!old_keys.contains((s, ch)));
            }
            if s == state {
                if let Some(next) = self.has_transition(state, ch) {
                    let acc = self.accepting_states.contains(&next);
                    out.push((ch, next, acc));
                    proof {
                        let y = (ch, next, acc);
                        assert(out@ =~= before.push(y));
                        assert forall|x: (char, usize, bool)| #[trigger] out@.contains(x) <==> before.contains(x) || x == y by {
                            if before.contains(x) {
                                let j = choose|j: int| 0 <= j < before.len() && before[j] == x;
                                assert(out@[j] == x);
                            }
                            assert(out@[before.len() as int] == y);
                        }
                        assert(!before.contains(y));
                    }
                }
            }
            i += 1;
        }
        assert(keys@.take(keys@.len() as int) =~= keys@);
        out
    }

    /// Segments a text: at each place the longest akshara is taken, or a single
    /// character where no akshara starts.
    pub fn tokenize(&self, dev_text: &str) -> (r: Vec<Akshara>)
        requires
            self.wf(),
        ensures
            surfaces(r@) == self@.pieces(dev_text@, 0),
            forall|k: int|
                0 <= k < r@.len() ==> (#[trigger] r@[k]).root_set@ == Seq::<usize>::empty(),
    {
        let chars = text::chars_of(dev_text);
        let mut aksharas: Vec<Akshara> = Vec::new();
        let mut i: usize = 0;
        while i < chars.len()
            invariant
                i <= chars@.len(),
                chars@ == dev_text@,
                self.wf(),
                surfaces(aksharas@) + self@.pieces(chars@, i as int) == self@.pieces(dev_text@, 0),
                forall|k: int|
                    0 <= k < aksharas@.len() ==> (#[trigger] aksharas@[k]).root_set@ == Seq::<
                        usize,
                    >::empty(),
            decreases chars@.len() - i,
        {
            let end = self.find_end(&chars, i);
            proof {
                self@.lemma_last_accepted(chars@, i as int, chars@.len() as int);
            }
            let surface = text::string_of(chars.as_slice(), i, end);
            let root_set: Vec<usize> = Vec::new();
            assert(root_set@ =~= Seq::<usize>::empty());
            let ghost before = aksharas@;
            aksharas.push(Akshara { surface, root_set });
            proof {
                let piece = chars@.subrange(i as int, end as int);
                assert(surfaces(aksharas@) =~= surfaces(before).push(piece));
                assert(surfaces(before) + self@.pieces(chars@, i as int) =~= surfaces(
                    before,
                ).push(piece) + self@.pieces(chars@, end as int));
            }
            i = end;
        }
        assert(surfaces(aksharas@) + self@.pieces(chars@, i as int) =~= surfaces(aksharas@));
        aksharas
    }

    /// Where the piece ends that starts at `i`.
    fn find_end(&self, chars: &Vec<char>, i: usize) -> (end: usize)
        requires
            self.wf(),
            i < chars@.len(),
        ensures
            end == self@.piece_end(chars@, i as int),
    {
        let mut state: usize = self.initial_state;
        let mut last_accepting_pos: Option<usize> = None;
        let mut j: usize = i;
        let n: usize = chars.len();
        while j < n
            invariant
                i <= j <= n,
                n == chars@.len(),
                self@.run(chars@, i as int, j as int) == Some(state),
                match last_accepting_pos {
                    Some(p) => self@.last_accepted(chars@, i as int, j as int) == Some(p as int),
                    None => self@.last_accepted(chars@, i as int, j as int) is None,
                },
            ensures
                match last_accepting_pos {
                    Some(p) => self@.last_accepted(chars@, i as int, n as int) == Some(p as int),
                    None => self@.last_accepted(chars@, i as int, n as int) is None,
                },
            decreases n - j,
        {
            match self.has_transition(state, chars[j]) {
                Some(next) => {
                    state = next;
                    if self.accepting_states.contains(&state) {
                        last_accepting_pos = Some(j + 1);
                    }
                    j += 1;
                },
                None => {
                    proof {
                        self@.lemma_stuck(chars@, i as int, j as int, n as int);
                    }
                    break ;
                },
            }
        }
        match last_accepting_pos {
            Some(end) => end,
            None => i + 1,
        }
    }
}

// ---------------------------------------------------------------------------
// Laws
// ---------------------------------------------------------------------------

/// Segmentation loses nothing: the pieces put together again are the text. None
/// of them is empty.
pub proof fn law_pieces_are_the_text(d: DfaModel, s: Seq<char>)
    ensures
        d.pieces(s, 0).flatten() == s,
        forall|k: int| 0 <= k < d.pieces(s, 0).len() ==> (#[trigger] d.pieces(s, 0)[k]).len() > 0,
{
    lemma_pieces_flatten(d, s, 0);
    assert(s.skip(0) =~= s);
}

proof fn lemma_pieces_flatten(d: DfaModel, s: Seq<char>, i: int)
    requires
        0 <= i <= s.len(),
    ensures
        d.pieces(s, i).flatten() == s.skip(i),
        forall|k: int| 0 <= k < d.pieces(s, i).len() ==> (#[trigger] d.pieces(s, i)[k]).len() > 0,
    decreases s.len() - i,
{
    if i < s.len() {
        d.lemma_last_accepted(s, i, s.len() as int);
        let end = d.piece_end(s, i);
        lemma_pieces_flatten(d, s, end);
        let piece = s.subrange(i, end);
        let rest = d.pieces(s, end);
        assert((seq![piece] + rest).drop_first() =~= rest);
        assert(s.skip(i) =~= piece + s.skip(end));
    } else {
        assert(s.skip(i) =~= Seq::<char>::empty());
    }
}

/// Munching is maximal: a piece is the longest akshara that starts where it does,
/// or a single character where none does.
pub proof fn law_munch_is_maximal(d: DfaModel, s: Seq<char>, i: int)
    requires
        0 <= i < s.len(),
    ensures
        i < d.piece_end(s, i) <= s.len(),
        d.accepts(s, i, d.piece_end(s, i)) || d.piece_end(s, i) == i + 1,
        forall|j: int| d.accepts(s, i, j) ==> j <= d.piece_end(s, i),
        (exists|j: int| d.accepts(s, i, j)) ==> d.accepts(s, i, d.piece_end(s, i)),
{
    d.lemma_last_accepted(s, i, s.len() as int);
}

/// Whether an automaton can go through some states while it reads a text.
pub open spec fn goes_through(d: DfaModel, s: Seq<char>, states: Seq<usize>) -> bool {
    &&& states.len() == s.len() + 1
    &&& states[0] == 0
    &&& forall|k: int|
        0 <= k < s.len() ==> d.transitions.contains_key((states[k], #[trigger] s[k]))
            && d.transitions[(states[k], s[k])] == states[k + 1]
}

/// The states that an automaton goes through are those of its run.
proof fn lemma_goes_through(d: DfaModel, s: Seq<char>, states: Seq<usize>, j: int)
    requires
        goes_through(d, s, states),
        0 <= j <= s.len(),
    ensures
        d.run(s, 0, j) == Some(states[j]),
    decreases j,
{
    if j > 0 {
        lemma_goes_through(d, s, states, j - 1);
        assert(d.transitions.contains_key((states[j - 1], s[j - 1])));
    }
}

proof fn lemma_run_states(d: DfaModel, s: Seq<char>, j: int) -> (states: Seq<usize>)
    requires
        0 <= j <= s.len(),
        d.run(s, 0, j) is Some,
    ensures
        goes_through(d, s.take(j), states),
        states.last() == d.run(s, 0, j)->0,
    decreases j,
{
    if j == 0 {
        seq![0usize]
    } else {
        let before = lemma_run_states(d, s, j - 1);
        let states = before.push(d.run(s, 0, j)->0);
        let t = s.take(j);
        let u = s.take(j - 1);
        assert forall|k: int| 0 <= k < t.len() implies d.transitions.contains_key(
            (states[k], #[trigger] t[k]),
        ) && d.transitions[(states[k], t[k])] == states[k + 1] by {
            if k < j - 1 {
                assert(u[k] == t[k]);
            }
        }
        states
    }
}

proof fn lemma_run_shift(d: DfaModel, s: Seq<char>, i: int, j: int)
    requires
        0 <= i <= j <= s.len(),
    ensures
        d.run(s, i, j) == d.run(s.skip(i), 0, j - i),
        d.last_accepted(s, i, j) == (match d.last_accepted(s.skip(i), 0, j - i) {
            Some(e) => Some(e + i),
            None => None,
        }),
    decreases j - i,
{
    if j > i {
        lemma_run_shift(d, s, i, j - 1);
        assert(s.skip(i)[j - 1 - i] == s[j - 1]);
    }
}

proof fn lemma_pieces_shift(d: DfaModel, s: Seq<char>, i: int, k: int)
    requires
        0 <= i <= k <= s.len(),
    ensures
        d.pieces(s, k) == d.pieces(s.skip(i), k - i),
    decreases s.len() - k,
{
    let t = s.skip(i);
    if k < s.len() {
        let n = s.len() as int;
        lemma_run_shift(d, s, k, n);
        lemma_run_shift(d, t, k - i, n - i);
        assert(t.skip(k - i) =~= s.skip(k));
        d.lemma_last_accepted(s, k, n);
        let e = d.piece_end(s, k);
        assert(t.subrange(k - i, e - i) =~= s.subrange(k, e));
        lemma_pieces_shift(d, s, i, e);
    }
}

/// Whether an automaton reads a text, from state 0 to a state that is accepting.
pub open spec fn is_read(d: DfaModel, s: Seq<char>) -> bool {
    exists|states: Seq<usize>| #[trigger]
        goes_through(d, s, states) && d.accepting.contains(states.last())
}

proof fn lemma_is_read(d: DfaModel, s: Seq<char>, j: int)
    requires
        0 < j <= s.len(),
    ensures
        d.accepts(s, 0, j) <==> is_read(d, s.take(j)),
{
    let t = s.take(j);
    if d.accepts(s, 0, j) {
        let states = lemma_run_states(d, s, j);
        assert(goes_through(d, t, states));
    }
    if is_read(d, t) {
        let states = choose|states: Seq<usize>| #[trigger]
            goes_through(d, t, states) && d.accepting.contains(states.last());
        lemma_goes_through(d, t, states, j);
        lemma_run_take(d, s, j, j);
    }
}

proof fn lemma_run_take(d: DfaModel, s: Seq<char>, n: int, j: int)
    requires
        0 <= j <= n <= s.len(),
    ensures
        d.run(s.take(n), 0, j) == d.run(s, 0, j),
    decreases j,
{
    if j > 0 {
        lemma_run_take(d, s, n, j - 1);
    }
}

/// The first piece of a text is the longest prefix that the automaton reads, or one
/// character where it reads none; and the rest is segmented on its own. So it goes on to the
/// end, however long the text is.
pub proof fn law_segmenting_goes_on(d: DfaModel, s: Seq<char>, j: int)
    requires
        0 < j <= s.len(),
        forall|k: int| j < k <= s.len() ==> !is_read(d, #[trigger] s.take(k)),
        is_read(d, s.take(j)) || j == 1,
    ensures
        d.pieces(s, 0) == seq![s.take(j)] + d.pieces(s.skip(j), 0),
        d.pieces(Seq::empty(), 0).len() == 0,
{
    let n = s.len() as int;
    d.lemma_last_accepted(s, 0, n);
    lemma_pieces_shift(d, s, j, j);
    lemma_is_read(d, s, j);
    assert(s.subrange(0, j) =~= s.take(j));
    if let Some(e) = d.last_accepted(s, 0, n) {
        lemma_is_read(d, s, e);
        if e > j {
            assert(!is_read(d, s.take(e)));
        }
        if e < j {
            assert(!d.accepts(s, 0, j));
        }
    } else {
        assert(!d.accepts(s, 0, j));
    }
}

/// A transition leads where it was said to lead, and a list of aksharas has all of their
/// surfaces, in order.
pub proof fn law_transitions(d: DfaModel, state: usize, ch: char, aksharas: Seq<Akshara>, k: int)
    ensures
        d.transitions.contains_key((state, ch)) ==> d.next(state, ch) == Some(
            d.transitions[(state, ch)],
        ),
        !d.transitions.contains_key((state, ch)) ==> d.next(state, ch) is None,
        surfaces(aksharas).len() == aksharas.len(),
        0 <= k < aksharas.len() ==> surfaces(aksharas)[k] == aksharas[k].surface@,
{
}

} // verus!
