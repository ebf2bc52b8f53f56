//! Paradigm morphology: which continuations a root allows after a prefix.
use crate::text;
use crate::token::RootId;
use std::collections::HashMap;
use vstd::hash_map::StringHashMap;
use vstd::hash_set::StringHashSet;
use vstd::prelude::*;

verus! {

/// A root, and for each of its prefixes the continuations that it allows.
pub struct ParadigmModel {
    pub root_id: RootId,
    pub allowed: Map<Seq<char>, Set<Seq<char>>>,
}

impl ParadigmModel {
    pub open spec fn allows(self, prefix: Seq<char>, continuation: Seq<char>) -> bool {
        self.allowed.contains_key(prefix) && self.allowed[prefix].contains(continuation)
    }
}

/// A root with its allowed transitions.
pub struct Paradigm {
    pub root_id: RootId,
    pub allowed_transitions: StringHashMap<StringHashSet>,
}

impl View for Paradigm {
    type V = ParadigmModel;

    open spec fn view(&self) -> ParadigmModel {
        ParadigmModel {
            root_id: self.root_id,
            allowed: self.allowed_transitions@.map_values(|s: StringHashSet| s@),
        }
    }
}

impl Paradigm {
    /// A paradigm that allows nothing yet.
    pub fn new(root_id: RootId) -> (r: Self)
        ensures
            r@.root_id == root_id,
            r.root_id == root_id,
            r@.allowed == Map::<Seq<char>, Set<Seq<char>>>::empty(),
    {
        let r = Paradigm { root_id, allowed_transitions: StringHashMap::new() };
        assert(r@.allowed =~= Map::<Seq<char>, Set<Seq<char>>>::empty());
        r
    }

    /// Lets a prefix be continued by the strings of a list, and by no others.
    pub fn set_transitions(&mut self, prefix: String, continuations: Vec<String>)
        ensures
            final(self)@.root_id == old(self)@.root_id,
            final(self)@.allowed == old(self)@.allowed.insert(
                prefix@,
                text::texts(continuations@).to_set(),
            ),
    {
        self.allowed_transitions.insert(prefix, text::string_set(&continuations));
        assert(self@.allowed =~= old(self)@.allowed.insert(
            prefix@,
            text::texts(continuations@).to_set(),
        ));
    }

    /// Whether a continuation is allowed after a prefix.
    pub fn allows(&self, prefix: &str, continuation: &str) -> (r: bool)
        ensures
            r == self@.allows(prefix@, continuation@),
    {
        match self.allowed_transitions.get(prefix) {
            Some(allowed) => allowed.contains(continuation),
            None => false,
        }
    }

    /// Whether a prefix can be continued at all.
    pub fn has_prefix(&self, prefix: &str) -> (r: bool)
        ensures
            r == self@.allowed.contains_key(prefix@),
    {
        self.allowed_transitions.contains_key(prefix)
    }
}

/// The paradigm that was registered last for a root.
pub open spec fn latest(paradigms: Seq<ParadigmModel>, root_id: RootId) -> Option<ParadigmModel>
    decreases paradigms.len(),
{
    if paradigms.len() == 0 {
        None
    } else if paradigms.last().root_id == root_id {
        Some(paradigms.last())
    } else {
        latest(paradigms.drop_last(), root_id)
    }
}

/// The roots that have a prefix, in the order of registration.
pub open spec fn roots_with_prefix(paradigms: Seq<ParadigmModel>, prefix: Seq<char>) -> Seq<RootId> {
    paradigms.filter(|p: ParadigmModel| p.allowed.contains_key(prefix)).map_values(
        |p: ParadigmModel| p.root_id,
    )
}

/// Whether the paradigm of a root allows a continuation after a prefix.
pub open spec fn root_allows(
    paradigms: Seq<ParadigmModel>,
    root_id: RootId,
    prefix: Seq<char>,
    continuation: Seq<char>,
) -> bool {
    match latest(paradigms, root_id) {
        Some(p) => p.allows(prefix, continuation),
        None => false,
    }
}

/// All paradigms that are known.
pub struct ParadigmRegistry {
    paradigms: Vec<Paradigm>,
    root_to_paradigm: HashMap<RootId, usize>,
}

impl View for ParadigmRegistry {
    type V = Seq<ParadigmModel>;

    closed spec fn view(&self) -> Seq<ParadigmModel> {
        self.paradigms@.map_values(|p: Paradigm| p@)
    }
}

impl ParadigmRegistry {
    pub closed spec fn wf(&self) -> bool {
        forall|r: RootId|
            match #[trigger] latest(self@, r) {
                Some(p) => self.root_to_paradigm@.contains_key(r) && self.root_to_paradigm@[r]
                    < self@.len() && self@[self.root_to_paradigm@[r] as int] == p,
                None => !self.root_to_paradigm@.contains_key(r),
            }
    }

    /// A registry without paradigms.
    pub fn new() -> (r: Self)
        ensures
            r.wf(),
            r@ == Seq::<ParadigmModel>::empty(),
    {
        let r = ParadigmRegistry { paradigms: Vec::new(), root_to_paradigm: HashMap::new() };
        assert(r@ =~= Seq::<ParadigmModel>::empty());
        r
    }

    /// Registers a paradigm. It takes the place of an earlier one of the same root.
    pub fn add_paradigm(&mut self, paradigm: Paradigm)
        requires
            old(self).wf(),
        ensures
            final(self).wf(),
            final(self)@ == old(self)@.push(paradigm@),
    {
        let idx: usize = self.paradigms.len();
        self.root_to_paradigm.insert(paradigm.root_id, idx);
        self.paradigms.push(paradigm);
        proof {
            assert(self@ =~= old(self)@.push(paradigm@));
            assert(self@.drop_last() =~= old(self)@);
            assert forall|r: RootId|
                match #[trigger] latest(self@, r) {
                    Some(p) => self.root_to_paradigm@.contains_key(r) && self.root_to_paradigm@[r]
                        < self@.len() && self@[self.root_to_paradigm@[r] as int] == p,
                    None => !self.root_to_paradigm@.contains_key(r),
                } by {
                let _ = latest(old(self)@, r);
            }
        }
    }

    /// The roots that have a prefix, in the order of registration.
    pub fn get_root_set(&self, prefix: &str) -> (r: Vec<RootId>)
        ensures
            r@ == roots_with_prefix(self@, prefix@),
    {
        let mut out: Vec<RootId> = Vec::new();
        let mut i: usize = 0;
        proof {
            assert(roots_with_prefix(self@.take(0), prefix@) =~= Seq::<RootId>::empty()) by {
                reveal(Seq::filter);
            }
        }
        while i < self.paradigms.len()
            invariant
                i <= self.paradigms@.len(),
                out@ == roots_with_prefix(self@.take(i as int), prefix@),
            decreases self.paradigms@.len() - i,
        {
            let p = &self.paradigms[i];
            proof {
                let f = |p: ParadigmModel| p.allowed.contains_key(prefix@);
                let x = self@.take(i as int);
                let y = self@.take(i + 1);
                assert(y =~= x.push(p@));
                assert(y.drop_last() =~= x);
                reveal(Seq::filter);
                assert(y.filter(f) == if f(p@) { x.filter(f).push(p@) } else { x.filter(f) });
                assert(roots_with_prefix(y, prefix@) =~= if f(p@) {
                    roots_with_prefix(x, prefix@).push(p@.root_id)
                } else {
                    roots_with_prefix(x, prefix@)
                });
            }
            if p.has_prefix(prefix) {
                out.push(p.root_id);
            }
            i += 1;
        }
        assert(self@.take(self@.len() as int) =~= self@);
        out
    }

    /// Whether the paradigm of a root allows a continuation after a prefix.
    pub fn check_allowed(&self, root_id: RootId, prefix: &str, continuation: &str) -> (r: bool)
        requires
            self.wf(),
        ensures
            r == root_allows(self@, root_id, prefix@, continuation@),
    {
        let ghost _l = latest(self@, root_id);
        match self.root_to_paradigm.get(&root_id) {
            Some(idx) => self.paradigms[*idx].allows(prefix, continuation),
            None => false,
        }
    }
}

impl Default for ParadigmRegistry {
    fn default() -> (r: Self)
        ensures
            r.wf(),
            r@ == Seq::<ParadigmModel>::empty(),
    {
        ParadigmRegistry::new()
    }
}

/// The root set of a prefix has exactly the roots that have a paradigm with the
/// prefix.
pub proof fn law_root_set(paradigms: Seq<ParadigmModel>, prefix: Seq<char>, root: RootId)
    ensures
        roots_with_prefix(paradigms, prefix).contains(root) <==> exists|k: int|
            0 <= k < paradigms.len() && (#[trigger] paradigms[k]).root_id == root
                && paradigms[k].allowed.contains_key(prefix),
    decreases paradigms.len(),
{
    reveal(Seq::filter);
    if paradigms.len() > 0 {
        let d = paradigms.drop_last();
        let p = paradigms.last();
        let f = |p: ParadigmModel| p.allowed.contains_key(prefix);
        let x = roots_with_prefix(d, prefix);
        let y = roots_with_prefix(paradigms, prefix);
        law_root_set(d, prefix, root);
        assert(paradigms.filter(f) == if f(p) {
            d.filter(f).push(p)
        } else {
            d.filter(f)
        });
        assert(y =~= if f(p) {
            x.push(p.root_id)
        } else {
            x
        });
        if x.contains(root) {
            let i = choose|i: int| 0 <= i < x.len() && x[i] == root;
            assert(y[i] == root);
            let k = choose|k: int|
                0 <= k < d.len() && (#[trigger] d[k]).root_id == root
                    && d[k].allowed.contains_key(prefix);
            assert(paradigms[k] == d[k]);
        }
        if y.contains(root) && !x.contains(root) {
            assert(paradigms[paradigms.len() - 1] == p);
        }
        if exists|k: int|
            0 <= k < paradigms.len() && (#[trigger] paradigms[k]).root_id == root
                && paradigms[k].allowed.contains_key(prefix) {
            let k = choose|k: int|
                0 <= k < paradigms.len() && (#[trigger] paradigms[k]).root_id == root
                    && paradigms[k].allowed.contains_key(prefix);
            if k < d.len() {
                assert(d[k] == paradigms[k]);
            } else {
                assert(y[x.len() as int] == root);
            }
        }
    }
}

/// Registering one more paradigm adds its root behind the others, to the root sets of its
/// own prefixes and to no others.
pub proof fn law_registering_adds_a_root(
    paradigms: Seq<ParadigmModel>,
    p: ParadigmModel,
    prefix: Seq<char>,
)
    ensures
        roots_with_prefix(Seq::empty(), prefix).len() == 0,
        roots_with_prefix(paradigms.push(p), prefix) == (if p.allowed.contains_key(prefix) {
            roots_with_prefix(paradigms, prefix).push(p.root_id)
        } else {
            roots_with_prefix(paradigms, prefix)
        }),
{
    reveal(Seq::filter);
    let f = |p: ParadigmModel| p.allowed.contains_key(prefix);
    let all = paradigms.push(p);
    assert(all.drop_last() =~= paradigms);
    assert(all.filter(f) == if f(p) {
        paradigms.filter(f).push(p)
    } else {
        paradigms.filter(f)
    });
    assert(roots_with_prefix(all, prefix) =~= if f(p) {
        roots_with_prefix(paradigms, prefix).push(p.root_id)
    } else {
        roots_with_prefix(paradigms, prefix)
    });
}

/// The paradigm of a root that was registered last decides, and it alone: it allows what it
/// lists behind a prefix. A root without a paradigm allows nothing.
pub proof fn law_the_last_paradigm_decides(
    paradigms: Seq<ParadigmModel>,
    p: ParadigmModel,
    root: RootId,
    prefix: Seq<char>,
    continuation: Seq<char>,
)
    ensures
        !root_allows(Seq::empty(), root, prefix, continuation),
        p.root_id == root ==> (root_allows(paradigms.push(p), root, prefix, continuation)
            <==> p.allowed.contains_key(prefix) && p.allowed[prefix].contains(continuation)),
        p.root_id != root ==> root_allows(paradigms.push(p), root, prefix, continuation)
            == root_allows(paradigms, root, prefix, continuation),
{
    assert(paradigms.push(p).drop_last() =~= paradigms);
}

} // verus!
