//! Substitutions: finite maps from variable names to terms.
//!
//! A substitution is kept as a list of bindings with pairwise distinct
//! names. Contracts speak of its view, a `Map` from names to term models;
//! the order of the list never shows.

use crate::term::{Term, TermView};
use vstd::prelude::*;
use vstd::std_specs::cmp::PartialEqSpecImpl;

verus! {

/// The mathematical value of a substitution.
pub type SubstView = Map<Seq<char>, TermView>;

/// One binding of a variable name to a term.
#[derive(Debug)]
struct Binding {
    name: String,
    term: Term,
}

/// A finite map from variable names to terms.
#[derive(Debug)]
pub struct Substitution {
    entries: Vec<Binding>,
}

/// The result of a unification: a substitution, or failure.
pub type Bindings = Option<Substitution>;

/// The models of a sequence of substitutions.
pub open spec fn substs_view(substs: Seq<Substitution>) -> Seq<SubstView> {
    Seq::new(substs.len(), |i: int| substs[i]@)
}

/// Holding every binding of another substitution is transitive.
pub proof fn lemma_submap_transitive(a: SubstView, b: SubstView, c: SubstView)
    requires
        a.submap_of(b),
        b.submap_of(c),
    ensures
        a.submap_of(c),
{
    assert forall|k: Seq<char>| #[trigger] a.dom().contains(k) implies c.dom().contains(k) && a[k]
        == c[k] by {
        assert(b.dom().contains(k));
        assert(c.dom().contains(k));
    }
}

/// The map that a list of bindings stands for; a later binding of a name
/// would shadow an earlier one.
spec fn bindings_map(entries: Seq<Binding>) -> SubstView
    decreases entries.len(),
{
    if entries.len() == 0 {
        Map::empty()
    } else {
        bindings_map(entries.drop_last()).insert(entries.last().name@, entries.last().term@)
    }
}

/// No name is bound twice in the list.
spec fn distinct_names(entries: Seq<Binding>) -> bool {
    forall|i: int, j: int|
        0 <= i < j < entries.len() ==> (#[trigger] entries[i]).name@ != (#[trigger] entries[j]).name@
}

/// The position at which `name` is bound, if any.
spec fn bound_at(entries: Seq<Binding>, name: Seq<char>, i: int) -> bool {
    0 <= i < entries.len() && entries[i].name@ == name
}

/// What `bindings_map` holds, read off the list.
proof fn lemma_bindings_map(entries: Seq<Binding>)
    ensures
        bindings_map(entries).dom().finite(),
        bindings_map(entries).dom().len() <= entries.len(),
        forall|name: Seq<char>| #[trigger]
            bindings_map(entries).contains_key(name) <==> exists|i: int| #[trigger]
                bound_at(entries, name, i),
        distinct_names(entries) ==> bindings_map(entries).dom().len() == entries.len(),
        distinct_names(entries) ==> forall|i: int|
            0 <= i < entries.len() ==> bindings_map(entries)[(#[trigger] entries[i]).name@]
                == entries[i].term@,
    decreases entries.len(),
{
    if entries.len() == 0 {
    } else {
        let front = entries.drop_last();
        let last = entries.last();
        lemma_bindings_map(front);
        assert forall|name: Seq<char>| #[trigger]
            bindings_map(entries).contains_key(name) <==> exists|i: int| #[trigger]
                bound_at(entries, name, i) by {
            if bindings_map(entries).contains_key(name) {
                if name == last.name@ {
                    assert(bound_at(entries, name, entries.len() - 1));
                } else {
                    let i = choose|i: int| bound_at(front, name, i);
                    assert(bound_at(entries, name, i));
                }
            }
            if exists|i: int| bound_at(entries, name, i) {
                let i = choose|i: int| bound_at(entries, name, i);
                if i < entries.len() - 1 {
                    assert(bound_at(front, name, i));
                }
            }
        }
        if distinct_names(entries) {
            assert(distinct_names(front)) by {
                assert forall|i: int, j: int| 0 <= i < j < front.len() implies (
                #[trigger] front[i]).name@ != (#[trigger] front[j]).name@ by {}
            }
            assert(!bindings_map(front).contains_key(last.name@)) by {
                if bindings_map(front).contains_key(last.name@) {
                    let i = choose|i: int| bound_at(front, last.name@, i);
                }
            }
            assert forall|i: int| 0 <= i < entries.len() implies bindings_map(entries)[(
            #[trigger] entries[i]).name@] == entries[i].term@ by {
                if i < entries.len() - 1 {
                    assert(front[i] == entries[i]);
                }
            }
        }
    }
}

impl View for Substitution {
    type V = SubstView;

    closed spec fn view(&self) -> SubstView {
        bindings_map(self.entries@)
    }
}

impl Substitution {
    #[verifier::type_invariant]
    spec fn well_formed(self) -> bool {
        distinct_names(self.entries@)
    }

    /// The empty substitution.
    pub fn new() -> (s: Substitution)
        ensures
            s@ == Map::<Seq<char>, TermView>::empty(),
    {
        Substitution { entries: Vec::new() }
    }

    /// The view of any substitution is a finite map.
    pub proof fn lemma_finite(self)
        ensures
            self@.dom().finite(),
    {
        lemma_bindings_map(self.entries@);
    }

    /// The number of bound names.
    pub fn len(&self) -> (n: usize)
        ensures
            n == self@.len(),
            n == self.keys().len(),
            self@.dom().finite(),
            self.keys().no_duplicates(),
            forall|name: Seq<char>| self@.contains_key(name) <==> self.keys().contains(name),
    {
        proof {
            use_type_invariant(self);
            lemma_bindings_map(self.entries@);
        }
        let _ = self.entry(0);
        self.entries.len()
    }

    /// The bound names, each once, in the order in which `entry` gives
    /// them.
    pub closed spec fn keys(&self) -> Seq<Seq<char>> {
        Seq::new(self.entries@.len(), |i: int| self.entries@[i].name@)
    }

    /// The binding with the number `i`, counted from 0, or `None` where
    /// there are no more than `i` bindings.
    pub fn entry(&self, i: usize) -> (r: Option<(&String, &Term)>)
        ensures
            self.keys().no_duplicates(),
            forall|name: Seq<char>| self@.contains_key(name) <==> self.keys().contains(name),
            match r {
                Some((name, term)) => i < self.keys().len() && name@ == self.keys()[i as int]
                    && self@.contains_key(name@) && self@[name@] == term@,
                None => i >= self.keys().len(),
            },
    {
        proof {
            use_type_invariant(self);
            lemma_bindings_map(self.entries@);
            let keys = self.keys();
            assert forall|a: int, b: int| 0 <= a < keys.len() && 0 <= b < keys.len() && a
                != b implies keys[a] != keys[b] by {
                if a < b {
                    assert(self.entries@[a].name@ != self.entries@[b].name@);
                } else {
                    assert(self.entries@[b].name@ != self.entries@[a].name@);
                }
            }
            assert forall|name: Seq<char>| self@.contains_key(name) <==> keys.contains(name) by {
                if self@.contains_key(name) {
                    let j = choose|j: int| bound_at(self.entries@, name, j);
                    assert(keys[j] == name);
                }
                if keys.contains(name) {
                    let j = choose|j: int| 0 <= j < keys.len() && keys[j] == name;
                    assert(bound_at(self.entries@, name, j));
                }
            }
        }
        if i < self.entries.len() {
            proof {
                assert(bound_at(self.entries@, self.entries@[i as int].name@, i as int));
            }
            Some((&self.entries[i].name, &self.entries[i].term))
        } else {
            None
        }
    }

    /// Whether no name is bound.
    pub fn is_empty(&self) -> (b: bool)
        ensures
            b == (self@ == Map::<Seq<char>, TermView>::empty()),
    {
        proof {
            use_type_invariant(self);
            lemma_bindings_map(self.entries@);
        }
        self.entries.len() == 0
    }

    /// The index of the binding of `name`, if it is bound.
    fn position(&self, name: &String) -> (r: Option<usize>)
        ensures
            match r {
                Some(i) => bound_at(self.entries@, name@, i as int),
                None => !self@.contains_key(name@),
            },
    {
        let mut i: usize = 0;
        while i < self.entries.len()
            invariant
                i <= self.entries.len(),
                forall|j: int| 0 <= j < i ==> !bound_at(self.entries@, name@, j),
            decreases self.entries.len() - i,
        {
            if self.entries[i].name == *name {
                return Some(i);
            }
            i += 1;
        }
        proof {
            lemma_bindings_map(self.entries@);
        }
        None
    }

    /// The term bound to `name`, if any.
    pub fn get(&self, name: &String) -> (r: Option<&Term>)
        ensures
            match r {
                Some(t) => self@.contains_key(name@) && t@ == self@[name@],
                None => !self@.contains_key(name@),
            },
    {
        match self.position(name) {
            Some(i) => {
                proof {
                    use_type_invariant(self);
                    lemma_bindings_map(self.entries@);
                }
                Some(&self.entries[i].term)
            },
            None => None,
        }
    }

    /// Whether `name` is bound.
    pub fn contains_key(&self, name: &String) -> (b: bool)
        ensures
            b == self@.contains_key(name@),
    {
        match self.position(name) {
            Some(i) => {
                proof {
                    lemma_bindings_map(self.entries@);
                }
                true
            },
            None => false,
        }
    }

    /// Binds `name` to `term`, replacing an earlier binding of `name`.
    pub fn insert(&mut self, name: String, term: Term)
        ensures
            final(self)@ == old(self)@.insert(name@, term@),
    {
        proof {
            use_type_invariant(&*self);
            lemma_bindings_map(self.entries@);
        }
        let ghost before = self.entries@;
        let found = self.position(&name);
        let mut entries: Vec<Binding> = Vec::new();
        core::mem::swap(&mut self.entries, &mut entries);
        match found {
            Some(i) => {
                let ghost key = name@;
                let ghost value = term@;
                entries.set(i, Binding { name, term });
                proof {
                    let after = entries@;
                    assert(distinct_names(after)) by {
                        assert forall|a: int, b: int| 0 <= a < b < after.len() implies (
                        #[trigger] after[a]).name@ != (#[trigger] after[b]).name@ by {}
                    }
                    lemma_bindings_map(after);
                    assert(bindings_map(after) =~= bindings_map(before).insert(key, value)) by {
                        assert forall|k: Seq<char>|
                            bindings_map(after).contains_key(k) <==> #[trigger] bindings_map(
                                before,
                            ).insert(key, value).contains_key(k) by {
                            if bindings_map(after).contains_key(k) {
                                let j = choose|j: int| bound_at(after, k, j);
                                assert(bound_at(before, k, j));
                            }
                            if bindings_map(before).contains_key(k) {
                                let j = choose|j: int| bound_at(before, k, j);
                                assert(bound_at(after, k, j));
                            }
                        }
                        assert forall|k: Seq<char>| #[trigger]
                            bindings_map(after).contains_key(k) implies bindings_map(after)[k]
                            == bindings_map(before).insert(key, value)[k] by {}
                    }
                }
            },
            None => {
                entries.push(Binding { name, term });
                proof {
                    let after = entries@;
                    assert(after.drop_last() =~= before);
                    assert(distinct_names(after)) by {
                        assert forall|a: int, b: int| 0 <= a < b < after.len() implies (
                        #[trigger] after[a]).name@ != (#[trigger] after[b]).name@ by {
                            if b == after.len() - 1 {
                                assert(bound_at(before, before[a].name@, a));
                            }
                        }
                    }
                }
            },
        }
        core::mem::swap(&mut self.entries, &mut entries);
    }
}

/// Lists that agree name by name and term by term stand for the same map.
proof fn lemma_same_bindings(a: Seq<Binding>, b: Seq<Binding>)
    requires
        a.len() == b.len(),
        forall|i: int|
            0 <= i < a.len() ==> (#[trigger] a[i]).name@ == b[i].name@ && a[i].term@ == b[i].term@,
    ensures
        bindings_map(a) == bindings_map(b),
        distinct_names(a) ==> distinct_names(b),
    decreases a.len(),
{
    if a.len() > 0 {
        lemma_same_bindings(a.drop_last(), b.drop_last());
        assert(a.last().name@ == b.last().name@ && a.last().term@ == b.last().term@) by {}
    }
    if distinct_names(a) {
        assert forall|i: int, j: int| 0 <= i < j < b.len() implies (#[trigger] b[i]).name@ != (
        #[trigger] b[j]).name@ by {
            assert(a[i].name@ == b[i].name@ && a[j].name@ == b[j].name@);
        }
    }
}

impl Clone for Substitution {
    fn clone(&self) -> (res: Self)
        ensures
            res@ == self@,
    {
        let mut entries: Vec<Binding> = Vec::new();
        let mut i: usize = 0;
        while i < self.entries.len()
            invariant
                i <= self.entries.len(),
                entries.len() == i,
                forall|j: int|
                    0 <= j < i ==> (#[trigger] entries@[j]).name@ == self.entries@[j].name@
                        && entries@[j].term@ == self.entries@[j].term@,
            decreases self.entries.len() - i,
        {
            let entry = &self.entries[i];
            entries.push(Binding { name: entry.name.clone(), term: entry.term.clone() });
            i += 1;
        }
        proof {
            use_type_invariant(self);
            lemma_same_bindings(self.entries@, entries@);
        }
        Substitution { entries }
    }
}

impl Substitution {
    /// Whether both substitutions bind the same names to equal terms.
    pub fn same(&self, other: &Substitution) -> (r: bool)
        ensures
            r == (self@ == other@),
    {
        proof {
            use_type_invariant(self);
            use_type_invariant(other);
            lemma_bindings_map(self.entries@);
            lemma_bindings_map(other.entries@);
        }
        if self.entries.len() != other.entries.len() {
            return false;
        }
        let mut i: usize = 0;
        while i < self.entries.len()
            invariant
                i <= self.entries.len(),
                forall|j: int|
                    0 <= j < i ==> other@.contains_key((#[trigger] self.entries@[j]).name@)
                        && other@[self.entries@[j].name@] == self.entries@[j].term@,
            decreases self.entries.len() - i,
        {
            let entry = &self.entries[i];
            match other.get(&entry.name) {
                Some(term) => {
                    if !entry.term.same(term) {
                        proof {
                            use_type_invariant(self);
                            lemma_bindings_map(self.entries@);
                        }
                        return false;
                    }
                },
                None => {
                    proof {
                        lemma_bindings_map(self.entries@);
                        assert(bound_at(self.entries@, entry.name@, i as int));
                    }
                    return false;
                },
            }
            i += 1;
        }
        proof {
            use_type_invariant(self);
            use_type_invariant(other);
            assert(self@.dom().subset_of(other@.dom())) by {
                assert forall|k: Seq<char>| self@.dom().contains(k) implies other@.dom().contains(
                    k,
                ) by {}
            }
            vstd::set_lib::lemma_subset_equality(self@.dom(), other@.dom());
            assert(self@ =~= other@) by {
                assert forall|k: Seq<char>| #[trigger] self@.contains_key(k) implies self@[k]
                    == other@[k] by {}
            }
        }
        true
    }
}

impl PartialEq for Substitution {
    fn eq(&self, other: &Self) -> (r: bool) {
        self.same(other)
    }
}

impl PartialEqSpecImpl for Substitution {
    open spec fn obeys_eq_spec() -> bool {
        true
    }

    open spec fn eq_spec(&self, other: &Substitution) -> bool {
        self@ == other@
    }
}

} // verus!
