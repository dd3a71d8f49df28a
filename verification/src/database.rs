//! The clause database: clauses indexed by the predicate of their head.
//!
//! Each predicate (a name with an arity) owns the sequence of its clauses
//! in the order in which they were added. That order is the order in which
//! the prover tries them.

use crate::term::{lemma_terms_view, lemma_view_args, terms_view, Term, TermView};
use vstd::prelude::*;
use vstd::std_specs::cmp::PartialEqSpecImpl;

verus! {

/// The mathematical value of a clause.
pub struct ClauseView {
    pub head: TermView,
    pub body: Seq<TermView>,
}

/// A Horn clause: a head and the goals of its body. A fact has no body.
#[derive(Debug)]
pub struct Clause {
    pub head: Term,
    pub body: Vec<Term>,
}

impl View for Clause {
    type V = ClauseView;

    open spec fn view(&self) -> ClauseView {
        ClauseView { head: self.head@, body: terms_view(self.body@) }
    }
}

/// The models of a sequence of clauses.
pub open spec fn clauses_view(clauses: Seq<Clause>) -> Seq<ClauseView> {
    Seq::new(clauses.len(), |i: int| clauses[i]@)
}

/// A copy of `terms`, term by term.
pub fn clone_terms(terms: &Vec<Term>) -> (res: Vec<Term>)
    ensures
        terms_view(res@) == terms_view(terms@),
{
    let mut res: Vec<Term> = Vec::new();
    let mut i: usize = 0;
    while i < terms.len()
        invariant
            i <= terms.len(),
            res.len() == i,
            forall|j: int| 0 <= j < i ==> res@[j]@ == terms@[j]@,
        decreases terms.len() - i,
    {
        res.push(terms[i].clone());
        i += 1;
    }
    proof {
        lemma_terms_view(res@);
        lemma_terms_view(terms@);
    }
    res
}

/// Whether two vectors hold equal terms position by position.
pub fn same_terms(a: &Vec<Term>, b: &Vec<Term>) -> (r: bool)
    ensures
        r == (terms_view(a@) == terms_view(b@)),
{
    proof {
        lemma_terms_view(a@);
        lemma_terms_view(b@);
    }
    if a.len() != b.len() {
        return false;
    }
    let mut i: usize = 0;
    while i < a.len()
        invariant
            i <= a.len(),
            a.len() == b.len(),
            forall|j: int| 0 <= j < i ==> a@[j]@ == b@[j]@,
        decreases a.len() - i,
    {
        if !a[i].same(&b[i]) {
            proof {
                lemma_terms_view(a@);
                lemma_terms_view(b@);
                assert(terms_view(a@)[i as int] != terms_view(b@)[i as int]);
            }
            return false;
        }
        i += 1;
    }
    proof {
        assert(terms_view(a@) =~= terms_view(b@));
    }
    true
}

impl Clone for Clause {
    fn clone(&self) -> (res: Self)
        ensures
            res@ == self@,
    {
        Clause { head: self.head.clone(), body: clone_terms(&self.body) }
    }
}

impl Clause {
    /// Whether both clauses have equal heads and equal bodies.
    pub fn same(&self, other: &Clause) -> (r: bool)
        ensures
            r == (self@ == other@),
    {
        self.head.same(&other.head) && same_terms(&self.body, &other.body)
    }
}

impl PartialEq for Clause {
    fn eq(&self, other: &Self) -> (r: bool) {
        self.same(other)
    }
}

impl PartialEqSpecImpl for Clause {
    open spec fn obeys_eq_spec() -> bool {
        true
    }

    open spec fn eq_spec(&self, other: &Clause) -> bool {
        self@ == other@
    }
}

/// The mathematical value of a predicate key.
pub struct PredicateKey {
    pub name: Seq<char>,
    pub arity: nat,
}

/// A predicate key: the name of a head and the number of its arguments.
#[derive(Debug)]
pub struct Predicate {
    pub name: String,
    pub arity: usize,
}

impl View for Predicate {
    type V = PredicateKey;

    open spec fn view(&self) -> PredicateKey {
        PredicateKey { name: self.name@, arity: self.arity as nat }
    }
}

/// The predicate that a term belongs to as the head of a clause or as a
/// goal: none for a variable or a number.
pub open spec fn predicate_key(t: TermView) -> Option<PredicateKey> {
    match t {
        TermView::Atom(name) => Some(PredicateKey { name, arity: 0 }),
        TermView::Str(functor, args) => Some(PredicateKey { name: functor, arity: args.len() }),
        _ => None,
    }
}

impl Clone for Predicate {
    fn clone(&self) -> (res: Self)
        ensures
            res@ == self@,
    {
        Predicate { name: self.name.clone(), arity: self.arity }
    }
}

impl Predicate {
    /// The predicate of the head of `clause`, if it has one.
    pub fn from_clause(clause: &Clause) -> (r: Option<Predicate>)
        ensures
            match r {
                Some(p) => predicate_key(clause@.head) == Some(p@),
                None => predicate_key(clause@.head) is None,
            },
    {
        Self::from_term(&clause.head)
    }

    /// The predicate of `term`: its name with arity 0 for an atom, its
    /// functor with the number of arguments for a compound term.
    pub fn from_term(term: &Term) -> (r: Option<Predicate>)
        ensures
            match r {
                Some(p) => predicate_key(term@) == Some(p@),
                None => predicate_key(term@) is None,
            },
    {
        match term {
            Term::Str(f, args) => {
                proof {
                    lemma_view_args(term);
                }
                Some(Predicate { name: f.clone(), arity: args.len() })
            },
            Term::Atom(f) => {
                Some(Predicate { name: f.clone(), arity: 0 })
            },
            Term::Var(_) | Term::Number(_) => None,
        }
    }

    /// Whether both keys have the same name and the same arity.
    pub fn same(&self, other: &Predicate) -> (r: bool)
        ensures
            r == (self@ == other@),
    {
        self.name == other.name && self.arity == other.arity
    }
}

impl PartialEq for Predicate {
    fn eq(&self, other: &Self) -> (r: bool) {
        self.same(other)
    }
}

impl PartialEqSpecImpl for Predicate {
    open spec fn obeys_eq_spec() -> bool {
        true
    }

    open spec fn eq_spec(&self, other: &Predicate) -> bool {
        self@ == other@
    }
}

/// The mathematical value of a database.
pub type DatabaseView = Map<PredicateKey, Seq<ClauseView>>;

/// The clauses of one predicate.
struct Entry {
    predicate: Predicate,
    clauses: Vec<Clause>,
}

/// The map that a list of entries stands for.
spec fn entries_map(entries: Seq<Entry>) -> DatabaseView
    decreases entries.len(),
{
    if entries.len() == 0 {
        Map::empty()
    } else {
        entries_map(entries.drop_last()).insert(
            entries.last().predicate@,
            clauses_view(entries.last().clauses@),
        )
    }
}

/// No predicate has two entries.
spec fn distinct_predicates(entries: Seq<Entry>) -> bool {
    forall|i: int, j: int|
        0 <= i < j < entries.len() ==> (#[trigger] entries[i]).predicate@ != (
        #[trigger] entries[j]).predicate@
}

/// Entry `i` is the one of predicate `key`.
spec fn entry_at(entries: Seq<Entry>, key: PredicateKey, i: int) -> bool {
    0 <= i < entries.len() && entries[i].predicate@ == key
}

/// What `entries_map` holds, read off the list.
proof fn lemma_entries_map(entries: Seq<Entry>)
    ensures
        forall|key: PredicateKey| #[trigger]
            entries_map(entries).contains_key(key) <==> exists|i: int| #[trigger]
                entry_at(entries, key, i),
        distinct_predicates(entries) ==> forall|i: int|
            0 <= i < entries.len() ==> entries_map(entries)[(#[trigger] entries[i]).predicate@]
                == clauses_view(entries[i].clauses@),
    decreases entries.len(),
{
    if entries.len() > 0 {
        let front = entries.drop_last();
        let last = entries.last();
        lemma_entries_map(front);
        assert(entries_map(entries) == entries_map(front).insert(
            last.predicate@,
            clauses_view(last.clauses@),
        ));
        assert forall|key: PredicateKey| #[trigger]
            entries_map(entries).contains_key(key) <==> exists|i: int| #[trigger]
                entry_at(entries, key, i) by {
            if entries_map(entries).contains_key(key) {
                if key == last.predicate@ {
                    assert(entry_at(entries, key, entries.len() - 1));
                } else {
                    let i = choose|i: int| entry_at(front, key, i);
                    assert(entry_at(entries, key, i));
                }
            }
            if exists|i: int| entry_at(entries, key, i) {
                let i = choose|i: int| entry_at(entries, key, i);
                if i < entries.len() - 1 {
                    assert(entry_at(front, key, i));
                }
            }
        }
        if distinct_predicates(entries) {
            assert(distinct_predicates(front)) by {
                assert forall|i: int, j: int| 0 <= i < j < front.len() implies (
                #[trigger] front[i]).predicate@ != (#[trigger] front[j]).predicate@ by {}
            }
            assert forall|i: int| 0 <= i < entries.len() implies entries_map(entries)[(
            #[trigger] entries[i]).predicate@] == clauses_view(entries[i].clauses@) by {
                if i < entries.len() - 1 {
                    assert(front[i] == entries[i]);
                }
            }
        }
    }
}

/// A store of clauses, indexed by predicate.
pub struct Database {
    entries: Vec<Entry>,
}

impl View for Database {
    type V = DatabaseView;

    closed spec fn view(&self) -> DatabaseView {
        entries_map(self.entries@)
    }
}

/// The database after `clause` was added: unchanged where the head has no
/// predicate, else with `clause` behind the clauses of its predicate.
pub open spec fn add_clause_spec(db: DatabaseView, clause: ClauseView) -> DatabaseView {
    match predicate_key(clause.head) {
        None => db,
        Some(key) => if db.contains_key(key) {
            db.insert(key, db[key].push(clause))
        } else {
            db.insert(key, seq![clause])
        },
    }
}

/// The clauses of `key` in the order in which they were added, or `None`
/// where the database has none.
pub open spec fn get_clauses_spec(db: DatabaseView, key: PredicateKey) -> Option<Seq<ClauseView>> {
    if db.contains_key(key) {
        Some(db[key])
    } else {
        None
    }
}

/// The database without the predicate `key`.
pub open spec fn clear_predicate_spec(db: DatabaseView, key: PredicateKey) -> DatabaseView {
    db.remove(key)
}

/// The database after the clauses `clauses` were added one after the other.
pub open spec fn add_all_spec(db: DatabaseView, clauses: Seq<ClauseView>) -> DatabaseView
    decreases clauses.len(),
{
    if clauses.len() == 0 {
        db
    } else {
        add_clause_spec(add_all_spec(db, clauses.drop_last()), clauses.last())
    }
}

/// Those of `clauses` whose head belongs to the predicate `key`, in order.
pub open spec fn clauses_of(clauses: Seq<ClauseView>, key: PredicateKey) -> Seq<ClauseView> {
    clauses.filter(|c: ClauseView| predicate_key(c.head) == Some(key))
}

/// Clauses are kept in insertion order: after clauses were added one after
/// the other, a predicate holds what it held before, followed by those of
/// the added clauses that belong to it, in the order in which they were
/// added.
pub proof fn lemma_insertion_order(db: DatabaseView, clauses: Seq<ClauseView>, key: PredicateKey)
    ensures
        get_clauses_spec(add_all_spec(db, clauses), key) == (match get_clauses_spec(db, key) {
            Some(held) => Some(held + clauses_of(clauses, key)),
            None => if clauses_of(clauses, key).len() == 0 {
                None
            } else {
                Some(clauses_of(clauses, key))
            },
        }),
    decreases clauses.len(),
{
    reveal(Seq::filter);
    if clauses.len() > 0 {
        let front = clauses.drop_last();
        lemma_insertion_order(db, front, key);
    }
}

/// After a predicate was cleared, the database holds no clauses for it.
pub proof fn lemma_cleared_predicate_is_gone(db: DatabaseView, key: PredicateKey)
    ensures
        get_clauses_spec(clear_predicate_spec(db, key), key) is None,
{
}

/// Predicates are independent of each other, and so are two predicates of
/// one name and different arity: adding a clause to one, or clearing one,
/// leaves the clauses of the other as they were.
pub proof fn lemma_predicates_independent(
    db: DatabaseView,
    clause: ClauseView,
    key: PredicateKey,
    other: PredicateKey,
)
    requires
        key != other,
    ensures
        predicate_key(clause.head) == Some(key) ==> get_clauses_spec(
            add_clause_spec(db, clause),
            other,
        ) == get_clauses_spec(db, other),
        get_clauses_spec(clear_predicate_spec(db, key), other) == get_clauses_spec(db, other),
{
}

/// Two predicates of one name are independent where their arities differ.
pub proof fn lemma_arities_independent(
    db: DatabaseView,
    clause: ClauseView,
    name: Seq<char>,
    arity: nat,
    other_arity: nat,
)
    requires
        arity != other_arity,
    ensures
        predicate_key(clause.head) == Some(PredicateKey { name, arity }) ==> get_clauses_spec(
            add_clause_spec(db, clause),
            PredicateKey { name, arity: other_arity },
        ) == get_clauses_spec(db, PredicateKey { name, arity: other_arity }),
        get_clauses_spec(
            clear_predicate_spec(db, PredicateKey { name, arity }),
            PredicateKey { name, arity: other_arity },
        ) == get_clauses_spec(db, PredicateKey { name, arity: other_arity }),
{
}

impl Database {
    #[verifier::type_invariant]
    spec fn well_formed(self) -> bool {
        distinct_predicates(self.entries@)
    }

    /// The empty database.
    pub fn new() -> (db: Database)
        ensures
            db@ == Map::<PredicateKey, Seq<ClauseView>>::empty(),
    {
        Database { entries: Vec::new() }
    }

    /// The index of the entry of `predicate`, if it has one.
    fn position(&self, predicate: &Predicate) -> (r: Option<usize>)
        ensures
            match r {
                Some(i) => entry_at(self.entries@, predicate@, i as int),
                None => !self@.contains_key(predicate@),
            },
    {
        let mut i: usize = 0;
        while i < self.entries.len()
            invariant
                i <= self.entries.len(),
                forall|j: int| 0 <= j < i ==> !entry_at(self.entries@, predicate@, j),
            decreases self.entries.len() - i,
        {
            if self.entries[i].predicate.same(predicate) {
                return Some(i);
            }
            i += 1;
        }
        proof {
            lemma_entries_map(self.entries@);
        }
        None
    }

    /// Adds `clause` behind the clauses of the predicate of its head. A
    /// clause whose head is a variable or a number is dropped.
    pub fn add_clause(&mut self, clause: Clause)
        ensures
            final(self)@ == add_clause_spec(old(self)@, clause@),
    {
        proof {
            use_type_invariant(&*self);
            lemma_entries_map(self.entries@);
        }
        let ghost before = self.entries@;
        let ghost added = clause@;
        match Predicate::from_clause(&clause) {
            None => {},
            Some(predicate) => {
                let ghost key = predicate@;
                let found = self.position(&predicate);
                let mut entries: Vec<Entry> = Vec::new();
                core::mem::swap(&mut self.entries, &mut entries);
                match found {
                    Some(i) => {
                        let mut entry = entries.remove(i);
                        entry.clauses.push(clause);
                        entries.insert(i, entry);
                        proof {
                            let after = entries@;
                            assert forall|j: int| 0 <= j < after.len() implies (
                            #[trigger] after[j]).predicate@ == before[j].predicate@ by {}
                            assert forall|j: int| 0 <= j < after.len() && j != i implies (
                            #[trigger] after[j]) == before[j] by {}
                            lemma_entries_map(after);
                            let target = entries_map(before).insert(
                                key,
                                entries_map(before)[key].push(added),
                            );
                            assert(entries_map(after) =~= target) by {
                                assert forall|k: PredicateKey| #[trigger]
                                    entries_map(after).contains_key(k) <==> target.contains_key(
                                        k,
                                    ) by {
                                    if entries_map(after).contains_key(k) {
                                        let j = choose|j: int| entry_at(after, k, j);
                                        assert(entry_at(before, k, j));
                                    }
                                    if entries_map(before).contains_key(k) {
                                        let j = choose|j: int| entry_at(before, k, j);
                                        assert(entry_at(after, k, j));
                                    }
                                }
                                assert forall|k: PredicateKey| #[trigger]
                                    entries_map(after).contains_key(k) implies entries_map(
                                    after,
                                )[k] == target[k] by {
                                    let j = choose|j: int| entry_at(after, k, j);
                                }
                            }
                        }
                    },
                    None => {
                        let mut clauses: Vec<Clause> = Vec::new();
                        clauses.push(clause);
                        assert(clauses_view(clauses@) =~= seq![added]);
                        entries.push(Entry { predicate, clauses });
                        proof {
                            let after = entries@;
                            assert(after.drop_last() =~= before);
                            assert(distinct_predicates(after)) by {
                                assert forall|a: int, b: int|
                                    0 <= a < b < after.len() implies (
                                #[trigger] after[a]).predicate@ != (
                                #[trigger] after[b]).predicate@ by {
                                    if b == after.len() - 1 {
                                        assert(entry_at(before, before[a].predicate@, a));
                                    }
                                }
                            }
                        }
                    },
                }
                core::mem::swap(&mut self.entries, &mut entries);
            },
        }
    }

    /// The clauses of `predicate` in the order in which they were added,
    /// or `None` if it has none.
    pub fn get_clauses(&self, predicate: &Predicate) -> (r: Option<&Vec<Clause>>)
        ensures
            get_clauses_spec(self@, predicate@) == (match r {
                Some(clauses) => Some(clauses_view(clauses@)),
                None => None,
            }),
    {
        match self.position(predicate) {
            Some(i) => {
                proof {
                    use_type_invariant(self);
                    lemma_entries_map(self.entries@);
                }
                Some(&self.entries[i].clauses)
            },
            None => None,
        }
    }

    /// Empties the database.
    pub fn clear_all(&mut self)
        ensures
            final(self)@ == Map::<PredicateKey, Seq<ClauseView>>::empty(),
    {
        let mut entries: Vec<Entry> = Vec::new();
        core::mem::swap(&mut self.entries, &mut entries);
    }

    /// Removes `predicate` with all its clauses, if it is there.
    pub fn clear_predicate(&mut self, predicate: &Predicate)
        ensures
            final(self)@ == clear_predicate_spec(old(self)@, predicate@),
    {
        proof {
            use_type_invariant(&*self);
            lemma_entries_map(self.entries@);
        }
        let ghost before = self.entries@;
        let ghost key = predicate@;
        match self.position(predicate) {
            None => {},
            Some(i) => {
                let mut entries: Vec<Entry> = Vec::new();
                core::mem::swap(&mut self.entries, &mut entries);
                let _ = entries.remove(i);
                proof {
                    let after = entries@;
                    assert forall|j: int| 0 <= j < after.len() implies #[trigger] after[j] == (if j
                        < i {
                        before[j]
                    } else {
                        before[j + 1]
                    }) by {}
                    assert(distinct_predicates(after)) by {
                        assert forall|a: int, b: int| 0 <= a < b < after.len() implies (
                        #[trigger] after[a]).predicate@ != (#[trigger] after[b]).predicate@ by {}
                    }
                    lemma_entries_map(after);
                    let target = entries_map(before).remove(key);
                    assert(entries_map(after) =~= target) by {
                        assert forall|k: PredicateKey| #[trigger]
                            entries_map(after).contains_key(k) <==> target.contains_key(k) by {
                            if entries_map(after).contains_key(k) {
                                let j = choose|j: int| entry_at(after, k, j);
                                let j0 = if j < i { j } else { j + 1 };
                                assert(entry_at(before, k, j0));
                            }
                            if target.contains_key(k) {
                                let j = choose|j: int| entry_at(before, k, j);
                                let j1 = if j < i { j } else { j - 1 };
                                assert(entry_at(after, k, j1));
                            }
                        }
                        assert forall|k: PredicateKey| #[trigger]
                            entries_map(after).contains_key(k) implies entries_map(after)[k]
                            == target[k] by {}
                    }
                }
                core::mem::swap(&mut self.entries, &mut entries);
            },
        }
    }
}

} // verus!
