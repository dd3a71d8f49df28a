//! The variables of terms, and renaming a clause apart.
//!
//! Before a clause is used, each of its variables is replaced by a variable
//! with a fresh name, the same one at every place where it stands. A fresh
//! name is the text of a time-based identifier followed by a serial number.
//! The search counts the serial numbers, so that no fresh name is handed
//! out twice; the identifier gives the name a shape that no variable of a
//! program text can have.

use crate::database::{Clause, ClauseView};
use crate::subst::{SubstView, Substitution};
use crate::term::{
    lemma_terms_view, lemma_view_args, names_view, terms_view, Term, TermView,
};
use crate::text::{lemma_nat_text, lemma_nat_text_injective, nat_text, nat_to_string};
use crate::walk::has_var;
use vstd::string::StringExecFns;
use vstd::prelude::*;

verus! {

/// The variables of `t` added behind `acc`, each name once, in the order
/// in which they are first met from left to right.
pub open spec fn collect_vars(t: TermView, acc: Seq<Seq<char>>) -> Seq<Seq<char>>
    decreases t,
{
    match t {
        TermView::Var(v) => if acc.contains(v) {
            acc
        } else {
            acc.push(v)
        },
        TermView::Str(_, args) => collect_vars_all(args, acc),
        _ => acc,
    }
}

/// The variables of `ts` added behind `acc`, term after term.
pub open spec fn collect_vars_all(ts: Seq<TermView>, acc: Seq<Seq<char>>) -> Seq<Seq<char>>
    decreases ts,
{
    if ts.len() == 0 {
        acc
    } else {
        collect_vars_all(ts.drop_first(), collect_vars(ts[0], acc))
    }
}

/// The variables of a list of goals.
pub open spec fn goal_vars(goals: Seq<TermView>) -> Seq<Seq<char>> {
    collect_vars_all(goals, Seq::empty())
}

/// The variables of a clause: those of its head, then those of its body.
pub open spec fn clause_vars(c: ClauseView) -> Seq<Seq<char>> {
    collect_vars_all(c.body, collect_vars(c.head, Seq::empty()))
}

/// The variable `v` stands in one of `ts`.
pub open spec fn any_has_var(ts: Seq<TermView>, v: Seq<char>) -> bool {
    exists|i: int| 0 <= i < ts.len() && has_var(#[trigger] ts[i], v)
}

/// Collecting the variables of a term adds exactly its variables, and adds
/// no name twice.
pub proof fn lemma_collect_vars(t: TermView, acc: Seq<Seq<char>>)
    ensures
        acc.no_duplicates() ==> collect_vars(t, acc).no_duplicates(),
        forall|v: Seq<char>| #[trigger]
            collect_vars(t, acc).contains(v) <==> acc.contains(v) || has_var(t, v),
    decreases t,
{
    match t {
        TermView::Var(w) => {
            if !acc.contains(w) {
                let more = acc.push(w);
                assert(more[acc.len() as int] == w);
                assert forall|v: Seq<char>| #[trigger]
                    more.contains(v) <==> acc.contains(v) || v == w by {
                    if acc.contains(v) {
                        let i = choose|i: int| 0 <= i < acc.len() && acc[i] == v;
                        assert(more[i] == v);
                    }
                    if more.contains(v) && v != w {
                        let i = choose|i: int| 0 <= i < more.len() && more[i] == v;
                    }
                }
                if acc.no_duplicates() {
                    assert forall|i: int, j: int|
                        0 <= i < more.len() && 0 <= j < more.len() && i != j implies more[i]
                        != more[j] by {}
                }
            }
        },
        TermView::Str(_, args) => {
            lemma_collect_vars_all(args, acc);
            assert forall|v: Seq<char>| #[trigger]
                collect_vars(t, acc).contains(v) <==> acc.contains(v) || has_var(t, v) by {
                assert(collect_vars_all(args, acc).contains(v) <==> acc.contains(v) || any_has_var(
                    args,
                    v,
                ));
            }
        },
        _ => {
            assert forall|v: Seq<char>| !has_var(t, v) by {}
        },
    }
}

/// The same for the terms of a list.
pub proof fn lemma_collect_vars_all(ts: Seq<TermView>, acc: Seq<Seq<char>>)
    ensures
        acc.no_duplicates() ==> collect_vars_all(ts, acc).no_duplicates(),
        forall|v: Seq<char>| #[trigger]
            collect_vars_all(ts, acc).contains(v) <==> acc.contains(v) || any_has_var(ts, v),
    decreases ts,
{
    if ts.len() > 0 {
        let mid = collect_vars(ts[0], acc);
        let rest = ts.drop_first();
        lemma_collect_vars(ts[0], acc);
        lemma_collect_vars_all(rest, mid);
        assert forall|v: Seq<char>| #[trigger]
            collect_vars_all(ts, acc).contains(v) <==> acc.contains(v) || any_has_var(ts, v) by {
            assert(collect_vars_all(rest, mid).contains(v) <==> mid.contains(v) || any_has_var(
                rest,
                v,
            ));
            if any_has_var(rest, v) {
                let i = choose|i: int| 0 <= i < rest.len() && has_var(#[trigger] rest[i], v);
            }
            if any_has_var(ts, v) {
                let i = choose|i: int| 0 <= i < ts.len() && has_var(#[trigger] ts[i], v);
                if i > 0 {
                    assert(rest[i - 1] == ts[i]);
                }
            }
        }
    }
}

/// The variables of a list of goals are exactly the variables that stand in
/// one of the goals, each of them once.
pub proof fn lemma_goal_vars(goals: Seq<TermView>)
    ensures
        goal_vars(goals).no_duplicates(),
        forall|v: Seq<char>| #[trigger] goal_vars(goals).contains(v) <==> any_has_var(goals, v),
{
    lemma_collect_vars_all(goals, Seq::empty());
}

/// The variables of a clause are exactly the variables that stand in its
/// head or in a goal of its body, each of them once.
pub proof fn lemma_clause_vars(c: ClauseView)
    ensures
        clause_vars(c).no_duplicates(),
        forall|v: Seq<char>| #[trigger]
            clause_vars(c).contains(v) <==> has_var(c.head, v) || any_has_var(c.body, v),
{
    lemma_collect_vars(c.head, Seq::empty());
    lemma_collect_vars_all(c.body, collect_vars(c.head, Seq::empty()));
}

/// Whether `name` is among `names`.
fn contains_name(names: &Vec<String>, name: &String) -> (found: bool)
    ensures
        found == names_view(names@).contains(name@),
{
    let mut i: usize = 0;
    while i < names.len()
        invariant
            i <= names.len(),
            forall|j: int| 0 <= j < i ==> names@[j]@ != name@,
        decreases names.len() - i,
    {
        if names[i] == *name {
            assert(names_view(names@)[i as int] == name@);
            return true;
        }
        i += 1;
    }
    false
}

/// Adds the variables of `term` that `vars` does not hold yet.
pub fn collect_term_variables(term: &Term, vars: &mut Vec<String>)
    ensures
        names_view(final(vars)@) == collect_vars(term@, names_view(old(vars)@)),
    decreases term,
{
    match term {
        Term::Var(var) => {
            if !contains_name(vars, var) {
                vars.push(var.clone());
            }
        },
        Term::Atom(_) | Term::Number(_) => {},
        Term::Str(_, args) => {
            proof {
                lemma_view_args(term);
            }
            let ghost all = term@->Str_1;
            let ghost start = names_view(vars@);
            assert(all.skip(0) =~= all);
            let mut i: usize = 0;
            while i < args.len()
                invariant
                    i <= args.len(),
                    term is Str,
                    term->Str_1 == *args,
                    all.len() == args@.len(),
                    forall|j: int| 0 <= j < args@.len() ==> #[trigger] all[j] == args@[j]@,
                    collect_vars_all(all, start) == collect_vars_all(
                        all.skip(i as int),
                        names_view(vars@),
                    ),
                decreases args.len() - i,
            {
                proof {
                    assert(all.skip(i as int).drop_first() =~= all.skip(i as int + 1));
                }
                collect_term_variables(&args[i], vars);
                i += 1;
            }
        },
    }
}

/// Adds the variables of `goals` that `vars` does not hold yet.
pub fn collect_variables(goals: &Vec<Term>, vars: &mut Vec<String>)
    ensures
        names_view(final(vars)@) == collect_vars_all(terms_view(goals@), names_view(old(vars)@)),
{
    let ghost all = terms_view(goals@);
    let ghost start = names_view(vars@);
    proof {
        lemma_terms_view(goals@);
        assert(all.skip(0) =~= all);
    }
    let mut i: usize = 0;
    while i < goals.len()
        invariant
            i <= goals.len(),
            all == terms_view(goals@),
            all.len() == goals@.len(),
            forall|j: int| 0 <= j < goals@.len() ==> #[trigger] all[j] == goals@[j]@,
            collect_vars_all(all, start) == collect_vars_all(all.skip(i as int), names_view(vars@)),
        decreases goals.len() - i,
    {
        proof {
            assert(all.skip(i as int).drop_first() =~= all.skip(i as int + 1));
        }
        collect_term_variables(&goals[i], vars);
        i += 1;
    }
}

/// The variables of `goals`: each name once, in the order in which they
/// are first met.
pub fn find_variables_in_goals(goals: &Vec<Term>) -> (vars: Vec<String>)
    ensures
        names_view(vars@) == goal_vars(terms_view(goals@)),
        names_view(vars@).no_duplicates(),
        forall|v: Seq<char>| #[trigger]
            names_view(vars@).contains(v) <==> any_has_var(terms_view(goals@), v),
{
    proof {
        lemma_goal_vars(terms_view(goals@));
    }
    let mut vars: Vec<String> = Vec::new();
    assert(names_view(vars@) =~= Seq::<Seq<char>>::empty());
    collect_variables(goals, &mut vars);
    vars
}

/// The variables that stand in the bindings `theta`: those that are bound
/// and those of the terms that they are bound to.
pub open spec fn bindings_vars(theta: SubstView) -> Set<Seq<char>> {
    Set::new(
        |v: Seq<char>|
            theta.contains_key(v) || exists|u: Seq<char>|
                theta.contains_key(u) && has_var(#[trigger] theta[u], v),
    )
}

/// The variables that a unification of `x` and `y` under `theta` can meet:
/// those of the two terms and those that stand in the bindings.
pub open spec fn unify_vars(x: TermView, y: TermView, theta: SubstView) -> Set<Seq<char>> {
    Set::new(|v: Seq<char>| has_var(x, v) || has_var(y, v) || bindings_vars(theta).contains(v))
}

/// Counts the variables that a unification of `x` and `y` under `bindings`
/// can meet.
pub fn count_variables(x: &Term, y: &Term, bindings: &Substitution) -> (count: usize)
    ensures
        unify_vars(x@, y@, bindings@).finite(),
        count == unify_vars(x@, y@, bindings@).len(),
{
    let mut vars: Vec<String> = Vec::new();
    let ghost none = names_view(vars@);
    assert(none =~= Seq::<Seq<char>>::empty());
    collect_term_variables(x, &mut vars);
    let ghost first = names_view(vars@);
    collect_term_variables(y, &mut vars);
    proof {
        lemma_collect_vars(x@, none);
        lemma_collect_vars(y@, first);
    }
    let ghost keys = bindings.keys();
    let ghost theta = bindings@;
    let bound_names = bindings.len();
    let mut i: usize = 0;
    loop
        invariant
            keys == bindings.keys(),
            theta == bindings@,
            bound_names == keys.len(),
            i <= keys.len(),
            keys.no_duplicates(),
            forall|name: Seq<char>| theta.contains_key(name) <==> keys.contains(name),
            names_view(vars@).no_duplicates(),
            forall|v: Seq<char>| #[trigger]
                names_view(vars@).contains(v) <==> has_var(x@, v) || has_var(y@, v) || exists|
                    j: int,
                |
                    0 <= j < i && (#[trigger] keys[j] == v || has_var(theta[keys[j]], v)),
        ensures
            i == keys.len(),
            keys == bindings.keys(),
            theta == bindings@,
            forall|name: Seq<char>| theta.contains_key(name) <==> keys.contains(name),
            names_view(vars@).no_duplicates(),
            forall|v: Seq<char>| #[trigger]
                names_view(vars@).contains(v) <==> has_var(x@, v) || has_var(y@, v) || exists|
                    j: int,
                |
                    0 <= j < i && (#[trigger] keys[j] == v || has_var(theta[keys[j]], v)),
        decreases keys.len() - i,
    {
        let (name, term) = match bindings.entry(i) {
            None => {
                break ;
            },
            Some(found) => found,
        };
        let ghost before = names_view(vars@);
        let bound = Term::Var(name.clone());
        collect_term_variables(&bound, &mut vars);
        let ghost between = names_view(vars@);
        collect_term_variables(term, &mut vars);
        proof {
            lemma_collect_vars(bound@, before);
            lemma_collect_vars(term@, between);
            assert forall|v: Seq<char>| #[trigger]
                names_view(vars@).contains(v) <==> has_var(x@, v) || has_var(y@, v) || exists|
                    j: int,
                |
                    0 <= j < i + 1 && (#[trigger] keys[j] == v || has_var(theta[keys[j]], v)) by {
                assert(names_view(vars@).contains(v) <==> between.contains(v) || has_var(term@, v));
                assert(between.contains(v) <==> before.contains(v) || has_var(bound@, v));
                assert(has_var(bound@, v) <==> v == keys[i as int]);
                if exists|j: int|
                    0 <= j < i + 1 && (#[trigger] keys[j] == v || has_var(theta[keys[j]], v)) {
                    let j = choose|j: int|
                        0 <= j < i + 1 && (#[trigger] keys[j] == v || has_var(theta[keys[j]], v));
                    if j < i {
                        assert(before.contains(v));
                    }
                }
                if before.contains(v) && !has_var(x@, v) && !has_var(y@, v) {
                    let j = choose|j: int|
                        0 <= j < i && (#[trigger] keys[j] == v || has_var(theta[keys[j]], v));
                    assert(0 <= j < i + 1);
                }
                if v == keys[i as int] || has_var(term@, v) {
                    assert(keys[i as int] == v || has_var(theta[keys[i as int]], v));
                }
            }
        }
        i += 1;
    }
    proof {
        let names = names_view(vars@);
        let all = unify_vars(x@, y@, theta);
        assert(names.to_set() =~= all) by {
            assert forall|v: Seq<char>| names.to_set().contains(v) <==> all.contains(v) by {
                assert(names.to_set().contains(v) <==> names.contains(v));
                if exists|j: int|
                    0 <= j < i && (#[trigger] keys[j] == v || has_var(theta[keys[j]], v)) {
                    let j = choose|j: int|
                        0 <= j < i && (#[trigger] keys[j] == v || has_var(theta[keys[j]], v));
                    assert(keys.contains(keys[j]));
                    assert(theta.contains_key(keys[j]));
                }
                if theta.contains_key(v) {
                    assert(keys.contains(v));
                    let j = choose|j: int| 0 <= j < keys.len() && keys[j] == v;
                    assert(keys[j] == v || has_var(theta[keys[j]], v));
                    assert(names.contains(v));
                }
                if exists|u: Seq<char>| theta.contains_key(u) && has_var(#[trigger] theta[u], v) {
                    let u = choose|u: Seq<char>|
                        theta.contains_key(u) && has_var(#[trigger] theta[u], v);
                    assert(keys.contains(u));
                    let j = choose|j: int| 0 <= j < keys.len() && keys[j] == u;
                    assert(keys[j] == v || has_var(theta[keys[j]], v));
                    assert(names.contains(v));
                }
            }
        }
        vstd::seq_lib::seq_to_set_is_finite(names);
        names.unique_seq_to_set();
    }
    vars.len()
}

/// `t` with each variable that `m` binds replaced by what `m` binds it to.
/// Nothing is looked up twice: what is put in stays as it is.
pub open spec fn rename_term_spec(t: TermView, m: SubstView) -> TermView
    decreases t,
{
    match t {
        TermView::Var(v) => if m.contains_key(v) {
            m[v]
        } else {
            t
        },
        TermView::Str(f, args) => TermView::Str(f, rename_all_spec(args, m)),
        _ => t,
    }
}

/// `ts` renamed term by term.
pub open spec fn rename_all_spec(ts: Seq<TermView>, m: SubstView) -> Seq<TermView>
    decreases ts,
{
    if ts.len() == 0 {
        Seq::empty()
    } else {
        rename_all_spec(ts.drop_last(), m).push(rename_term_spec(ts.last(), m))
    }
}

/// A clause renamed: its head and every goal of its body.
pub open spec fn rename_clause_spec(c: ClauseView, m: SubstView) -> ClauseView {
    ClauseView { head: rename_term_spec(c.head, m), body: rename_all_spec(c.body, m) }
}

/// `rename_all_spec` works position by position.
pub proof fn lemma_rename_all(ts: Seq<TermView>, m: SubstView)
    ensures
        rename_all_spec(ts, m).len() == ts.len(),
        forall|i: int|
            0 <= i < ts.len() ==> #[trigger] rename_all_spec(ts, m)[i] == rename_term_spec(ts[i], m),
    decreases ts.len(),
{
    if ts.len() > 0 {
        lemma_rename_all(ts.drop_last(), m);
    }
}

/// A lower-case hexadecimal digit.
pub open spec fn is_lower_hex(c: char) -> bool {
    ('0' <= c && c <= '9') || ('a' <= c && c <= 'f')
}

/// The shape of the text of an identifier: 36 characters, hyphens at the
/// positions 8, 13, 18 and 23, lower-case hexadecimal digits elsewhere.
pub open spec fn is_uuid_text(s: Seq<char>) -> bool {
    &&& s.len() == 36
    &&& forall|i: int|
        0 <= i < 36 ==> if i == 8 || i == 13 || i == 18 || i == 23 {
            #[trigger] s[i] == '-'
        } else {
            is_lower_hex(s[i])
        }
}

/// The shape of the fresh name with the serial number `serial`: the text of
/// an identifier, a hyphen, and the serial number in decimal notation.
pub open spec fn is_fresh_name(name: Seq<char>, serial: nat) -> bool {
    &&& name.len() > 37
    &&& is_uuid_text(name.take(36))
    &&& name[36] == '-'
    &&& name.skip(37) == nat_text(serial)
}

/// `m` renames exactly the variables `vars`, each to a variable with the
/// fresh name of a serial number of its own, counted from `serial` by the
/// place at which the variable stands in `vars`.
pub open spec fn fresh_renaming(m: SubstView, vars: Seq<Seq<char>>, serial: nat) -> bool {
    &&& forall|v: Seq<char>| m.contains_key(v) <==> vars.contains(v)
    &&& forall|v: Seq<char>| #[trigger]
        m.contains_key(v) ==> m[v] is Var && exists|i: int|
            0 <= i < vars.len() && vars[i] == v && #[trigger] is_fresh_name(
                m[v]->Var_0,
                (serial + i) as nat,
            )
}

/// Fresh names with two serial numbers are two names.
pub proof fn lemma_fresh_names_differ(a: Seq<char>, n: nat, b: Seq<char>, m: nat)
    requires
        is_fresh_name(a, n),
        is_fresh_name(b, m),
        n != m,
    ensures
        a != b,
{
    if nat_text(n) == nat_text(m) {
        lemma_nat_text_injective(n, m);
    }
}

/// A renaming keeps the variables apart: two variables get two names.
pub proof fn lemma_renaming_keeps_apart(
    m: SubstView,
    vars: Seq<Seq<char>>,
    serial: nat,
    v: Seq<char>,
    w: Seq<char>,
)
    requires
        fresh_renaming(m, vars, serial),
        m.contains_key(v),
        m.contains_key(w),
        v != w,
    ensures
        m[v] != m[w],
{
    let i = choose|i: int|
        0 <= i < vars.len() && vars[i] == v && #[trigger] is_fresh_name(
            m[v]->Var_0,
            (serial + i) as nat,
        );
    let j = choose|j: int|
        0 <= j < vars.len() && vars[j] == w && #[trigger] is_fresh_name(
            m[w]->Var_0,
            (serial + j) as nat,
        );
    lemma_fresh_names_differ(m[v]->Var_0, (serial + i) as nat, m[w]->Var_0, (serial + j) as nat);
}

/// Two renamings whose serial numbers do not overlap share no name.
pub proof fn lemma_renamings_disjoint(
    one: SubstView,
    one_vars: Seq<Seq<char>>,
    one_serial: nat,
    other: SubstView,
    other_vars: Seq<Seq<char>>,
    other_serial: nat,
    v: Seq<char>,
    w: Seq<char>,
)
    requires
        fresh_renaming(one, one_vars, one_serial),
        fresh_renaming(other, other_vars, other_serial),
        one_serial + one_vars.len() <= other_serial,
        one.contains_key(v),
        other.contains_key(w),
    ensures
        one[v] != other[w],
{
    let i = choose|i: int|
        0 <= i < one_vars.len() && one_vars[i] == v && #[trigger] is_fresh_name(
            one[v]->Var_0,
            (one_serial + i) as nat,
        );
    let j = choose|j: int|
        0 <= j < other_vars.len() && other_vars[j] == w && #[trigger] is_fresh_name(
            other[w]->Var_0,
            (other_serial + j) as nat,
        );
    lemma_fresh_names_differ(
        one[v]->Var_0,
        (one_serial + i) as nat,
        other[w]->Var_0,
        (other_serial + j) as nat,
    );
}

/// The text of the time-based identifier that `uuid::Uuid::new_v1` makes
/// of the clock ticks and the counter given, for a fixed node. Stated is
/// its shape: the hyphenated lower-case form in which a `Uuid` prints
/// itself. The ticks go in through `uuid::Timestamp::from_gregorian_time`,
/// whose arithmetic wraps.
#[verifier::external_body]
fn uuid_text(ticks: u64, counter: u16) -> (text: String)
    ensures
        is_uuid_text(text@),
{
    uuid::Uuid::new_v1(uuid::Timestamp::from_gregorian_time(ticks, counter), &[1, 2, 3, 4, 5, 6])
        .to_string()
}

/// The fresh name with the serial number `serial`: an identifier made of
/// the clock ticks `clock` and the lower bits of the serial number, and the
/// serial number itself. It is the serial number that keeps fresh names
/// apart.
pub fn fresh_name(clock: u64, serial: usize) -> (name: String)
    ensures
        is_fresh_name(name@, serial as nat),
{
    let counter: u16 = (serial % 16384) as u16;
    let mut name = uuid_text(clock, counter);
    let ghost id = name@;
    name.append("-");
    let digits = nat_to_string(serial as u64);
    name.append(digits.as_str());
    proof {
        reveal_strlit("-");
        lemma_nat_text(serial as nat);
        assert(name@ =~= id + "-"@ + nat_text(serial as nat));
        assert(name@.take(36) =~= id);
        assert(name@.skip(37) =~= nat_text(serial as nat));
    }
    name
}

/// A renaming of `vars`: each of them bound to a variable with a fresh
/// name, with serial numbers from `serial` on. Gives `None` where the
/// serial numbers would go beyond what can be counted.
pub fn fresh_variables(vars: &Vec<String>, clock: u64, serial: usize) -> (r: Option<Substitution>)
    ensures
        match r {
            Some(renaming) => serial + vars.len() <= usize::MAX && fresh_renaming(
                renaming@,
                names_view(vars@),
                serial as nat,
            ),
            None => serial + vars.len() > usize::MAX,
        },
{
    if vars.len() > usize::MAX - serial {
        return None;
    }
    let ghost names = names_view(vars@);
    let mut renaming = Substitution::new();
    let mut i: usize = 0;
    while i < vars.len()
        invariant
            i <= vars.len(),
            serial + vars.len() <= usize::MAX,
            names == names_view(vars@),
            forall|v: Seq<char>|
                renaming@.contains_key(v) <==> exists|j: int| 0 <= j < i && #[trigger] names[j] == v,
            forall|v: Seq<char>| #[trigger]
                renaming@.contains_key(v) ==> renaming@[v] is Var && exists|j: int|
                    0 <= j < names.len() && names[j] == v && #[trigger] is_fresh_name(
                        renaming@[v]->Var_0,
                        (serial + j) as nat,
                    ),
        decreases vars.len() - i,
    {
        let ghost before = renaming@;
        if !renaming.contains_key(&vars[i]) {
            let name = fresh_name(clock, serial + i);
            let fresh = Term::Var(name);
            renaming.insert(vars[i].clone(), fresh);
            proof {
                assert(names[i as int] == vars@[i as int]@);
                assert(is_fresh_name(renaming@[names[i as int]]->Var_0, (serial + i) as nat));
                assert forall|v: Seq<char>| #[trigger]
                    renaming@.contains_key(v) implies renaming@[v] is Var && exists|j: int|
                    0 <= j < names.len() && names[j] == v && #[trigger] is_fresh_name(
                        renaming@[v]->Var_0,
                        (serial + j) as nat,
                    ) by {
                    if v != names[i as int] {
                        assert(before.contains_key(v));
                    }
                }
            }
        }
        proof {
            assert forall|v: Seq<char>|
                renaming@.contains_key(v) <==> exists|j: int|
                    0 <= j < i + 1 && #[trigger] names[j] == v by {
                if renaming@.contains_key(v) {
                    if v == names[i as int] {
                    } else {
                        assert(before.contains_key(v));
                        let j = choose|j: int| 0 <= j < i && #[trigger] names[j] == v;
                    }
                }
                if exists|j: int| 0 <= j < i + 1 && #[trigger] names[j] == v {
                    let j = choose|j: int| 0 <= j < i + 1 && #[trigger] names[j] == v;
                    if j < i {
                        assert(before.contains_key(v));
                    }
                }
            }
        }
        i += 1;
    }
    proof {
        assert forall|v: Seq<char>| renaming@.contains_key(v) <==> names.contains(v) by {
            if renaming@.contains_key(v) {
                let j = choose|j: int| 0 <= j < i && #[trigger] names[j] == v;
                assert(names[j] == v);
            }
        }
    }
    Some(renaming)
}

/// Replaces each variable of `term` that `renaming` binds by what it is
/// bound to there.
pub fn rename_term(term: &Term, renaming: &Substitution) -> (res: Term)
    ensures
        res@ == rename_term_spec(term@, renaming@),
    decreases term,
{
    match term {
        Term::Atom(_) | Term::Number(_) => term.clone(),
        Term::Var(var) => {
            match renaming.get(var) {
                Some(subst) => subst.clone(),
                None => term.clone(),
            }
        },
        Term::Str(f, args) => {
            proof {
                lemma_view_args(term);
            }
            let ghost all = term@->Str_1;
            let mut renamed: Vec<Term> = Vec::new();
            let mut i: usize = 0;
            while i < args.len()
                invariant
                    i <= args.len(),
                    term is Str,
                    term->Str_1 == *args,
                    all.len() == args@.len(),
                    forall|j: int| 0 <= j < args@.len() ==> #[trigger] all[j] == args@[j]@,
                    renamed.len() == i,
                    forall|j: int|
                        0 <= j < i ==> (#[trigger] renamed@[j])@ == rename_term_spec(
                            all[j],
                            renaming@,
                        ),
                decreases args.len() - i,
            {
                let r = rename_term(&args[i], renaming);
                renamed.push(r);
                i += 1;
            }
            let res = Term::Str(f.clone(), renamed);
            proof {
                lemma_view_args(&res);
                lemma_rename_all(all, renaming@);
                assert(res@->Str_1 =~= rename_all_spec(all, renaming@));
            }
            res
        },
    }
}

/// Renames the head and the body of `clause` by `renaming`.
pub fn rename_clause(clause: &Clause, renaming: &Substitution) -> (res: Clause)
    ensures
        res@ == rename_clause_spec(clause@, renaming@),
{
    let head = rename_term(&clause.head, renaming);
    let mut body: Vec<Term> = Vec::new();
    let mut i: usize = 0;
    while i < clause.body.len()
        invariant
            i <= clause.body.len(),
            body.len() == i,
            forall|j: int|
                0 <= j < i ==> (#[trigger] body@[j])@ == rename_term_spec(
                    clause.body@[j]@,
                    renaming@,
                ),
        decreases clause.body.len() - i,
    {
        let goal = rename_term(&clause.body[i], renaming);
        body.push(goal);
        i += 1;
    }
    proof {
        lemma_terms_view(body@);
        lemma_terms_view(clause.body@);
        lemma_rename_all(terms_view(clause.body@), renaming@);
        assert(terms_view(body@) =~= rename_all_spec(terms_view(clause.body@), renaming@));
    }
    Clause { head, body }
}

/// The variables of `clause`: those of its head, then those of its body.
pub fn clause_variables(clause: &Clause) -> (vars: Vec<String>)
    ensures
        names_view(vars@) == clause_vars(clause@),
{
    let mut vars: Vec<String> = Vec::new();
    assert(names_view(vars@) =~= Seq::<Seq<char>>::empty());
    collect_term_variables(&clause.head, &mut vars);
    collect_variables(&clause.body, &mut vars);
    vars
}

/// A copy of `clause` in which every variable has a fresh name, the same
/// one wherever the variable stands, and another one than every other
/// variable of the clause has. The names take the serial numbers from
/// `serial` on, one for each variable of the clause. Gives `None` where
/// the serial numbers would go beyond what can be counted.
pub fn rename_variables(clause: &Clause, clock: u64, serial: usize) -> (res: Option<Clause>)
    ensures
        match res {
            Some(renamed) => serial + clause_vars(clause@).len() <= usize::MAX && exists|
                m: SubstView,
            | #[trigger]
                fresh_renaming(m, clause_vars(clause@), serial as nat) && renamed@
                    == rename_clause_spec(clause@, m),
            None => serial + clause_vars(clause@).len() > usize::MAX,
        },
{
    let vars = clause_variables(clause);
    match fresh_variables(&vars, clock, serial) {
        Some(renaming) => {
            let renamed = rename_clause(clause, &renaming);
            assert(fresh_renaming(renaming@, clause_vars(clause@), serial as nat));
            Some(renamed)
        },
        None => None,
    }
}

} // verus!
