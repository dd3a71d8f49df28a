//! Applying a substitution to a term.
//!
//! A substitution is applied by walking: every variable is replaced by what
//! it is bound to, and that in turn is walked. A substitution built without
//! the occurs check may hold a cycle, so the walk follows at most as many
//! bindings along one path as the substitution has; a variable met after
//! that is left as it is. Where the substitution has no cycle the bound is
//! never reached, and walking twice gives what walking once gives.

use crate::subst::{SubstView, Substitution};
use crate::term::{
    lemma_terms_view, lemma_view_args, names_view, terms_view, Term, TermView,
};
use vstd::prelude::*;

verus! {

/// The walk of `t` under `theta`, following at most `depth` bindings along
/// one path.
pub open spec fn walk_bounded(theta: SubstView, t: TermView, depth: nat) -> TermView
    decreases depth, t,
{
    match t {
        TermView::Var(v) => {
            if theta.contains_key(v) && depth > 0 {
                walk_bounded(theta, theta[v], (depth - 1) as nat)
            } else {
                t
            }
        },
        TermView::Str(f, args) => TermView::Str(f, walk_all(theta, args, depth)),
        _ => t,
    }
}

/// The walks of `ts`, in order.
pub open spec fn walk_all(theta: SubstView, ts: Seq<TermView>, depth: nat) -> Seq<TermView>
    decreases depth, ts,
{
    if ts.len() == 0 {
        Seq::empty()
    } else {
        walk_all(theta, ts.drop_last(), depth).push(walk_bounded(theta, ts.last(), depth))
    }
}

/// The walk of `t` under `theta`: what a solution shows for `t`.
pub open spec fn walk_spec(theta: SubstView, t: TermView) -> TermView {
    walk_bounded(theta, t, theta.dom().len())
}

/// `walk_all` works position by position.
pub proof fn lemma_walk_all(theta: SubstView, ts: Seq<TermView>, depth: nat)
    ensures
        walk_all(theta, ts, depth).len() == ts.len(),
        forall|i: int|
            0 <= i < ts.len() ==> #[trigger] walk_all(theta, ts, depth)[i] == walk_bounded(
                theta,
                ts[i],
                depth,
            ),
    decreases ts.len(),
{
    if ts.len() > 0 {
        lemma_walk_all(theta, ts.drop_last(), depth);
    }
}

/// Walks `term` under `bindings`, following at most `depth` bindings along
/// one path.
pub fn walk_term(bindings: &Substitution, term: &Term, depth: usize) -> (res: Term)
    ensures
        res@ == walk_bounded(bindings@, term@, depth as nat),
    decreases depth, term,
{
    match term {
        Term::Atom(_) | Term::Number(_) => term.clone(),
        Term::Var(x) => {
            match bindings.get(x) {
                Some(value) => {
                    if depth > 0 {
                        walk_term(bindings, value, depth - 1)
                    } else {
                        term.clone()
                    }
                },
                None => term.clone(),
            }
        },
        Term::Str(f, args) => {
            proof {
                lemma_view_args(term);
            }
            let ghost all = term@->Str_1;
            let mut walked: Vec<Term> = Vec::new();
            let mut i: usize = 0;
            while i < args.len()
                invariant
                    i <= args.len(),
                    term is Str,
                    term->Str_1 == *args,
                    all.len() == args@.len(),
                    forall|j: int| 0 <= j < args@.len() ==> #[trigger] all[j] == args@[j]@,
                    walked.len() == i,
                    forall|j: int|
                        0 <= j < i ==> (#[trigger] walked@[j])@ == walk_bounded(
                            bindings@,
                            all[j],
                            depth as nat,
                        ),
                decreases args.len() - i,
            {
                let w = walk_term(bindings, &args[i], depth);
                walked.push(w);
                i += 1;
            }
            let res = Term::Str(f.clone(), walked);
            proof {
                lemma_view_args(&res);
                lemma_walk_all(bindings@, all, depth as nat);
                assert(res@->Str_1 =~= walk_all(bindings@, all, depth as nat));
            }
            res
        },
    }
}

/// Applies `bindings` to `term`: every variable is replaced by what it is
/// bound to, through chains of bindings, down to unbound variables and
/// constants.
pub fn subst_bindings(bindings: &Substitution, term: &Term) -> (res: Term)
    ensures
        res@ == walk_spec(bindings@, term@),
{
    let depth = bindings.len();
    walk_term(bindings, term, depth)
}

/// The projection of `theta` onto the variables `vars`: for each of them,
/// in order, the walk of the variable.
pub open spec fn project_spec(vars: Seq<Seq<char>>, theta: SubstView) -> Seq<TermView> {
    Seq::new(vars.len(), |i: int| walk_spec(theta, TermView::Var(vars[i])))
}

/// Projects the solution `bindings` onto the variables `vars` of a query:
/// gives for each variable what the solution shows for it. A variable
/// that the solution leaves open is shown as itself.
pub fn project(vars: &Vec<String>, bindings: &Substitution) -> (values: Vec<Term>)
    ensures
        terms_view(values@) == project_spec(names_view(vars@), bindings@),
{
    let mut values: Vec<Term> = Vec::new();
    let mut i: usize = 0;
    while i < vars.len()
        invariant
            i <= vars.len(),
            values.len() == i,
            forall|j: int|
                0 <= j < i ==> (#[trigger] values@[j])@ == walk_spec(
                    bindings@,
                    TermView::Var(vars@[j]@),
                ),
        decreases vars.len() - i,
    {
        let var = Term::Var(vars[i].clone());
        values.push(subst_bindings(bindings, &var));
        i += 1;
    }
    proof {
        lemma_terms_view(values@);
    }
    values
}

/// Whether the variable `v` stands somewhere in `t`.
pub open spec fn has_var(t: TermView, v: Seq<char>) -> bool
    decreases t,
{
    match t {
        TermView::Var(w) => w == v,
        TermView::Str(_, args) => exists|i: int| 0 <= i < args.len() && has_var(#[trigger] args[i], v),
        _ => false,
    }
}

/// No variable of `t` is bound in `theta`.
pub open spec fn resolved(theta: SubstView, t: TermView) -> bool {
    forall|v: Seq<char>| has_var(t, v) ==> !theta.contains_key(v)
}

/// `rank` orders the bound variables so that a variable ranks above every
/// bound variable of the term it is bound to.
pub open spec fn ranked(theta: SubstView, rank: spec_fn(Seq<char>) -> nat) -> bool {
    forall|v: Seq<char>, w: Seq<char>|
        theta.contains_key(v) && theta.contains_key(w) && #[trigger] has_var(theta[v], w) ==> rank(
            w,
        ) < rank(v)
}

/// The substitution holds no cycle: no chain of bindings leads from a
/// variable back to itself.
pub open spec fn acyclic(theta: SubstView) -> bool {
    exists|rank: spec_fn(Seq<char>) -> nat| ranked(theta, rank)
}

/// The bound variables that rank below `limit`; all of them where there is
/// no limit.
pub open spec fn below(
    theta: SubstView,
    rank: spec_fn(Seq<char>) -> nat,
    limit: Option<nat>,
) -> Set<Seq<char>> {
    theta.dom().filter(|w: Seq<char>| limit is None || rank(w) < limit->0)
}

/// Every bound variable of `t` ranks below `limit`.
pub open spec fn ranks_below(
    theta: SubstView,
    rank: spec_fn(Seq<char>) -> nat,
    t: TermView,
    limit: Option<nat>,
) -> bool {
    forall|w: Seq<char>|
        has_var(t, w) && theta.contains_key(w) ==> (limit is None || rank(w) < limit->0)
}

/// Under a ranked substitution, a walk with enough depth for the variables
/// that can still be met leaves no bound variable behind.
pub proof fn lemma_walk_resolves(
    theta: SubstView,
    rank: spec_fn(Seq<char>) -> nat,
    t: TermView,
    limit: Option<nat>,
    depth: nat,
)
    requires
        theta.dom().finite(),
        ranked(theta, rank),
        ranks_below(theta, rank, t, limit),
        depth >= below(theta, rank, limit).len(),
    ensures
        resolved(theta, walk_bounded(theta, t, depth)),
    decreases depth, t,
{
    match t {
        TermView::Var(v) => {
            if theta.contains_key(v) {
                assert(has_var(t, v));
                let here = below(theta, rank, limit);
                let next = below(theta, rank, Some(rank(v)));
                vstd::set_lib::lemma_len_subset(next, here.remove(v));
                lemma_walk_resolves(theta, rank, theta[v], Some(rank(v)), (depth - 1) as nat);
            } else {
                assert forall|w: Seq<char>| has_var(t, w) implies !theta.contains_key(w) by {}
            }
        },
        TermView::Str(f, args) => {
            let walked = walk_all(theta, args, depth);
            lemma_walk_all(theta, args, depth);
            assert forall|w: Seq<char>|
                has_var(walk_bounded(theta, t, depth), w) implies !theta.contains_key(w) by {
                let i = choose|i: int| 0 <= i < walked.len() && has_var(#[trigger] walked[i], w);
                assert(ranks_below(theta, rank, args[i], limit)) by {
                    assert forall|u: Seq<char>|
                        has_var(args[i], u) && theta.contains_key(u) implies (limit is None
                        || rank(u) < limit->0) by {
                        assert(has_var(t, u));
                    }
                }
                lemma_walk_resolves(theta, rank, args[i], limit, depth);
            }
        },
        _ => {},
    }
}

/// Walking a term that holds no bound variable changes nothing.
pub proof fn lemma_walk_resolved(theta: SubstView, t: TermView, depth: nat)
    requires
        resolved(theta, t),
    ensures
        walk_bounded(theta, t, depth) == t,
    decreases t,
{
    match t {
        TermView::Var(v) => {
            assert(has_var(t, v));
        },
        TermView::Str(f, args) => {
            lemma_walk_all(theta, args, depth);
            assert forall|i: int| 0 <= i < args.len() implies walk_bounded(theta, args[i], depth)
                == args[i] by {
                assert(resolved(theta, args[i])) by {
                    assert forall|w: Seq<char>| has_var(args[i], w) implies !theta.contains_key(
                        w,
                    ) by {
                        assert(has_var(t, w));
                    }
                }
                lemma_walk_resolved(theta, args[i], depth);
            }
            assert(walk_all(theta, args, depth) =~= args);
        },
        _ => {},
    }
}

/// Walking is idempotent under a substitution without a cycle: what a walk
/// gives is not changed by a second walk.
pub proof fn lemma_walk_idempotent(theta: SubstView, t: TermView)
    requires
        theta.dom().finite(),
        acyclic(theta),
    ensures
        walk_spec(theta, walk_spec(theta, t)) == walk_spec(theta, t),
{
    let rank = choose|rank: spec_fn(Seq<char>) -> nat| ranked(theta, rank);
    assert(below(theta, rank, None) =~= theta.dom());
    lemma_walk_resolves(theta, rank, t, None, theta.dom().len());
    lemma_walk_resolved(theta, walk_spec(theta, t), theta.dom().len());
}

} // verus!
