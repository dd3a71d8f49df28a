//! What a failed unification means, and the symmetry of unification.
//!
//! Unification fails for one of three reasons: two terms clash, the occurs
//! check finds the variable in the term it would be bound to, or the depth
//! runs out. Where the depth does not run out, a failure is final: the
//! bindings it started from have no solution that makes the two terms
//! equal. With the occurs check on, a success always has a solution. So
//! with the occurs check on and enough depth, unifying two terms in one
//! order fails exactly where it fails in the other.

use crate::acyclic::{lemma_empty_acyclic, lemma_unify_acyclic, lemma_unify_finite, reaches};
use crate::rename::{lemma_rename_all, rename_all_spec};
use crate::solution::{
    apply, equal_pairs, equal_under, lemma_equal_compounds, lemma_equates_is_same_walk,
    lemma_unify_general, lemma_unify_sound, lemma_unify_solutions, lemma_unify_symmetric_classes,
    lemma_walk_solves, solves, walk_map,
};
use crate::walk::walk_spec;
use crate::subst::SubstView;
use crate::term::TermView;
use crate::unify::{occurs_spec, unify_args_spec, unify_spec, unify_variable_spec};
use vstd::prelude::*;

verus! {

/// The number of atoms, numbers, variables and functors that `t` is made
/// of.
pub open spec fn term_size(t: TermView) -> nat
    decreases t,
{
    match t {
        TermView::Str(_, args) => 1 + terms_size(args),
        _ => 1,
    }
}

/// The sizes of `ts`, added up.
pub open spec fn terms_size(ts: Seq<TermView>) -> nat
    decreases ts,
{
    if ts.len() == 0 {
        0
    } else {
        term_size(ts[0]) + terms_size(ts.drop_first())
    }
}

/// A list of terms is at least as large as each of its terms.
pub proof fn lemma_terms_size(ts: Seq<TermView>, i: int)
    requires
        0 <= i < ts.len(),
    ensures
        term_size(ts[i]) <= terms_size(ts),
    decreases ts.len(),
{
    if i > 0 {
        lemma_terms_size(ts.drop_first(), i - 1);
    }
}

/// Under a solution of the bindings, a variable that is reached from a
/// term is no larger than the term, and smaller where the term is
/// compound.
pub proof fn lemma_reached_is_smaller(
    theta: SubstView,
    sigma: SubstView,
    t: TermView,
    v: Seq<char>,
    steps: nat,
)
    requires
        solves(sigma, theta),
        reaches(theta, t, v, steps),
    ensures
        term_size(apply(sigma, TermView::Var(v))) <= term_size(apply(sigma, t)),
        t is Str ==> term_size(apply(sigma, TermView::Var(v))) < term_size(apply(sigma, t)),
    decreases steps, t,
{
    match t {
        TermView::Var(w) => {
            if w != v {
                lemma_reached_is_smaller(theta, sigma, theta[w], v, (steps - 1) as nat);
            }
        },
        TermView::Str(_, args) => {
            let i = choose|i: int|
                0 <= i < args.len() && reaches(theta, #[trigger] args[i], v, steps);
            lemma_reached_is_smaller(theta, sigma, args[i], v, steps);
            lemma_rename_all(args, sigma);
            lemma_terms_size(rename_all_spec(args, sigma), i);
        },
        _ => {},
    }
}

/// The variable `v` is reached from `t` by following bindings of `theta`.
pub open spec fn reached(theta: SubstView, t: TermView, v: Seq<char>) -> bool {
    exists|steps: nat| reaches(theta, t, v, steps)
}

/// No solution of the bindings `theta` makes `x` and `y` equal: they have
/// no unifier that agrees with the bindings.
pub open spec fn no_unifier(theta: SubstView, x: TermView, y: TermView) -> bool {
    forall|sigma: SubstView| !(solves(sigma, theta) && equal_under(sigma, x, y))
}

/// The depth ran out while `x` and `y` were unified: a binding was to be
/// followed with no depth left, or the occurs check gave up.
pub open spec fn unify_cut(
    x: TermView,
    y: TermView,
    b: Option<SubstView>,
    occurs: bool,
    depth: nat,
) -> bool
    decreases depth, 1int, x,
{
    if b is None || x == y {
        false
    } else if x is Var {
        unify_variable_cut(x->Var_0, y, b, occurs, depth)
    } else if y is Var {
        unify_variable_cut(y->Var_0, x, b, occurs, depth)
    } else if x is Str && y is Str && x->Str_0 == y->Str_0 && x->Str_1.len() == y->Str_1.len() {
        unify_args_cut(x->Str_1, y->Str_1, b, occurs, depth)
    } else {
        false
    }
}

/// The depth ran out while the paired arguments were unified.
pub open spec fn unify_args_cut(
    xs: Seq<TermView>,
    ys: Seq<TermView>,
    b: Option<SubstView>,
    occurs: bool,
    depth: nat,
) -> bool
    decreases depth, 1int, xs,
{
    if xs.len() == 0 || ys.len() == 0 {
        false
    } else {
        unify_cut(xs[0], ys[0], b, occurs, depth) || unify_args_cut(
            xs.drop_first(),
            ys.drop_first(),
            unify_spec(xs[0], ys[0], b, occurs, depth),
            occurs,
            depth,
        )
    }
}

/// The depth ran out while the variable `v` was unified with `t`.
pub open spec fn unify_variable_cut(
    v: Seq<char>,
    t: TermView,
    b: Option<SubstView>,
    occurs: bool,
    depth: nat,
) -> bool
    decreases depth, 0int, t,
{
    match b {
        None => false,
        Some(theta) => {
            if theta.contains_key(v) {
                depth == 0 || unify_cut(theta[v], t, b, occurs, (depth - 1) as nat)
            } else if t is Var && theta.contains_key(t->Var_0) {
                depth == 0 || unify_cut(
                    TermView::Var(v),
                    theta[t->Var_0],
                    b,
                    occurs,
                    (depth - 1) as nat,
                )
            } else {
                occurs && occurs_spec(v, t, theta, depth) && !reached(theta, t, v)
            }
        },
    }
}

/// No assignment makes two terms equal of which one is a constant or a
/// compound term and the other is another constant, or a compound term
/// with another functor or another number of arguments.
pub proof fn lemma_clash(sigma: SubstView, x: TermView, y: TermView)
    requires
        x != y,
        !(x is Var),
        !(y is Var),
        !(x is Str && y is Str && x->Str_0 == y->Str_0 && x->Str_1.len() == y->Str_1.len()),
    ensures
        !equal_under(sigma, x, y),
{
    if x is Str {
        lemma_rename_all(x->Str_1, sigma);
    }
    if y is Str {
        lemma_rename_all(y->Str_1, sigma);
    }
}

/// A failure is final where the depth did not run out: no solution of the
/// bindings makes the two terms equal.
pub proof fn lemma_unify_failure(
    x: TermView,
    y: TermView,
    b: Option<SubstView>,
    occurs: bool,
    depth: nat,
    sigma: SubstView,
)
    requires
        b matches Some(theta) && solves(sigma, theta),
        unify_spec(x, y, b, occurs, depth) is None,
        !unify_cut(x, y, b, occurs, depth),
    ensures
        !equal_under(sigma, x, y),
    decreases depth, 1int, x,
{
    if x is Var {
        lemma_unify_variable_failure(x->Var_0, y, b, occurs, depth, sigma);
    } else if y is Var {
        lemma_unify_variable_failure(y->Var_0, x, b, occurs, depth, sigma);
    } else if x is Str && y is Str && x->Str_0 == y->Str_0 && x->Str_1.len() == y->Str_1.len() {
        lemma_unify_args_failure(x->Str_1, y->Str_1, b, occurs, depth, sigma);
        lemma_equal_compounds(sigma, x->Str_0, x->Str_1, y->Str_1);
    } else {
        lemma_clash(sigma, x, y);
    }
}

/// The same for paired arguments.
pub proof fn lemma_unify_args_failure(
    xs: Seq<TermView>,
    ys: Seq<TermView>,
    b: Option<SubstView>,
    occurs: bool,
    depth: nat,
    sigma: SubstView,
)
    requires
        b matches Some(theta) && solves(sigma, theta),
        unify_args_spec(xs, ys, b, occurs, depth) is None,
        !unify_args_cut(xs, ys, b, occurs, depth),
    ensures
        !equal_pairs(sigma, xs, ys),
    decreases depth, 1int, xs,
{
    if xs.len() == 0 || ys.len() == 0 {
    } else {
        let next = unify_spec(xs[0], ys[0], b, occurs, depth);
        if next is None {
            lemma_unify_failure(xs[0], ys[0], b, occurs, depth, sigma);
        } else if equal_under(sigma, xs[0], ys[0]) {
            lemma_unify_general(xs[0], ys[0], b, occurs, depth, sigma);
            lemma_unify_args_failure(xs.drop_first(), ys.drop_first(), next, occurs, depth, sigma);
        }
    }
}

/// The same for a variable and a term that is not that variable.
pub proof fn lemma_unify_variable_failure(
    v: Seq<char>,
    t: TermView,
    b: Option<SubstView>,
    occurs: bool,
    depth: nat,
    sigma: SubstView,
)
    requires
        b matches Some(theta) && solves(sigma, theta),
        unify_variable_spec(v, t, b, occurs, depth) is None,
        !unify_variable_cut(v, t, b, occurs, depth),
        t != TermView::Var(v),
    ensures
        !equal_under(sigma, TermView::Var(v), t),
    decreases depth, 0int, t,
{
    let theta = b->0;
    if theta.contains_key(v) {
        lemma_unify_failure(theta[v], t, b, occurs, (depth - 1) as nat, sigma);
    } else if t is Var && theta.contains_key(t->Var_0) {
        lemma_unify_failure(TermView::Var(v), theta[t->Var_0], b, occurs, (depth - 1) as nat, sigma);
    } else {
        let steps = choose|steps: nat| reaches(theta, t, v, steps);
        lemma_reached_is_smaller(theta, sigma, t, v, steps);
    }
}

/// With the occurs check, a successful unification from the empty
/// substitution has a solution: the walks under its result make the two
/// terms equal.
pub proof fn lemma_unified_terms_walk_alike(x: TermView, y: TermView, depth: nat)
    requires
        unify_spec(x, y, Some(Map::empty()), true, depth) is Some,
    ensures
        solves(
            walk_map(unify_spec(x, y, Some(Map::empty()), true, depth)->0),
            unify_spec(x, y, Some(Map::empty()), true, depth)->0,
        ),
        equal_under(walk_map(unify_spec(x, y, Some(Map::empty()), true, depth)->0), x, y),
{
    let empty: Option<SubstView> = Some(Map::empty());
    let result = unify_spec(x, y, empty, true, depth)->0;
    lemma_empty_acyclic();
    lemma_unify_acyclic(x, y, empty, depth);
    lemma_unify_finite(x, y, empty, true, depth);
    lemma_walk_solves(result);
    lemma_unify_sound(x, y, empty, true, depth, walk_map(result));
}

/// Unification is symmetric. With the occurs check, from the empty
/// substitution and with a depth that does not run out in either order,
/// unifying `x` with `y` and unifying `y` with `x` either both fail, or
/// both succeed with results that have the same solutions.
pub proof fn lemma_unify_symmetry(x: TermView, y: TermView, depth: nat)
    requires
        !unify_cut(x, y, Some(Map::empty()), true, depth),
        !unify_cut(y, x, Some(Map::empty()), true, depth),
    ensures
        unify_spec(x, y, Some(Map::empty()), true, depth) is None <==> unify_spec(
            y,
            x,
            Some(Map::empty()),
            true,
            depth,
        ) is None,
        unify_spec(x, y, Some(Map::empty()), true, depth) is Some ==> forall|sigma: SubstView|
            solves(sigma, unify_spec(x, y, Some(Map::empty()), true, depth)->0) <==> solves(
                sigma,
                unify_spec(y, x, Some(Map::empty()), true, depth)->0,
            ),
{
    let empty: Option<SubstView> = Some(Map::empty());
    let forth = unify_spec(x, y, empty, true, depth);
    let back = unify_spec(y, x, empty, true, depth);
    if forth is Some && back is None {
        lemma_unified_terms_walk_alike(x, y, depth);
        lemma_unify_failure(y, x, empty, true, depth, walk_map(forth->0));
    }
    if back is Some && forth is None {
        lemma_unified_terms_walk_alike(y, x, depth);
        lemma_unify_failure(x, y, empty, true, depth, walk_map(back->0));
    }
    if forth is Some {
        assert forall|sigma: SubstView| solves(sigma, forth->0) <==> solves(sigma, back->0) by {
            lemma_unify_solutions(x, y, Map::empty(), true, depth, sigma);
            lemma_unify_solutions(y, x, Map::empty(), true, depth, sigma);
        }
    }
}

/// Unification is symmetric in what its results show. With the occurs
/// check and from the empty substitution, where unifying `x` with `y` and
/// unifying `y` with `x` both succeed, two terms have the same walk under
/// one result exactly where they have the same walk under the other. So
/// the two results put the same variables into one class.
pub proof fn lemma_unify_symmetry_of_walks(
    x: TermView,
    y: TermView,
    depth: nat,
    s: TermView,
    t: TermView,
)
    requires
        unify_spec(x, y, Some(Map::empty()), true, depth) is Some,
        unify_spec(y, x, Some(Map::empty()), true, depth) is Some,
    ensures
        walk_spec(unify_spec(x, y, Some(Map::empty()), true, depth)->0, s) == walk_spec(
            unify_spec(x, y, Some(Map::empty()), true, depth)->0,
            t,
        ) <==> walk_spec(unify_spec(y, x, Some(Map::empty()), true, depth)->0, s) == walk_spec(
            unify_spec(y, x, Some(Map::empty()), true, depth)->0,
            t,
        ),
{
    let empty: Option<SubstView> = Some(Map::empty());
    let forth = unify_spec(x, y, empty, true, depth)->0;
    let back = unify_spec(y, x, empty, true, depth)->0;
    lemma_empty_acyclic();
    lemma_unify_acyclic(x, y, empty, depth);
    lemma_unify_acyclic(y, x, empty, depth);
    lemma_unify_finite(x, y, empty, true, depth);
    lemma_unify_finite(y, x, empty, true, depth);
    lemma_equates_is_same_walk(forth, s, t);
    lemma_equates_is_same_walk(back, s, t);
    lemma_unify_symmetric_classes(x, y, true, depth, s, t);
}

} // verus!
