//! What the bindings of a unification mean.
//!
//! The bindings that unification builds are a system of equations, one for
//! each bound variable: the variable equals the term it is bound to. A
//! solution of such a system is an assignment of terms to variables that
//! makes both sides of every equation the same term. Unification is right
//! where the solutions of its result are exactly those solutions of the
//! bindings it started from that also make its two terms equal. This holds
//! with the occurs check and without it; without it the result may be a
//! system that has no solution.

use crate::rename::{lemma_rename_all, rename_all_spec, rename_term_spec};
use crate::subst::SubstView;
use crate::term::TermView;
use crate::unify::{
    lemma_unify_args_extends, lemma_unify_extends, lemma_unify_variable_extends, unify_args_spec,
    unify_spec, unify_variable_spec,
};
use crate::walk::{
    acyclic, below, has_var, lemma_walk_all, ranked, ranks_below, walk_all, walk_bounded, walk_spec,
};
use vstd::prelude::*;

verus! {

/// The term `t` under the assignment `sigma`: every variable that `sigma`
/// assigns a term to is replaced by that term, all at once.
pub open spec fn apply(sigma: SubstView, t: TermView) -> TermView {
    rename_term_spec(t, sigma)
}

/// `sigma` makes `s` and `t` the same term.
pub open spec fn equal_under(sigma: SubstView, s: TermView, t: TermView) -> bool {
    apply(sigma, s) == apply(sigma, t)
}

/// `sigma` is a solution of the bindings `theta`: it makes every bound
/// variable the same term as what the variable is bound to.
pub open spec fn solves(sigma: SubstView, theta: SubstView) -> bool {
    forall|v: Seq<char>| #[trigger]
        theta.contains_key(v) ==> equal_under(sigma, TermView::Var(v), theta[v])
}

/// `sigma` makes the terms of `xs` and of `ys` equal pair by pair.
pub open spec fn equal_pairs(sigma: SubstView, xs: Seq<TermView>, ys: Seq<TermView>) -> bool {
    forall|i: int| 0 <= i < xs.len() && i < ys.len() ==> equal_under(sigma, #[trigger] xs[i], ys[i])
}

/// A solution of bindings is a solution of any part of them.
pub proof fn lemma_solves_part(sigma: SubstView, part: SubstView, whole: SubstView)
    requires
        part.submap_of(whole),
        solves(sigma, whole),
    ensures
        solves(sigma, part),
{
    assert forall|v: Seq<char>| #[trigger] part.contains_key(v) implies equal_under(
        sigma,
        TermView::Var(v),
        part[v],
    ) by {
        assert(whole.contains_key(v));
    }
}

/// Two compound terms with one functor and as many arguments are equal
/// under `sigma` exactly where their arguments are, pair by pair.
pub proof fn lemma_equal_compounds(
    sigma: SubstView,
    f: Seq<char>,
    xs: Seq<TermView>,
    ys: Seq<TermView>,
)
    requires
        xs.len() == ys.len(),
    ensures
        equal_under(sigma, TermView::Str(f, xs), TermView::Str(f, ys)) <==> equal_pairs(
            sigma,
            xs,
            ys,
        ),
{
    lemma_rename_all(xs, sigma);
    lemma_rename_all(ys, sigma);
    if equal_pairs(sigma, xs, ys) {
        assert forall|i: int| 0 <= i < xs.len() implies rename_all_spec(xs, sigma)[i]
            == rename_all_spec(ys, sigma)[i] by {}
        assert(rename_all_spec(xs, sigma) =~= rename_all_spec(ys, sigma));
    }
    if equal_under(sigma, TermView::Str(f, xs), TermView::Str(f, ys)) {
        assert forall|i: int| 0 <= i < xs.len() && i < ys.len() implies equal_under(
            sigma,
            #[trigger] xs[i],
            ys[i],
        ) by {
            assert(rename_all_spec(ys, sigma)[i] == rename_term_spec(ys[i], sigma));
        }
    }
}

/// Unification is sound: every solution of the bindings that it gives
/// makes its two terms equal.
pub proof fn lemma_unify_sound(
    x: TermView,
    y: TermView,
    b: Option<SubstView>,
    occurs: bool,
    depth: nat,
    sigma: SubstView,
)
    requires
        unify_spec(x, y, b, occurs, depth) matches Some(result) && solves(sigma, result),
    ensures
        equal_under(sigma, x, y),
    decreases depth, 1int, x,
{
    if x == y {
    } else if x is Var {
        lemma_unify_variable_sound(x->Var_0, y, b, occurs, depth, sigma);
    } else if y is Var {
        lemma_unify_variable_sound(y->Var_0, x, b, occurs, depth, sigma);
    } else {
        lemma_unify_args_sound(x->Str_1, y->Str_1, b, occurs, depth, sigma);
        lemma_equal_compounds(sigma, x->Str_0, x->Str_1, y->Str_1);
    }
}

/// The same for paired arguments.
pub proof fn lemma_unify_args_sound(
    xs: Seq<TermView>,
    ys: Seq<TermView>,
    b: Option<SubstView>,
    occurs: bool,
    depth: nat,
    sigma: SubstView,
)
    requires
        unify_args_spec(xs, ys, b, occurs, depth) matches Some(result) && solves(sigma, result),
    ensures
        equal_pairs(sigma, xs, ys),
    decreases depth, 1int, xs,
{
    if xs.len() == 0 || ys.len() == 0 {
    } else {
        let next = unify_spec(xs[0], ys[0], b, occurs, depth);
        let result = unify_args_spec(xs, ys, b, occurs, depth)->0;
        lemma_unify_args_extends(xs.drop_first(), ys.drop_first(), next, occurs, depth);
        lemma_solves_part(sigma, next->0, result);
        lemma_unify_sound(xs[0], ys[0], b, occurs, depth, sigma);
        lemma_unify_args_sound(xs.drop_first(), ys.drop_first(), next, occurs, depth, sigma);
        assert forall|i: int| 0 <= i < xs.len() && i < ys.len() implies equal_under(
            sigma,
            #[trigger] xs[i],
            ys[i],
        ) by {
            if i > 0 {
                assert(xs.drop_first()[i - 1] == xs[i]);
            }
        }
    }
}

/// The same for a variable and a term.
pub proof fn lemma_unify_variable_sound(
    v: Seq<char>,
    t: TermView,
    b: Option<SubstView>,
    occurs: bool,
    depth: nat,
    sigma: SubstView,
)
    requires
        unify_variable_spec(v, t, b, occurs, depth) matches Some(result) && solves(sigma, result),
    ensures
        equal_under(sigma, TermView::Var(v), t),
    decreases depth, 0int, t,
{
    let theta = b->0;
    let result = unify_variable_spec(v, t, b, occurs, depth)->0;
    lemma_unify_variable_extends(v, t, b, occurs, depth);
    lemma_solves_part(sigma, theta, result);
    if theta.contains_key(v) {
        lemma_unify_sound(theta[v], t, b, occurs, (depth - 1) as nat, sigma);
    } else if t is Var && theta.contains_key(t->Var_0) {
        lemma_unify_sound(TermView::Var(v), theta[t->Var_0], b, occurs, (depth - 1) as nat, sigma);
    } else {
        assert(result.contains_key(v));
    }
}

/// Unification gives the most general result: every solution of the
/// bindings it was given that makes its two terms equal is a solution of
/// the bindings that it gives.
pub proof fn lemma_unify_general(
    x: TermView,
    y: TermView,
    b: Option<SubstView>,
    occurs: bool,
    depth: nat,
    sigma: SubstView,
)
    requires
        b matches Some(theta) && solves(sigma, theta),
        equal_under(sigma, x, y),
        unify_spec(x, y, b, occurs, depth) is Some,
    ensures
        solves(sigma, unify_spec(x, y, b, occurs, depth)->0),
    decreases depth, 1int, x,
{
    if x == y {
    } else if x is Var {
        lemma_unify_variable_general(x->Var_0, y, b, occurs, depth, sigma);
    } else if y is Var {
        lemma_unify_variable_general(y->Var_0, x, b, occurs, depth, sigma);
    } else {
        lemma_equal_compounds(sigma, x->Str_0, x->Str_1, y->Str_1);
        lemma_unify_args_general(x->Str_1, y->Str_1, b, occurs, depth, sigma);
    }
}

/// The same for paired arguments.
pub proof fn lemma_unify_args_general(
    xs: Seq<TermView>,
    ys: Seq<TermView>,
    b: Option<SubstView>,
    occurs: bool,
    depth: nat,
    sigma: SubstView,
)
    requires
        b matches Some(theta) && solves(sigma, theta),
        equal_pairs(sigma, xs, ys),
        unify_args_spec(xs, ys, b, occurs, depth) is Some,
    ensures
        solves(sigma, unify_args_spec(xs, ys, b, occurs, depth)->0),
    decreases depth, 1int, xs,
{
    if xs.len() == 0 || ys.len() == 0 {
    } else {
        let next = unify_spec(xs[0], ys[0], b, occurs, depth);
        lemma_unify_args_extends(xs.drop_first(), ys.drop_first(), next, occurs, depth);
        lemma_unify_general(xs[0], ys[0], b, occurs, depth, sigma);
        assert forall|i: int|
            0 <= i < xs.drop_first().len() && i < ys.drop_first().len() implies equal_under(
            sigma,
            #[trigger] xs.drop_first()[i],
            ys.drop_first()[i],
        ) by {}
        lemma_unify_args_general(xs.drop_first(), ys.drop_first(), next, occurs, depth, sigma);
    }
}

/// The same for a variable and a term.
pub proof fn lemma_unify_variable_general(
    v: Seq<char>,
    t: TermView,
    b: Option<SubstView>,
    occurs: bool,
    depth: nat,
    sigma: SubstView,
)
    requires
        b matches Some(theta) && solves(sigma, theta),
        equal_under(sigma, TermView::Var(v), t),
        unify_variable_spec(v, t, b, occurs, depth) is Some,
    ensures
        solves(sigma, unify_variable_spec(v, t, b, occurs, depth)->0),
    decreases depth, 0int, t,
{
    let theta = b->0;
    if theta.contains_key(v) {
        lemma_unify_general(theta[v], t, b, occurs, (depth - 1) as nat, sigma);
    } else if t is Var && theta.contains_key(t->Var_0) {
        lemma_unify_general(TermView::Var(v), theta[t->Var_0], b, occurs, (depth - 1) as nat, sigma);
    } else {
        let result = theta.insert(v, t);
        assert forall|w: Seq<char>| #[trigger] result.contains_key(w) implies equal_under(
            sigma,
            TermView::Var(w),
            result[w],
        ) by {}
    }
}

/// Unification is right: where it succeeds, the solutions of its result
/// are exactly the solutions of the bindings it was given that make its
/// two terms equal.
pub proof fn lemma_unify_solutions(
    x: TermView,
    y: TermView,
    theta: SubstView,
    occurs: bool,
    depth: nat,
    sigma: SubstView,
)
    requires
        unify_spec(x, y, Some(theta), occurs, depth) is Some,
    ensures
        solves(sigma, unify_spec(x, y, Some(theta), occurs, depth)->0) <==> solves(sigma, theta)
            && equal_under(sigma, x, y),
{
    let result = unify_spec(x, y, Some(theta), occurs, depth)->0;
    if solves(sigma, result) {
        lemma_unify_sound(x, y, Some(theta), occurs, depth, sigma);
        lemma_unify_extends(x, y, Some(theta), occurs, depth);
        lemma_solves_part(sigma, theta, result);
    }
    if solves(sigma, theta) && equal_under(sigma, x, y) {
        lemma_unify_general(x, y, Some(theta), occurs, depth, sigma);
    }
}

/// Unification is symmetric in what its result means: where unifying `x`
/// with `y` and unifying `y` with `x` both succeed from the empty
/// substitution, the two results have the same solutions, so that they
/// make the same terms equal. The two results need not bind the same
/// variables.
pub proof fn lemma_unify_symmetric(
    x: TermView,
    y: TermView,
    occurs: bool,
    depth: nat,
    sigma: SubstView,
)
    requires
        unify_spec(x, y, Some(Map::empty()), occurs, depth) is Some,
        unify_spec(y, x, Some(Map::empty()), occurs, depth) is Some,
    ensures
        solves(sigma, unify_spec(x, y, Some(Map::empty()), occurs, depth)->0) <==> solves(
            sigma,
            unify_spec(y, x, Some(Map::empty()), occurs, depth)->0,
        ),
{
    lemma_unify_solutions(x, y, Map::empty(), occurs, depth, sigma);
    lemma_unify_solutions(y, x, Map::empty(), occurs, depth, sigma);
}

/// The bindings `theta` make `s` and `t` equal: every solution of them
/// does.
pub open spec fn equates(theta: SubstView, s: TermView, t: TermView) -> bool {
    forall|sigma: SubstView| solves(sigma, theta) ==> equal_under(sigma, s, t)
}

/// Where unifying `x` with `y` and unifying `y` with `x` both succeed from
/// the empty substitution, the two results make the same variables equal,
/// and the same terms.
pub proof fn lemma_unify_symmetric_classes(
    x: TermView,
    y: TermView,
    occurs: bool,
    depth: nat,
    s: TermView,
    t: TermView,
)
    requires
        unify_spec(x, y, Some(Map::empty()), occurs, depth) is Some,
        unify_spec(y, x, Some(Map::empty()), occurs, depth) is Some,
    ensures
        equates(unify_spec(x, y, Some(Map::empty()), occurs, depth)->0, s, t) <==> equates(
            unify_spec(y, x, Some(Map::empty()), occurs, depth)->0,
            s,
            t,
        ),
{
    assert forall|sigma: SubstView|
        solves(sigma, unify_spec(x, y, Some(Map::empty()), occurs, depth)->0) <==> solves(
            sigma,
            unify_spec(y, x, Some(Map::empty()), occurs, depth)->0,
        ) by {
        lemma_unify_symmetric(x, y, occurs, depth, sigma);
    }
}

/// Under a ranked substitution a walk does not depend on its depth, once
/// the depth is enough for the variables that can still be met.
pub proof fn lemma_walk_any_depth(
    theta: SubstView,
    rank: spec_fn(Seq<char>) -> nat,
    t: TermView,
    limit: Option<nat>,
    depth: nat,
    other: nat,
)
    requires
        theta.dom().finite(),
        ranked(theta, rank),
        ranks_below(theta, rank, t, limit),
        depth >= below(theta, rank, limit).len(),
        other >= below(theta, rank, limit).len(),
    ensures
        walk_bounded(theta, t, depth) == walk_bounded(theta, t, other),
    decreases depth, t,
{
    match t {
        TermView::Var(v) => {
            if theta.contains_key(v) {
                assert(has_var(t, v));
                let here = below(theta, rank, limit);
                let next = below(theta, rank, Some(rank(v)));
                vstd::set_lib::lemma_len_subset(next, here.remove(v));
                lemma_walk_any_depth(
                    theta,
                    rank,
                    theta[v],
                    Some(rank(v)),
                    (depth - 1) as nat,
                    (other - 1) as nat,
                );
            }
        },
        TermView::Str(f, args) => {
            lemma_walk_all(theta, args, depth);
            lemma_walk_all(theta, args, other);
            assert forall|i: int| 0 <= i < args.len() implies walk_bounded(theta, args[i], depth)
                == walk_bounded(theta, args[i], other) by {
                assert(ranks_below(theta, rank, args[i], limit)) by {
                    assert forall|u: Seq<char>|
                        has_var(args[i], u) && theta.contains_key(u) implies (limit is None
                        || rank(u) < limit->0) by {
                        assert(has_var(t, u));
                    }
                }
                lemma_walk_any_depth(theta, rank, args[i], limit, depth, other);
            }
            assert(walk_all(theta, args, depth) =~= walk_all(theta, args, other));
        },
        _ => {},
    }
}

/// The assignment that gives each bound variable of `theta` its walk.
pub open spec fn walk_map(theta: SubstView) -> SubstView {
    Map::new(
        |v: Seq<char>| theta.contains_key(v),
        |v: Seq<char>| walk_spec(theta, TermView::Var(v)),
    )
}

/// Walking a term is applying the assignment of the walks.
pub proof fn lemma_walk_is_apply(theta: SubstView, t: TermView)
    ensures
        apply(walk_map(theta), t) == walk_spec(theta, t),
    decreases t,
{
    match t {
        TermView::Str(f, args) => {
            let depth = theta.dom().len();
            lemma_walk_all(theta, args, depth);
            lemma_rename_all(args, walk_map(theta));
            assert forall|i: int| 0 <= i < args.len() implies rename_all_spec(
                args,
                walk_map(theta),
            )[i] == walk_all(theta, args, depth)[i] by {
                lemma_walk_is_apply(theta, args[i]);
            }
            assert(rename_all_spec(args, walk_map(theta)) =~= walk_all(theta, args, depth));
        },
        _ => {},
    }
}

/// A substitution without a cycle has a solution: the assignment that
/// gives each bound variable its walk. So what a walk shows of a term is
/// the term under a solution.
pub proof fn lemma_walk_solves(theta: SubstView)
    requires
        theta.dom().finite(),
        acyclic(theta),
    ensures
        solves(walk_map(theta), theta),
{
    let rank = choose|rank: spec_fn(Seq<char>) -> nat| ranked(theta, rank);
    let depth = theta.dom().len();
    assert forall|v: Seq<char>| #[trigger] theta.contains_key(v) implies equal_under(
        walk_map(theta),
        TermView::Var(v),
        theta[v],
    ) by {
        lemma_walk_is_apply(theta, theta[v]);
        let all = below(theta, rank, None);
        let next = below(theta, rank, Some(rank(v)));
        assert(all =~= theta.dom());
        vstd::set_lib::lemma_len_subset(next, all.remove(v));
        lemma_walk_any_depth(theta, rank, theta[v], Some(rank(v)), (depth - 1) as nat, depth);
    }
}

/// Under a solution of the bindings, a term and its walk are the same
/// term.
pub proof fn lemma_walk_keeps_solutions(
    theta: SubstView,
    sigma: SubstView,
    t: TermView,
    depth: nat,
)
    requires
        solves(sigma, theta),
    ensures
        equal_under(sigma, walk_bounded(theta, t, depth), t),
    decreases depth, t,
{
    match t {
        TermView::Var(v) => {
            if theta.contains_key(v) && depth > 0 {
                lemma_walk_keeps_solutions(theta, sigma, theta[v], (depth - 1) as nat);
                assert(equal_under(sigma, TermView::Var(v), theta[v]));
            }
        },
        TermView::Str(f, args) => {
            let walked = walk_all(theta, args, depth);
            lemma_walk_all(theta, args, depth);
            assert forall|i: int| 0 <= i < walked.len() && i < args.len() implies equal_under(
                sigma,
                #[trigger] walked[i],
                args[i],
            ) by {
                lemma_walk_keeps_solutions(theta, sigma, args[i], depth);
            }
            lemma_equal_compounds(sigma, f, walked, args);
        },
        _ => {},
    }
}

/// Under bindings without a cycle, two terms are made equal exactly where
/// their walks are the same term.
pub proof fn lemma_equates_is_same_walk(theta: SubstView, s: TermView, t: TermView)
    requires
        theta.dom().finite(),
        acyclic(theta),
    ensures
        equates(theta, s, t) <==> walk_spec(theta, s) == walk_spec(theta, t),
{
    let depth = theta.dom().len();
    if walk_spec(theta, s) == walk_spec(theta, t) {
        assert forall|sigma: SubstView| solves(sigma, theta) implies equal_under(sigma, s, t) by {
            lemma_walk_keeps_solutions(theta, sigma, s, depth);
            lemma_walk_keeps_solutions(theta, sigma, t, depth);
        }
    }
    if equates(theta, s, t) {
        lemma_walk_solves(theta);
        lemma_walk_is_apply(theta, s);
        lemma_walk_is_apply(theta, t);
    }
}

} // verus!
