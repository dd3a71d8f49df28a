//! The occurs check keeps substitutions free of cycles.
//!
//! A variable is bound only where the occurs check has not met it in the
//! term it is bound to, looking through the bindings made before. So no
//! chain of bindings leads from a variable back to itself, and the walk of
//! a term never runs out of depth. Unification also binds finitely many
//! variables where it started from finitely many.

use crate::subst::SubstView;
use crate::term::TermView;
use crate::unify::{
    occurs_any_spec, occurs_spec, unify_args_spec, unify_spec, unify_variable_spec,
};
use crate::walk::{acyclic, has_var, lemma_walk_idempotent, ranked, walk_spec};
use vstd::prelude::*;

verus! {

/// The variable `v` is met from `t` by following at most `steps` bindings
/// of `theta`.
pub open spec fn reaches(theta: SubstView, t: TermView, v: Seq<char>, steps: nat) -> bool
    decreases steps, t,
{
    match t {
        TermView::Var(w) => w == v || (theta.contains_key(w) && steps > 0 && reaches(
            theta,
            theta[w],
            v,
            (steps - 1) as nat,
        )),
        TermView::Str(_, args) => exists|i: int|
            0 <= i < args.len() && reaches(theta, #[trigger] args[i], v, steps),
        _ => false,
    }
}

/// The occurs check over a list of terms finds what it finds in one of
/// them.
pub proof fn lemma_occurs_any(
    v: Seq<char>,
    ts: Seq<TermView>,
    theta: SubstView,
    depth: nat,
    i: int,
)
    requires
        0 <= i < ts.len(),
        occurs_spec(v, ts[i], theta, depth),
    ensures
        occurs_any_spec(v, ts, theta, depth),
    decreases ts.len(),
{
    if i > 0 {
        lemma_occurs_any(v, ts.drop_first(), theta, depth, i - 1);
    }
}

/// The occurs check finds every variable that can be reached, whatever
/// its depth.
pub proof fn lemma_reached_occurs(
    theta: SubstView,
    t: TermView,
    v: Seq<char>,
    steps: nat,
    depth: nat,
)
    requires
        reaches(theta, t, v, steps),
    ensures
        occurs_spec(v, t, theta, depth),
    decreases steps, t,
{
    match t {
        TermView::Var(w) => {
            if w != v && depth > 0 {
                lemma_reached_occurs(theta, theta[w], v, (steps - 1) as nat, (depth - 1) as nat);
            }
        },
        TermView::Str(_, args) => {
            let i = choose|i: int|
                0 <= i < args.len() && reaches(theta, #[trigger] args[i], v, steps);
            lemma_reached_occurs(theta, args[i], v, steps, depth);
            lemma_occurs_any(v, args, theta, depth, i);
        },
        _ => {},
    }
}

/// What is reached from a variable of a term is reached from the term.
pub proof fn lemma_reaches_through(
    theta: SubstView,
    t: TermView,
    w: Seq<char>,
    v: Seq<char>,
    steps: nat,
)
    requires
        has_var(t, w),
        reaches(theta, TermView::Var(w), v, steps),
    ensures
        reaches(theta, t, v, steps),
    decreases t,
{
    match t {
        TermView::Str(_, args) => {
            let i = choose|i: int| 0 <= i < args.len() && has_var(#[trigger] args[i], w);
            lemma_reaches_through(theta, args[i], w, v, steps);
        },
        _ => {},
    }
}

/// A number above the rank of every bound variable of `t`.
pub open spec fn rank_bound(theta: SubstView, rank: spec_fn(Seq<char>) -> nat, t: TermView) -> nat
    decreases t,
{
    match t {
        TermView::Var(w) => if theta.contains_key(w) {
            rank(w) + 1
        } else {
            0
        },
        TermView::Str(_, args) => rank_bound_all(theta, rank, args),
        _ => 0,
    }
}

/// A number above the rank of every bound variable of `ts`.
pub open spec fn rank_bound_all(
    theta: SubstView,
    rank: spec_fn(Seq<char>) -> nat,
    ts: Seq<TermView>,
) -> nat
    decreases ts,
{
    if ts.len() == 0 {
        0
    } else {
        let first = rank_bound(theta, rank, ts[0]);
        let others = rank_bound_all(theta, rank, ts.drop_first());
        if first >= others {
            first
        } else {
            others
        }
    }
}

/// `rank_bound_all` is above the bound of each of its terms.
pub proof fn lemma_rank_bound_all(
    theta: SubstView,
    rank: spec_fn(Seq<char>) -> nat,
    ts: Seq<TermView>,
    i: int,
)
    requires
        0 <= i < ts.len(),
    ensures
        rank_bound(theta, rank, ts[i]) <= rank_bound_all(theta, rank, ts),
    decreases ts.len(),
{
    if i > 0 {
        lemma_rank_bound_all(theta, rank, ts.drop_first(), i - 1);
    }
}

/// `rank_bound` is above the rank of every bound variable of the term.
pub proof fn lemma_rank_bound(
    theta: SubstView,
    rank: spec_fn(Seq<char>) -> nat,
    t: TermView,
    w: Seq<char>,
)
    requires
        has_var(t, w),
        theta.contains_key(w),
    ensures
        rank(w) < rank_bound(theta, rank, t),
    decreases t,
{
    match t {
        TermView::Str(_, args) => {
            let i = choose|i: int| 0 <= i < args.len() && has_var(#[trigger] args[i], w);
            lemma_rank_bound(theta, rank, args[i], w);
            lemma_rank_bound_all(theta, rank, args, i);
        },
        _ => {},
    }
}

/// The variable `v` is reached from the variable `u`.
pub open spec fn leads_to(theta: SubstView, u: Seq<char>, v: Seq<char>) -> bool {
    exists|steps: nat| reaches(theta, TermView::Var(u), v, steps)
}

/// Binding a variable to a term from which it is not reached keeps a
/// substitution free of cycles.
pub proof fn lemma_bind_acyclic(theta: SubstView, v: Seq<char>, t: TermView, depth: nat)
    requires
        acyclic(theta),
        !theta.contains_key(v),
        !occurs_spec(v, t, theta, depth),
    ensures
        acyclic(theta.insert(v, t)),
{
    let rank = choose|rank: spec_fn(Seq<char>) -> nat| ranked(theta, rank);
    let top = rank_bound(theta, rank, t);
    let lifted = |u: Seq<char>|
        if u == v {
            top
        } else if leads_to(theta, u, v) {
            (rank(u) + top + 1) as nat
        } else {
            rank(u)
        };
    let bound = theta.insert(v, t);
    assert forall|a: Seq<char>, w: Seq<char>|
        bound.contains_key(a) && bound.contains_key(w) && #[trigger] has_var(
            bound[a],
            w,
        ) implies lifted(w) < lifted(a) by {
        if a == v {
            if w == v {
                lemma_reaches_through(theta, t, v, v, 0);
                lemma_reached_occurs(theta, t, v, 0, depth);
            } else {
                if leads_to(theta, w, v) {
                    let steps = choose|steps: nat| reaches(theta, TermView::Var(w), v, steps);
                    lemma_reaches_through(theta, t, w, v, steps);
                    lemma_reached_occurs(theta, t, v, steps, depth);
                }
                lemma_rank_bound(theta, rank, t, w);
            }
        } else {
            if w == v {
                lemma_reaches_through(theta, theta[a], v, v, 0);
                assert(reaches(theta, TermView::Var(a), v, 1));
            } else {
                if leads_to(theta, w, v) {
                    let steps = choose|steps: nat| reaches(theta, TermView::Var(w), v, steps);
                    lemma_reaches_through(theta, theta[a], w, v, steps);
                    assert(reaches(theta, TermView::Var(a), v, steps + 1));
                }
            }
        }
    }
    assert(ranked(bound, lifted));
}

/// The bindings `b`, where they are not a failure, hold no cycle.
pub open spec fn acyclic_bindings(b: Option<SubstView>) -> bool {
    match b {
        None => true,
        Some(theta) => acyclic(theta),
    }
}

/// The empty substitution holds no cycle.
pub proof fn lemma_empty_acyclic()
    ensures
        acyclic(Map::<Seq<char>, TermView>::empty()),
{
    let rank = |u: Seq<char>| 0nat;
    assert(ranked(Map::<Seq<char>, TermView>::empty(), rank));
}

/// With the occurs check, unification keeps bindings free of cycles.
pub proof fn lemma_unify_acyclic(x: TermView, y: TermView, b: Option<SubstView>, depth: nat)
    requires
        acyclic_bindings(b),
    ensures
        acyclic_bindings(unify_spec(x, y, b, true, depth)),
    decreases depth, 1int, x,
{
    if b is None || x == y {
    } else if x is Var {
        lemma_unify_variable_acyclic(x->Var_0, y, b, depth);
    } else if y is Var {
        lemma_unify_variable_acyclic(y->Var_0, x, b, depth);
    } else if x is Str && y is Str {
        if x->Str_0 == y->Str_0 && x->Str_1.len() == y->Str_1.len() {
            lemma_unify_args_acyclic(x->Str_1, y->Str_1, b, depth);
        }
    }
}

/// The same for paired arguments.
pub proof fn lemma_unify_args_acyclic(
    xs: Seq<TermView>,
    ys: Seq<TermView>,
    b: Option<SubstView>,
    depth: nat,
)
    requires
        acyclic_bindings(b),
    ensures
        acyclic_bindings(unify_args_spec(xs, ys, b, true, depth)),
    decreases depth, 1int, xs,
{
    if xs.len() == 0 || ys.len() == 0 {
    } else {
        lemma_unify_acyclic(xs[0], ys[0], b, depth);
        lemma_unify_args_acyclic(
            xs.drop_first(),
            ys.drop_first(),
            unify_spec(xs[0], ys[0], b, true, depth),
            depth,
        );
    }
}

/// The same for a variable and a term.
pub proof fn lemma_unify_variable_acyclic(
    v: Seq<char>,
    t: TermView,
    b: Option<SubstView>,
    depth: nat,
)
    requires
        acyclic_bindings(b),
    ensures
        acyclic_bindings(unify_variable_spec(v, t, b, true, depth)),
    decreases depth, 0int, t,
{
    if let Some(theta) = b {
        if theta.contains_key(v) {
            if depth > 0 {
                lemma_unify_acyclic(theta[v], t, b, (depth - 1) as nat);
            }
        } else if t is Var && theta.contains_key(t->Var_0) {
            if depth > 0 {
                lemma_unify_acyclic(TermView::Var(v), theta[t->Var_0], b, (depth - 1) as nat);
            }
        } else if !occurs_spec(v, t, theta, depth) {
            lemma_bind_acyclic(theta, v, t, depth);
        }
    }
}

/// From the empty substitution, unification with the occurs check gives
/// bindings without a cycle.
pub proof fn lemma_occurs_check_gives_acyclic(x: TermView, y: TermView, depth: nat)
    ensures
        acyclic_bindings(unify_spec(x, y, Some(Map::empty()), true, depth)),
{
    lemma_empty_acyclic();
    lemma_unify_acyclic(x, y, Some(Map::empty()), depth);
}

/// The bindings `b`, where they are not a failure, bind finitely many
/// variables.
pub open spec fn finite_bindings(b: Option<SubstView>) -> bool {
    match b {
        None => true,
        Some(theta) => theta.dom().finite(),
    }
}

/// Unification binds finitely many variables where it started from
/// finitely many.
pub proof fn lemma_unify_finite(
    x: TermView,
    y: TermView,
    b: Option<SubstView>,
    occurs: bool,
    depth: nat,
)
    requires
        finite_bindings(b),
    ensures
        finite_bindings(unify_spec(x, y, b, occurs, depth)),
    decreases depth, 1int, x,
{
    if b is None || x == y {
    } else if x is Var {
        lemma_unify_variable_finite(x->Var_0, y, b, occurs, depth);
    } else if y is Var {
        lemma_unify_variable_finite(y->Var_0, x, b, occurs, depth);
    } else if x is Str && y is Str {
        if x->Str_0 == y->Str_0 && x->Str_1.len() == y->Str_1.len() {
            lemma_unify_args_finite(x->Str_1, y->Str_1, b, occurs, depth);
        }
    }
}

/// The same for paired arguments.
pub proof fn lemma_unify_args_finite(
    xs: Seq<TermView>,
    ys: Seq<TermView>,
    b: Option<SubstView>,
    occurs: bool,
    depth: nat,
)
    requires
        finite_bindings(b),
    ensures
        finite_bindings(unify_args_spec(xs, ys, b, occurs, depth)),
    decreases depth, 1int, xs,
{
    if xs.len() == 0 || ys.len() == 0 {
    } else {
        lemma_unify_finite(xs[0], ys[0], b, occurs, depth);
        lemma_unify_args_finite(
            xs.drop_first(),
            ys.drop_first(),
            unify_spec(xs[0], ys[0], b, occurs, depth),
            occurs,
            depth,
        );
    }
}

/// The same for a variable and a term.
pub proof fn lemma_unify_variable_finite(
    v: Seq<char>,
    t: TermView,
    b: Option<SubstView>,
    occurs: bool,
    depth: nat,
)
    requires
        finite_bindings(b),
    ensures
        finite_bindings(unify_variable_spec(v, t, b, occurs, depth)),
    decreases depth, 0int, t,
{
    if let Some(theta) = b {
        if theta.contains_key(v) {
            if depth > 0 {
                lemma_unify_finite(theta[v], t, b, occurs, (depth - 1) as nat);
            }
        } else if t is Var && theta.contains_key(t->Var_0) {
            if depth > 0 {
                lemma_unify_finite(TermView::Var(v), theta[t->Var_0], b, occurs, (depth - 1) as nat);
            }
        }
    }
}

/// After a unification with the occurs check from the empty substitution,
/// walking is idempotent: what a walk under the result gives is not changed
/// by a second walk.
pub proof fn lemma_walk_idempotent_after_unify(x: TermView, y: TermView, depth: nat, t: TermView)
    requires
        unify_spec(x, y, Some(Map::empty()), true, depth) is Some,
    ensures
        walk_spec(
            unify_spec(x, y, Some(Map::empty()), true, depth)->0,
            walk_spec(unify_spec(x, y, Some(Map::empty()), true, depth)->0, t),
        ) == walk_spec(unify_spec(x, y, Some(Map::empty()), true, depth)->0, t),
{
    lemma_occurs_check_gives_acyclic(x, y, depth);
    lemma_unify_finite(x, y, Some(Map::empty()), true, depth);
    lemma_walk_idempotent(unify_spec(x, y, Some(Map::empty()), true, depth)->0, t);
}

} // verus!
