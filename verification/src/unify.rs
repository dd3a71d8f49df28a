//! Syntactic unification with an optional occurs check.
//!
//! Bindings are never composed eagerly: a bound variable is resolved by
//! looking it up again. Every such lookup along one path of the recursion
//! counts against a depth, and unification fails when the depth runs out.
//! This makes the unifier total on bindings that hold a cycle, which can
//! arise when the occurs check is off and on which the lookups may go
//! round for ever. `unify` takes as depth three times the number of
//! variables that it can meet. Where the bindings hold no cycle, no
//! binding is followed twice on one side, and the occurs check follows
//! each binding once at most, so that this depth never runs out; it can
//! run out only on a cycle. `unify_bounded` takes the depth from its
//! caller.

use crate::depth::{bindings_within, lemma_depth_suffices, within};
use crate::failure::{lemma_unify_failure, no_unifier};
use crate::rename::{bindings_vars, count_variables, unify_vars};
use crate::solution::{equal_under, lemma_unify_solutions, solves};
use crate::subst::{Bindings, SubstView, Substitution};
use crate::term::{lemma_view_args, Term, TermView};
use crate::walk::{acyclic, has_var};
use vstd::prelude::*;

verus! {

/// The mathematical value of a unification result.
pub open spec fn bindings_view(b: Bindings) -> Option<SubstView> {
    match b {
        Some(s) => Some(s@),
        None => None,
    }
}

/// Whether variable `v` occurs in `t`, looking through the bindings of
/// `theta`. Out of depth counts as an occurrence.
pub open spec fn occurs_spec(v: Seq<char>, t: TermView, theta: SubstView, depth: nat) -> bool
    decreases depth, t,
{
    match t {
        TermView::Var(w) => {
            if w == v {
                true
            } else if theta.contains_key(w) {
                if depth == 0 {
                    true
                } else {
                    occurs_spec(v, theta[w], theta, (depth - 1) as nat)
                }
            } else {
                false
            }
        },
        TermView::Str(_, args) => occurs_any_spec(v, args, theta, depth),
        _ => false,
    }
}

/// Whether variable `v` occurs in one of `ts`.
pub open spec fn occurs_any_spec(
    v: Seq<char>,
    ts: Seq<TermView>,
    theta: SubstView,
    depth: nat,
) -> bool
    decreases depth, ts,
{
    if ts.len() == 0 {
        false
    } else {
        occurs_spec(v, ts[0], theta, depth) || occurs_any_spec(v, ts.drop_first(), theta, depth)
    }
}

/// The guard before a variable is bound: with the check switched on, a
/// variable that occurs in the term it would be bound to makes the
/// unification fail; otherwise the bindings pass through.
pub open spec fn occurs_check_spec(
    v: Seq<char>,
    t: TermView,
    b: Option<SubstView>,
    flag: bool,
    depth: nat,
) -> Option<SubstView> {
    if !flag {
        b
    } else {
        match b {
            None => None,
            Some(theta) => if occurs_spec(v, t, theta, depth) {
                None
            } else {
                b
            },
        }
    }
}

/// Unification of `x` and `y` under the bindings `b`.
pub open spec fn unify_spec(
    x: TermView,
    y: TermView,
    b: Option<SubstView>,
    occurs: bool,
    depth: nat,
) -> Option<SubstView>
    decreases depth, 1int, x,
{
    if b is None {
        None
    } else if x == y {
        b
    } else if x is Var {
        unify_variable_spec(x->Var_0, y, b, occurs, depth)
    } else if y is Var {
        unify_variable_spec(y->Var_0, x, b, occurs, depth)
    } else if x is Str && y is Str {
        if x->Str_0 == y->Str_0 && x->Str_1.len() == y->Str_1.len() {
            unify_args_spec(x->Str_1, y->Str_1, b, occurs, depth)
        } else {
            None
        }
    } else {
        None
    }
}

/// Unification of the paired arguments, left to right, threading the
/// bindings.
pub open spec fn unify_args_spec(
    xs: Seq<TermView>,
    ys: Seq<TermView>,
    b: Option<SubstView>,
    occurs: bool,
    depth: nat,
) -> Option<SubstView>
    decreases depth, 1int, xs,
{
    if xs.len() == 0 || ys.len() == 0 {
        b
    } else {
        unify_args_spec(
            xs.drop_first(),
            ys.drop_first(),
            unify_spec(xs[0], ys[0], b, occurs, depth),
            occurs,
            depth,
        )
    }
}

/// Unification of the variable `v` with the term `t`.
pub open spec fn unify_variable_spec(
    v: Seq<char>,
    t: TermView,
    b: Option<SubstView>,
    occurs: bool,
    depth: nat,
) -> Option<SubstView>
    decreases depth, 0int, t,
{
    match b {
        None => None,
        Some(theta) => {
            if theta.contains_key(v) {
                if depth == 0 {
                    None
                } else {
                    unify_spec(theta[v], t, b, occurs, (depth - 1) as nat)
                }
            } else if t is Var && theta.contains_key(t->Var_0) {
                if depth == 0 {
                    None
                } else {
                    unify_spec(TermView::Var(v), theta[t->Var_0], b, occurs, (depth - 1) as nat)
                }
            } else {
                match occurs_check_spec(v, t, b, occurs, depth) {
                    None => None,
                    Some(checked) => Some(checked.insert(v, t)),
                }
            }
        },
    }
}

/// Whether the variable `var` occurs in `y`, looking through `bindings`.
pub fn occurs(var: &String, y: &Term, bindings: &Substitution, depth: usize) -> (found: bool)
    ensures
        found == occurs_spec(var@, y@, bindings@, depth as nat),
    decreases depth, y,
{
    match y {
        Term::Var(y_var) => {
            if *y_var == *var {
                true
            } else {
                match bindings.get(y_var) {
                    Some(y_val) => {
                        if depth == 0 {
                            true
                        } else {
                            occurs(var, y_val, bindings, depth - 1)
                        }
                    },
                    None => false,
                }
            }
        },
        Term::Str(_, args) => {
            proof {
                lemma_view_args(y);
            }
            let ghost all = y@->Str_1;
            assert(all.skip(0) =~= all);
            let mut i: usize = 0;
            while i < args.len()
                invariant
                    i <= args.len(),
                    y is Str,
                    y->Str_1 == *args,
                    all == y@->Str_1,
                    all.len() == args@.len(),
                    forall|j: int| 0 <= j < args@.len() ==> #[trigger] all[j] == args@[j]@,
                    occurs_any_spec(var@, all, bindings@, depth as nat) == occurs_any_spec(
                        var@,
                        all.skip(i as int),
                        bindings@,
                        depth as nat,
                    ),
                decreases args.len() - i,
            {
                proof {
                    assert(all.skip(i as int).drop_first() =~= all.skip(i as int + 1));
                }
                if occurs(var, &args[i], bindings, depth) {
                    return true;
                }
                i += 1;
            }
            false
        },
        Term::Atom(_) | Term::Number(_) => false,
    }
}

/// The occurs check before `var` is bound to `y`: hands the bindings back
/// unless the check is switched on and `var` occurs in `y`.
pub fn occurs_check(
    var: &String,
    y: &Term,
    bindings: Bindings,
    occurs_check_flag: bool,
    depth: usize,
) -> (r: Bindings)
    ensures
        bindings_view(r) == occurs_check_spec(
            var@,
            y@,
            bindings_view(bindings),
            occurs_check_flag,
            depth as nat,
        ),
{
    if !occurs_check_flag {
        bindings
    } else {
        match bindings {
            None => None,
            Some(theta) => {
                if occurs(var, y, &theta, depth) {
                    None
                } else {
                    Some(theta)
                }
            },
        }
    }
}

/// Unifies the variable `var` with `y`: through the binding of `var` if it
/// has one, else through that of `y` if `y` is a bound variable, else by
/// binding `var` to `y`.
pub fn unify_variable(
    var: &String,
    y: &Term,
    bindings: Bindings,
    occurs_check_flag: bool,
    depth: usize,
) -> (r: Bindings)
    ensures
        bindings_view(r) == unify_variable_spec(
            var@,
            y@,
            bindings_view(bindings),
            occurs_check_flag,
            depth as nat,
        ),
    decreases depth, 0int, y,
{
    let theta = match bindings {
        None => {
            return None;
        },
        Some(theta) => theta,
    };
    let bound = match theta.get(var) {
        Some(value) => Some(value.clone()),
        None => None,
    };
    match bound {
        Some(value) => {
            if depth == 0 {
                None
            } else {
                unify_bounded(&value, y, Some(theta), occurs_check_flag, depth - 1)
            }
        },
        None => {
            let other = match y {
                Term::Var(y_var) => match theta.get(y_var) {
                    Some(y_val) => Some(y_val.clone()),
                    None => None,
                },
                _ => None,
            };
            match other {
                Some(y_val) => {
                    if depth == 0 {
                        None
                    } else {
                        let x = Term::Var(var.clone());
                        unify_bounded(&x, &y_val, Some(theta), occurs_check_flag, depth - 1)
                    }
                },
                None => {
                    match occurs_check(var, y, Some(theta), occurs_check_flag, depth) {
                        Some(mut checked) => {
                            checked.insert(var.clone(), y.clone());
                            Some(checked)
                        },
                        None => None,
                    }
                },
            }
        },
    }
}

/// Unifies `x` and `y` under `bindings`, following at most `depth` bindings
/// along any one path.
pub fn unify_bounded(
    x: &Term,
    y: &Term,
    bindings: Bindings,
    occurs_check: bool,
    depth: usize,
) -> (r: Bindings)
    ensures
        bindings_view(r) == unify_spec(x@, y@, bindings_view(bindings), occurs_check, depth as nat),
    decreases depth, 1int, x,
{
    if bindings.is_none() {
        return None;
    }
    if x.same(y) {
        return bindings;
    }
    if let Term::Var(var) = x {
        return unify_variable(var, y, bindings, occurs_check, depth);
    }
    match y {
        Term::Var(var) => {
            return unify_variable(var, x, bindings, occurs_check, depth);
        },
        Term::Atom(_) | Term::Number(_) => {
            return None;
        },
        Term::Str(f_y, args_y) => {
            match x {
                Term::Str(f_x, args_x) => {
                    proof {
                        lemma_view_args(x);
                        lemma_view_args(y);
                    }
                    if !(*f_x == *f_y) || args_x.len() != args_y.len() {
                        return None;
                    }
                    let ghost xs = x@->Str_1;
                    let ghost ys = y@->Str_1;
                    let ghost start = bindings_view(bindings);
                    assert(xs.skip(0) =~= xs && ys.skip(0) =~= ys);
                    let mut current = bindings;
                    let mut i: usize = 0;
                    while i < args_x.len()
                        invariant
                            i <= args_x.len(),
                            args_x.len() == args_y.len(),
                            x is Str,
                            x->Str_1 == *args_x,
                            xs.len() == args_x@.len(),
                            ys.len() == args_y@.len(),
                            forall|j: int| 0 <= j < args_x@.len() ==> #[trigger] xs[j] == args_x@[j]@,
                            forall|j: int| 0 <= j < args_y@.len() ==> #[trigger] ys[j] == args_y@[j]@,
                            unify_args_spec(xs, ys, start, occurs_check, depth as nat)
                                == unify_args_spec(
                                xs.skip(i as int),
                                ys.skip(i as int),
                                bindings_view(current),
                                occurs_check,
                                depth as nat,
                            ),
                        decreases args_x.len() - i,
                    {
                        proof {
                            assert(xs.skip(i as int).drop_first() =~= xs.skip(i as int + 1));
                            assert(ys.skip(i as int).drop_first() =~= ys.skip(i as int + 1));
                        }
                        current = unify_bounded(&args_x[i], &args_y[i], current, occurs_check, depth);
                        i += 1;
                    }
                    current
                },
                _ => None,
            }
        },
    }
}

/// The depth for a unification that can meet `count` variables: three
/// times their number, or the largest depth there is where that is less.
pub open spec fn depth_for(count: nat) -> nat {
    if 3 * count <= usize::MAX {
        3 * count
    } else {
        usize::MAX as nat
    }
}

/// The depth with which `unify` unifies `x` and `y` under `b`.
pub open spec fn unify_depth_spec(x: TermView, y: TermView, b: Option<SubstView>) -> nat {
    match b {
        None => 0,
        Some(theta) => depth_for(unify_vars(x, y, theta).len()),
    }
}

/// The depth with which `unify` unifies `x` and `y` under `bindings`.
pub fn unify_depth(x: &Term, y: &Term, bindings: &Bindings) -> (depth: usize)
    ensures
        depth == unify_depth_spec(x@, y@, bindings_view(*bindings)),
        bindings matches Some(given) ==> unify_vars(x@, y@, given@).finite(),
{
    match bindings {
        None => 0,
        Some(given) => {
            let count = count_variables(x, y, given);
            if count <= usize::MAX / 3 {
                3 * count
            } else {
                usize::MAX
            }
        },
    }
}

/// What the occurs check lets pass, unification without it does as well:
/// where unification with the occurs check succeeds, unification without
/// it gives the same.
pub proof fn lemma_unchecked_same(x: TermView, y: TermView, b: Option<SubstView>, depth: nat)
    requires
        unify_spec(x, y, b, true, depth) is Some,
    ensures
        unify_spec(x, y, b, false, depth) == unify_spec(x, y, b, true, depth),
    decreases depth, 1int, x,
{
    if b is None || x == y {
    } else if x is Var {
        lemma_unchecked_variable_same(x->Var_0, y, b, depth);
    } else if y is Var {
        lemma_unchecked_variable_same(y->Var_0, x, b, depth);
    } else {
        lemma_unchecked_args_same(x->Str_1, y->Str_1, b, depth);
    }
}

/// The same for paired arguments.
pub proof fn lemma_unchecked_args_same(
    xs: Seq<TermView>,
    ys: Seq<TermView>,
    b: Option<SubstView>,
    depth: nat,
)
    requires
        unify_args_spec(xs, ys, b, true, depth) is Some,
    ensures
        unify_args_spec(xs, ys, b, false, depth) == unify_args_spec(xs, ys, b, true, depth),
    decreases depth, 1int, xs,
{
    if xs.len() == 0 || ys.len() == 0 {
    } else {
        let next = unify_spec(xs[0], ys[0], b, true, depth);
        if next is None {
            lemma_unify_args_extends(xs.drop_first(), ys.drop_first(), next, true, depth);
        }
        lemma_unchecked_same(xs[0], ys[0], b, depth);
        lemma_unchecked_args_same(xs.drop_first(), ys.drop_first(), next, depth);
    }
}

/// The same for a variable and a term.
pub proof fn lemma_unchecked_variable_same(
    v: Seq<char>,
    t: TermView,
    b: Option<SubstView>,
    depth: nat,
)
    requires
        unify_variable_spec(v, t, b, true, depth) is Some,
    ensures
        unify_variable_spec(v, t, b, false, depth) == unify_variable_spec(v, t, b, true, depth),
    decreases depth, 0int, t,
{
    let theta = b->0;
    if theta.contains_key(v) {
        lemma_unchecked_same(theta[v], t, b, (depth - 1) as nat);
    } else if t is Var && theta.contains_key(t->Var_0) {
        lemma_unchecked_same(TermView::Var(v), theta[t->Var_0], b, (depth - 1) as nat);
    }
}

/// What `unify` promises of a unification under the bindings `given` that
/// gave `r`. A success holds the bindings given and has as solutions
/// exactly the solutions of those that make `x` and `y` equal. A failure
/// means that no solution of the bindings given makes `x` and `y` equal,
/// where the bindings given hold no cycle.
pub open spec fn unified(
    x: TermView,
    y: TermView,
    given: SubstView,
    r: Option<SubstView>,
) -> bool {
    match r {
        Some(result) => given.submap_of(result) && forall|sigma: SubstView|
            solves(sigma, result) <==> solves(sigma, given) && equal_under(sigma, x, y),
        None => acyclic(given) && 3 * unify_vars(x, y, given).len() <= usize::MAX ==> no_unifier(
            given,
            x,
            y,
        ),
    }
}

/// `unify` keeps its promise.
pub proof fn lemma_unified(x: TermView, y: TermView, given: SubstView, occurs: bool)
    requires
        unify_vars(x, y, given).finite(),
    ensures
        unified(
            x,
            y,
            given,
            unify_spec(x, y, Some(given), occurs, unify_depth_spec(x, y, Some(given))),
        ),
{
    let b = Some(given);
    let vars = unify_vars(x, y, given);
    let depth = unify_depth_spec(x, y, b);
    let r = unify_spec(x, y, b, occurs, depth);
    lemma_unify_extends(x, y, b, occurs, depth);
    if r is Some {
        assert forall|sigma: SubstView|
            solves(sigma, r->0) <==> solves(sigma, given) && equal_under(sigma, x, y) by {
            lemma_unify_solutions(x, y, given, occurs, depth, sigma);
        }
        assert(given.submap_of(r->0));
        assert(unified(x, y, given, r));
    } else if acyclic(given) && 3 * vars.len() <= usize::MAX {
        assert(bindings_within(vars, b)) by {
            assert forall|v: Seq<char>| given.contains_key(v) implies within(
                vars,
                #[trigger] given[v],
            ) by {
                assert forall|w: Seq<char>| has_var(given[v], w) implies vars.contains(w) by {
                    assert(bindings_vars(given).contains(w));
                }
            }
            assert forall|v: Seq<char>| given.dom().contains(v) implies vars.contains(v) by {
                assert(bindings_vars(given).contains(v));
            }
        }
        lemma_depth_suffices(vars, x, y, given, depth);
        let checked = unify_spec(x, y, b, true, depth);
        if checked is Some {
            lemma_unchecked_same(x, y, b, depth);
        }
        assert(checked is None);
        assert forall|sigma: SubstView| !(solves(sigma, given) && equal_under(sigma, x, y)) by {
            if solves(sigma, given) {
                lemma_unify_failure(x, y, b, true, depth, sigma);
            }
        }
        assert(no_unifier(given, x, y));
    }
}

/// Unifies `x` and `y` under `bindings`, with the depth that `unify` takes.
pub fn unify_terms(x: &Term, y: &Term, bindings: Bindings, occurs_check: bool) -> (r: Bindings)
    ensures
        bindings_view(r) == unify_spec(
            x@,
            y@,
            bindings_view(bindings),
            occurs_check,
            unify_depth_spec(x@, y@, bindings_view(bindings)),
        ),
        bindings matches Some(given) ==> unified(x@, y@, given@, bindings_view(r)),
{
    let depth = unify_depth(x, y, &bindings);
    proof {
        if let Some(theta) = bindings_view(bindings) {
            lemma_unified(x@, y@, theta, occurs_check);
        }
    }
    unify_bounded(x, y, bindings, occurs_check, depth)
}

/// Unifies `x` and `y` under `bindings`. With `occurs_check` on, a variable
/// is never bound to a term that holds it.
///
/// The depth is three times the number of variables that the unification
/// can meet. That is enough wherever the bindings hold no cycle, so that a
/// failure then means that the terms have no unifier. A success holds the
/// bindings given and has as solutions exactly the solutions of those that
/// make `x` and `y` equal.
pub fn unify(x: Term, y: Term, bindings: Bindings, occurs_check: bool) -> (r: Bindings)
    ensures
        bindings_view(r) == unify_spec(
            x@,
            y@,
            bindings_view(bindings),
            occurs_check,
            unify_depth_spec(x@, y@, bindings_view(bindings)),
        ),
        bindings matches Some(given) ==> unified(x@, y@, given@, bindings_view(r)),
{
    unify_terms(&x, &y, bindings, occurs_check)
}

/// Unification is reflexive: a term unifies with itself under any
/// bindings and leaves them as they are, whatever the occurs check and the
/// depth.
pub proof fn lemma_unify_reflexive(t: TermView, theta: SubstView, occurs: bool, depth: nat)
    ensures
        unify_spec(t, t, Some(theta), occurs, depth) == Some(theta),
{
}

/// `b` holds every binding of `a`, or is a failure. Unification only ever
/// adds bindings.
pub open spec fn extends(a: Option<SubstView>, b: Option<SubstView>) -> bool {
    match b {
        None => true,
        Some(longer) => a matches Some(shorter) && shorter.submap_of(longer),
    }
}

/// A successful unification keeps every binding that it was given: it
/// binds variables that were unbound and changes nothing else.
pub proof fn lemma_unify_extends(
    x: TermView,
    y: TermView,
    b: Option<SubstView>,
    occurs: bool,
    depth: nat,
)
    ensures
        extends(b, unify_spec(x, y, b, occurs, depth)),
    decreases depth, 1int, x,
{
    if b is None || x == y {
    } else if x is Var {
        lemma_unify_variable_extends(x->Var_0, y, b, occurs, depth);
    } else if y is Var {
        lemma_unify_variable_extends(y->Var_0, x, b, occurs, depth);
    } else if x is Str && y is Str {
        if x->Str_0 == y->Str_0 && x->Str_1.len() == y->Str_1.len() {
            lemma_unify_args_extends(x->Str_1, y->Str_1, b, occurs, depth);
        }
    }
}

/// The same for paired arguments.
pub proof fn lemma_unify_args_extends(
    xs: Seq<TermView>,
    ys: Seq<TermView>,
    b: Option<SubstView>,
    occurs: bool,
    depth: nat,
)
    ensures
        extends(b, unify_args_spec(xs, ys, b, occurs, depth)),
    decreases depth, 1int, xs,
{
    if xs.len() == 0 || ys.len() == 0 {
    } else {
        lemma_unify_extends(xs[0], ys[0], b, occurs, depth);
        let next = unify_spec(xs[0], ys[0], b, occurs, depth);
        lemma_unify_args_extends(xs.drop_first(), ys.drop_first(), next, occurs, depth);
        let last = unify_args_spec(xs, ys, b, occurs, depth);
        if let Some(longest) = last {
            assert(b->0.submap_of(longest)) by {
                assert forall|k: Seq<char>| #[trigger] b->0.dom().contains(k) implies longest.dom().contains(
                    k,
                ) && b->0[k] == longest[k] by {
                    assert(next->0.dom().contains(k));
                }
            }
        }
    }
}

/// The same for a variable and a term.
pub proof fn lemma_unify_variable_extends(
    v: Seq<char>,
    t: TermView,
    b: Option<SubstView>,
    occurs: bool,
    depth: nat,
)
    ensures
        extends(b, unify_variable_spec(v, t, b, occurs, depth)),
    decreases depth, 0int, t,
{
    if let Some(theta) = b {
        if theta.contains_key(v) {
            if depth > 0 {
                lemma_unify_extends(theta[v], t, b, occurs, (depth - 1) as nat);
            }
        } else if t is Var && theta.contains_key(t->Var_0) {
            if depth > 0 {
                lemma_unify_extends(
                    TermView::Var(v),
                    theta[t->Var_0],
                    b,
                    occurs,
                    (depth - 1) as nat,
                );
            }
        }
    }
}

/// No variable stands in `t`.
pub open spec fn is_ground(t: TermView) -> bool {
    forall|v: Seq<char>| !has_var(t, v)
}

/// Every term that `b` binds a variable to is ground.
pub open spec fn ground_valued(b: Option<SubstView>) -> bool {
    match b {
        None => true,
        Some(theta) => forall|v: Seq<char>| theta.contains_key(v) ==> is_ground(#[trigger] theta[v]),
    }
}

/// An argument of a ground compound term is ground.
pub proof fn lemma_ground_arg(t: TermView, i: int)
    requires
        is_ground(t),
        t is Str,
        0 <= i < t->Str_1.len(),
    ensures
        is_ground(t->Str_1[i]),
{
    assert forall|v: Seq<char>| !has_var(t->Str_1[i], v) by {
        if has_var(t->Str_1[i], v) {
            assert(has_var(t, v));
        }
    }
}

/// Where `y` is ground and the bindings bind to ground terms only,
/// unifying `x` with `y` and `y` with `x` give the same result, and the
/// result binds to ground terms only.
pub proof fn lemma_unify_ground_symmetric(
    x: TermView,
    y: TermView,
    b: Option<SubstView>,
    occurs: bool,
    depth: nat,
)
    requires
        is_ground(y),
        ground_valued(b),
    ensures
        unify_spec(x, y, b, occurs, depth) == unify_spec(y, x, b, occurs, depth),
        ground_valued(unify_spec(x, y, b, occurs, depth)),
    decreases depth, 1int, x,
{
    if y is Var {
        assert(has_var(y, y->Var_0));
    }
    if b is None || x == y {
    } else if x is Var {
        let theta = b->0;
        let v = x->Var_0;
        if theta.contains_key(v) {
            if depth > 0 {
                lemma_unify_ground_symmetric(theta[v], y, b, occurs, (depth - 1) as nat);
            }
        }
    } else if x is Str && y is Str {
        if x->Str_0 == y->Str_0 && x->Str_1.len() == y->Str_1.len() {
            assert forall|i: int| 0 <= i < y->Str_1.len() implies is_ground(
                #[trigger] y->Str_1[i],
            ) by {
                lemma_ground_arg(y, i);
            }
            lemma_unify_args_ground_symmetric(x->Str_1, y->Str_1, b, occurs, depth);
        }
    }
}

/// The same for paired arguments.
pub proof fn lemma_unify_args_ground_symmetric(
    xs: Seq<TermView>,
    ys: Seq<TermView>,
    b: Option<SubstView>,
    occurs: bool,
    depth: nat,
)
    requires
        forall|i: int| 0 <= i < ys.len() ==> is_ground(#[trigger] ys[i]),
        ground_valued(b),
    ensures
        unify_args_spec(xs, ys, b, occurs, depth) == unify_args_spec(ys, xs, b, occurs, depth),
        ground_valued(unify_args_spec(xs, ys, b, occurs, depth)),
    decreases depth, 1int, xs,
{
    if xs.len() == 0 || ys.len() == 0 {
    } else {
        lemma_unify_ground_symmetric(xs[0], ys[0], b, occurs, depth);
        let next = unify_spec(xs[0], ys[0], b, occurs, depth);
        assert forall|i: int| 0 <= i < ys.drop_first().len() implies is_ground(
            #[trigger] ys.drop_first()[i],
        ) by {}
        lemma_unify_args_ground_symmetric(xs.drop_first(), ys.drop_first(), next, occurs, depth);
    }
}

/// Unification does not depend on the order of its two terms where one of
/// them holds no variable: from the empty substitution, either order gives
/// the same result, failure or the same bindings.
pub proof fn lemma_unify_symmetric_on_ground(x: TermView, y: TermView, occurs: bool, depth: nat)
    requires
        is_ground(x) || is_ground(y),
    ensures
        unify_spec(x, y, Some(Map::empty()), occurs, depth) == unify_spec(
            y,
            x,
            Some(Map::empty()),
            occurs,
            depth,
        ),
{
    if is_ground(y) {
        lemma_unify_ground_symmetric(x, y, Some(Map::empty()), occurs, depth);
    } else {
        lemma_unify_ground_symmetric(y, x, Some(Map::empty()), occurs, depth);
    }
}

} // verus!
