//! That the depth of `unify` is enough.
//!
//! Where a unification does not run out of depth, more depth changes
//! nothing. With the occurs check, from bindings without a cycle, three
//! times the number of variables is depth enough, whatever the two terms
//! are. The unification comes to an end because every binding that is
//! followed leads to a variable of lower rank or to a term that is no bound
//! variable, every step into the arguments of two compound terms makes the
//! terms under the bindings smaller, and every new binding leaves one
//! variable less to bind. It follows few bindings on the way because no
//! binding is followed twice on one side: a variable that came up again
//! after its binding was followed would be met from what it is bound to.

use crate::acyclic::{
    lemma_empty_acyclic, lemma_reached_occurs, lemma_reaches_through, lemma_unify_acyclic,
    lemma_unify_finite, reaches,
};
use crate::failure::{
    lemma_terms_size, lemma_unify_failure, lemma_unify_symmetry, lemma_unify_symmetry_of_walks,
    reached, term_size, unify_args_cut, unify_cut, unify_variable_cut,
};
use crate::rename::{bindings_vars, goal_vars, lemma_goal_vars, unify_vars};
use crate::solution::{
    lemma_equates_is_same_walk, lemma_unify_sound, lemma_unify_symmetric_classes,
    lemma_walk_any_depth, lemma_walk_solves, walk_map,
};
use crate::subst::{lemma_submap_transitive, SubstView};
use crate::term::TermView;
use crate::unify::{
    lemma_unchecked_same, lemma_unify_extends, occurs_any_spec, occurs_spec, unify_args_spec,
    unify_depth_spec, unify_spec, unify_variable_spec,
};
use crate::walk::{
    acyclic, below, has_var, lemma_walk_all, ranked, ranks_below, walk_all, walk_spec,
};
use vstd::prelude::*;

verus! {

/// An occurs check that finds nothing finds nothing with more depth.
pub proof fn lemma_occurs_deeper(
    v: Seq<char>,
    t: TermView,
    theta: SubstView,
    depth: nat,
    more: nat,
)
    requires
        !occurs_spec(v, t, theta, depth),
        depth <= more,
    ensures
        !occurs_spec(v, t, theta, more),
    decreases depth, t,
{
    match t {
        TermView::Var(w) => {
            if w != v && theta.contains_key(w) {
                lemma_occurs_deeper(v, theta[w], theta, (depth - 1) as nat, (more - 1) as nat);
            }
        },
        TermView::Str(_, args) => {
            lemma_occurs_any_deeper(v, args, theta, depth, more);
        },
        _ => {},
    }
}

/// The same for a list of terms.
pub proof fn lemma_occurs_any_deeper(
    v: Seq<char>,
    ts: Seq<TermView>,
    theta: SubstView,
    depth: nat,
    more: nat,
)
    requires
        !occurs_any_spec(v, ts, theta, depth),
        depth <= more,
    ensures
        !occurs_any_spec(v, ts, theta, more),
    decreases depth, ts,
{
    if ts.len() > 0 {
        lemma_occurs_deeper(v, ts[0], theta, depth, more);
        lemma_occurs_any_deeper(v, ts.drop_first(), theta, depth, more);
    }
}

/// Where a unification did not run out of depth, it gives the same with
/// more depth, and does not run out of that either.
pub proof fn lemma_unify_deeper(
    x: TermView,
    y: TermView,
    b: Option<SubstView>,
    occurs: bool,
    depth: nat,
    more: nat,
)
    requires
        !unify_cut(x, y, b, occurs, depth),
        depth <= more,
    ensures
        !unify_cut(x, y, b, occurs, more),
        unify_spec(x, y, b, occurs, more) == unify_spec(x, y, b, occurs, depth),
    decreases depth, 1int, x,
{
    if b is None || x == y {
    } else if x is Var {
        lemma_unify_variable_deeper(x->Var_0, y, b, occurs, depth, more);
    } else if y is Var {
        lemma_unify_variable_deeper(y->Var_0, x, b, occurs, depth, more);
    } else if x is Str && y is Str && x->Str_0 == y->Str_0 && x->Str_1.len() == y->Str_1.len() {
        lemma_unify_args_deeper(x->Str_1, y->Str_1, b, occurs, depth, more);
    }
}

/// The same for paired arguments.
pub proof fn lemma_unify_args_deeper(
    xs: Seq<TermView>,
    ys: Seq<TermView>,
    b: Option<SubstView>,
    occurs: bool,
    depth: nat,
    more: nat,
)
    requires
        !unify_args_cut(xs, ys, b, occurs, depth),
        depth <= more,
    ensures
        !unify_args_cut(xs, ys, b, occurs, more),
        unify_args_spec(xs, ys, b, occurs, more) == unify_args_spec(xs, ys, b, occurs, depth),
    decreases depth, 1int, xs,
{
    if xs.len() == 0 || ys.len() == 0 {
    } else {
        lemma_unify_deeper(xs[0], ys[0], b, occurs, depth, more);
        lemma_unify_args_deeper(
            xs.drop_first(),
            ys.drop_first(),
            unify_spec(xs[0], ys[0], b, occurs, depth),
            occurs,
            depth,
            more,
        );
    }
}

/// The same for a variable and a term.
pub proof fn lemma_unify_variable_deeper(
    v: Seq<char>,
    t: TermView,
    b: Option<SubstView>,
    occurs: bool,
    depth: nat,
    more: nat,
)
    requires
        !unify_variable_cut(v, t, b, occurs, depth),
        depth <= more,
    ensures
        !unify_variable_cut(v, t, b, occurs, more),
        unify_variable_spec(v, t, b, occurs, more) == unify_variable_spec(v, t, b, occurs, depth),
    decreases depth, 0int, t,
{
    if let Some(theta) = b {
        if theta.contains_key(v) {
            lemma_unify_deeper(theta[v], t, b, occurs, (depth - 1) as nat, (more - 1) as nat);
        } else if t is Var && theta.contains_key(t->Var_0) {
            lemma_unify_deeper(
                TermView::Var(v),
                theta[t->Var_0],
                b,
                occurs,
                (depth - 1) as nat,
                (more - 1) as nat,
            );
        } else if occurs {
            if occurs_spec(v, t, theta, depth) {
                let steps = choose|steps: nat| reaches(theta, t, v, steps);
                lemma_reached_occurs(theta, t, v, steps, more);
            } else {
                lemma_occurs_deeper(v, t, theta, depth, more);
            }
        }
    }
}

/// An occurs check that finds the variable in a list of terms finds it in
/// one of them.
pub proof fn lemma_occurs_in_one(
    v: Seq<char>,
    ts: Seq<TermView>,
    theta: SubstView,
    depth: nat,
) -> (i: int)
    requires
        occurs_any_spec(v, ts, theta, depth),
    ensures
        0 <= i < ts.len(),
        occurs_spec(v, ts[i], theta, depth),
    decreases ts.len(),
{
    if occurs_spec(v, ts[0], theta, depth) {
        0
    } else {
        let j = lemma_occurs_in_one(v, ts.drop_first(), theta, depth);
        assert(ts.drop_first()[j] == ts[j + 1]);
        j + 1
    }
}

/// Under a ranked substitution, an occurs check with enough depth for the
/// variables that can still be met finds only what is reached.
pub proof fn lemma_occurs_exact(
    theta: SubstView,
    rank: spec_fn(Seq<char>) -> nat,
    v: Seq<char>,
    t: TermView,
    limit: Option<nat>,
    depth: nat,
)
    requires
        theta.dom().finite(),
        ranked(theta, rank),
        ranks_below(theta, rank, t, limit),
        depth >= below(theta, rank, limit).len(),
        occurs_spec(v, t, theta, depth),
    ensures
        reached(theta, t, v),
    decreases depth, t,
{
    match t {
        TermView::Var(w) => {
            if w == v {
                assert(reaches(theta, t, v, 0));
            } else {
                assert(has_var(t, w));
                let here = below(theta, rank, limit);
                let next = below(theta, rank, Some(rank(w)));
                assert(here.contains(w));
                assert(next.subset_of(here.remove(w)));
                vstd::set_lib::lemma_len_subset(next, here.remove(w));
                assert(ranks_below(theta, rank, theta[w], Some(rank(w))));
                lemma_occurs_exact(theta, rank, v, theta[w], Some(rank(w)), (depth - 1) as nat);
                let steps = choose|steps: nat| reaches(theta, theta[w], v, steps);
                assert(reaches(theta, t, v, steps + 1));
            }
        },
        TermView::Str(_, args) => {
            let i = lemma_occurs_in_one(v, args, theta, depth);
            assert(ranks_below(theta, rank, args[i], limit)) by {
                assert forall|u: Seq<char>|
                    has_var(args[i], u) && theta.contains_key(u) implies (limit is None || rank(u)
                    < limit->0) by {
                    assert(has_var(t, u));
                }
            }
            lemma_occurs_exact(theta, rank, v, args[i], limit, depth);
            let steps = choose|steps: nat| reaches(theta, args[i], v, steps);
            assert(reaches(theta, t, v, steps));
        },
        _ => {},
    }
}

/// Every variable of `t` is one of `vars`.
pub open spec fn within(vars: Set<Seq<char>>, t: TermView) -> bool {
    forall|v: Seq<char>| has_var(t, v) ==> vars.contains(v)
}

/// The bindings `b` bind variables of `vars` only, to terms whose variables
/// are among `vars`.
pub open spec fn bindings_within(vars: Set<Seq<char>>, b: Option<SubstView>) -> bool {
    match b {
        None => true,
        Some(theta) => {
            &&& theta.dom().subset_of(vars)
            &&& forall|v: Seq<char>| theta.contains_key(v) ==> within(vars, #[trigger] theta[v])
        },
    }
}

/// The variables of an argument are variables of the compound term.
pub proof fn lemma_within_arg(vars: Set<Seq<char>>, t: TermView, i: int)
    requires
        within(vars, t),
        t is Str,
        0 <= i < t->Str_1.len(),
    ensures
        within(vars, t->Str_1[i]),
{
    assert forall|v: Seq<char>| has_var(t->Str_1[i], v) implies vars.contains(v) by {
        assert(has_var(t, v));
    }
}

/// Unification brings in no variable: it binds variables of its two terms
/// to terms that stand in them or in the bindings.
pub proof fn lemma_unify_within(
    vars: Set<Seq<char>>,
    x: TermView,
    y: TermView,
    b: Option<SubstView>,
    occurs: bool,
    depth: nat,
)
    requires
        within(vars, x),
        within(vars, y),
        bindings_within(vars, b),
    ensures
        bindings_within(vars, unify_spec(x, y, b, occurs, depth)),
    decreases depth, 1int, x,
{
    if b is None || x == y {
    } else if x is Var {
        assert(has_var(x, x->Var_0));
        lemma_unify_variable_within(vars, x->Var_0, y, b, occurs, depth);
    } else if y is Var {
        assert(has_var(y, y->Var_0));
        lemma_unify_variable_within(vars, y->Var_0, x, b, occurs, depth);
    } else if x is Str && y is Str {
        if x->Str_0 == y->Str_0 && x->Str_1.len() == y->Str_1.len() {
            assert forall|i: int| 0 <= i < x->Str_1.len() implies within(
                vars,
                #[trigger] x->Str_1[i],
            ) by {
                lemma_within_arg(vars, x, i);
            }
            assert forall|i: int| 0 <= i < y->Str_1.len() implies within(
                vars,
                #[trigger] y->Str_1[i],
            ) by {
                lemma_within_arg(vars, y, i);
            }
            lemma_unify_args_within(vars, x->Str_1, y->Str_1, b, occurs, depth);
        }
    }
}

/// The same for paired arguments.
pub proof fn lemma_unify_args_within(
    vars: Set<Seq<char>>,
    xs: Seq<TermView>,
    ys: Seq<TermView>,
    b: Option<SubstView>,
    occurs: bool,
    depth: nat,
)
    requires
        forall|i: int| 0 <= i < xs.len() ==> within(vars, #[trigger] xs[i]),
        forall|i: int| 0 <= i < ys.len() ==> within(vars, #[trigger] ys[i]),
        bindings_within(vars, b),
    ensures
        bindings_within(vars, unify_args_spec(xs, ys, b, occurs, depth)),
    decreases depth, 1int, xs,
{
    if xs.len() == 0 || ys.len() == 0 {
    } else {
        lemma_unify_within(vars, xs[0], ys[0], b, occurs, depth);
        assert forall|i: int| 0 <= i < xs.drop_first().len() implies within(
            vars,
            #[trigger] xs.drop_first()[i],
        ) by {
            assert(xs.drop_first()[i] == xs[i + 1]);
        }
        assert forall|i: int| 0 <= i < ys.drop_first().len() implies within(
            vars,
            #[trigger] ys.drop_first()[i],
        ) by {
            assert(ys.drop_first()[i] == ys[i + 1]);
        }
        lemma_unify_args_within(
            vars,
            xs.drop_first(),
            ys.drop_first(),
            unify_spec(xs[0], ys[0], b, occurs, depth),
            occurs,
            depth,
        );
    }
}

/// The same for a variable and a term.
pub proof fn lemma_unify_variable_within(
    vars: Set<Seq<char>>,
    v: Seq<char>,
    t: TermView,
    b: Option<SubstView>,
    occurs: bool,
    depth: nat,
)
    requires
        vars.contains(v),
        within(vars, t),
        bindings_within(vars, b),
    ensures
        bindings_within(vars, unify_variable_spec(v, t, b, occurs, depth)),
    decreases depth, 0int, t,
{
    if let Some(theta) = b {
        if theta.contains_key(v) {
            if depth > 0 {
                lemma_unify_within(vars, theta[v], t, b, occurs, (depth - 1) as nat);
            }
        } else if t is Var && theta.contains_key(t->Var_0) {
            if depth > 0 {
                assert forall|u: Seq<char>| has_var(TermView::Var(v), u) implies vars.contains(
                    u,
                ) by {}
                lemma_unify_within(
                    vars,
                    TermView::Var(v),
                    theta[t->Var_0],
                    b,
                    occurs,
                    (depth - 1) as nat,
                );
            }
        } else {
            let bound = theta.insert(v, t);
            assert forall|u: Seq<char>| bound.contains_key(u) implies within(
                vars,
                #[trigger] bound[u],
            ) by {
                if u != v {
                    assert(theta.contains_key(u));
                }
            }
        }
    }
}

/// How many of the variables `vars` the bindings `theta` leave unbound.
pub open spec fn free_count(vars: Set<Seq<char>>, theta: SubstView) -> nat {
    vars.difference(theta.dom()).len()
}

/// The size of `t` after its walk under `theta`.
pub open spec fn walked_size(theta: SubstView, t: TermView) -> nat {
    term_size(walk_spec(theta, t))
}

/// A bound on how many bindings lead from `t` to a term that is no bound
/// variable: none where `t` is no bound variable itself.
pub open spec fn lookups(theta: SubstView, rank: spec_fn(Seq<char>) -> nat, t: TermView) -> nat {
    if t is Var && theta.contains_key(t->Var_0) {
        rank(t->Var_0) + 1
    } else {
        0
    }
}

/// Bindings within finitely many variables bind finitely many.
pub proof fn lemma_within_finite(vars: Set<Seq<char>>, theta: SubstView)
    requires
        vars.finite(),
        bindings_within(vars, Some(theta)),
    ensures
        theta.dom().finite(),
        theta.dom().len() <= vars.len(),
{
    vstd::set_lib::lemma_len_subset(theta.dom(), vars);
}

/// Under bindings without a cycle, a bound variable and what it is bound
/// to have the same walk, and following the binding comes closer to a term
/// that is no bound variable.
pub proof fn lemma_walk_of_bound(theta: SubstView, rank: spec_fn(Seq<char>) -> nat, v: Seq<char>)
    requires
        theta.dom().finite(),
        ranked(theta, rank),
        theta.contains_key(v),
    ensures
        walk_spec(theta, TermView::Var(v)) == walk_spec(theta, theta[v]),
        lookups(theta, rank, theta[v]) < lookups(theta, rank, TermView::Var(v)),
{
    let depth = theta.dom().len();
    let all = below(theta, rank, None);
    let next = below(theta, rank, Some(rank(v)));
    assert(all =~= theta.dom());
    assert(all.contains(v));
    assert(next.subset_of(all.remove(v)));
    vstd::set_lib::lemma_len_subset(next, all.remove(v));
    assert(ranks_below(theta, rank, theta[v], Some(rank(v))));
    lemma_walk_any_depth(theta, rank, theta[v], Some(rank(v)), (depth - 1) as nat, depth);
    if theta[v] is Var && theta.contains_key(theta[v]->Var_0) {
        assert(has_var(theta[v], theta[v]->Var_0));
    }
}

/// An argument of a compound term is smaller than the term, also after the
/// walk.
pub proof fn lemma_walked_arg_smaller(theta: SubstView, t: TermView, i: int)
    requires
        t is Str,
        0 <= i < t->Str_1.len(),
    ensures
        walked_size(theta, t->Str_1[i]) < walked_size(theta, t),
{
    let depth = theta.dom().len();
    lemma_walk_all(theta, t->Str_1, depth);
    lemma_terms_size(walk_all(theta, t->Str_1, depth), i);
}

/// Bindings that hold more than others leave fewer variables unbound.
pub proof fn lemma_fewer_free(vars: Set<Seq<char>>, fewer: SubstView, more: SubstView)
    requires
        vars.finite(),
        fewer.submap_of(more),
        bindings_within(vars, Some(more)),
        fewer != more,
    ensures
        free_count(vars, more) < free_count(vars, fewer),
{
    if fewer.dom() =~= more.dom() {
        assert(fewer =~= more);
    }
    let k = choose|k: Seq<char>| more.dom().contains(k) && !fewer.dom().contains(k);
    let small = vars.difference(more.dom());
    let large = vars.difference(fewer.dom());
    assert(large.contains(k));
    assert(small.subset_of(large.remove(k)));
    vstd::set_lib::lemma_len_subset(small, large.remove(k));
}

/// Nothing runs out of depth once a unification has failed.
pub proof fn lemma_no_cut_after_failure(
    xs: Seq<TermView>,
    ys: Seq<TermView>,
    occurs: bool,
    depth: nat,
)
    ensures
        !unify_args_cut(xs, ys, None, occurs, depth),
    decreases xs.len(),
{
    if xs.len() == 0 || ys.len() == 0 {
    } else {
        assert(unify_spec(xs[0], ys[0], None, occurs, depth) is None);
        assert(!unify_cut(xs[0], ys[0], None, occurs, depth));
        lemma_no_cut_after_failure(xs.drop_first(), ys.drop_first(), occurs, depth);
    }
}

/// What is met from a term is met with more steps allowed.
pub proof fn lemma_reaches_longer(
    theta: SubstView,
    t: TermView,
    v: Seq<char>,
    steps: nat,
    more: nat,
)
    requires
        reaches(theta, t, v, steps),
        steps <= more,
    ensures
        reaches(theta, t, v, more),
    decreases steps, t,
{
    match t {
        TermView::Var(w) => {
            if w != v {
                lemma_reaches_longer(theta, theta[w], v, (steps - 1) as nat, (more - 1) as nat);
            }
        },
        TermView::Str(_, args) => {
            let i = choose|i: int|
                0 <= i < args.len() && reaches(theta, #[trigger] args[i], v, steps);
            lemma_reaches_longer(theta, args[i], v, steps, more);
        },
        _ => {},
    }
}

/// What is met from a term is met under bindings that hold more.
pub proof fn lemma_reaches_under_more(
    theta: SubstView,
    longer: SubstView,
    t: TermView,
    v: Seq<char>,
    steps: nat,
)
    requires
        theta.submap_of(longer),
        reaches(theta, t, v, steps),
    ensures
        reaches(longer, t, v, steps),
    decreases steps, t,
{
    match t {
        TermView::Var(w) => {
            if w != v {
                assert(theta.dom().contains(w));
                assert(longer.dom().contains(w));
                lemma_reaches_under_more(theta, longer, theta[w], v, (steps - 1) as nat);
            }
        },
        TermView::Str(_, args) => {
            let i = choose|i: int|
                0 <= i < args.len() && reaches(theta, #[trigger] args[i], v, steps);
            lemma_reaches_under_more(theta, longer, args[i], v, steps);
        },
        _ => {},
    }
}

/// What is met from the binding of a variable that is met from a term is
/// met from the term.
pub proof fn lemma_reaches_on(
    theta: SubstView,
    t: TermView,
    v: Seq<char>,
    steps: nat,
    w: Seq<char>,
    further: nat,
)
    requires
        reaches(theta, t, v, steps),
        theta.contains_key(v),
        reaches(theta, theta[v], w, further),
    ensures
        reaches(theta, t, w, steps + further + 1),
    decreases steps, t,
{
    match t {
        TermView::Var(a) => {
            if a == v {
                lemma_reaches_longer(theta, theta[v], w, further, steps + further);
            } else {
                lemma_reaches_on(theta, theta[a], v, (steps - 1) as nat, w, further);
            }
        },
        TermView::Str(_, args) => {
            let i = choose|i: int|
                0 <= i < args.len() && reaches(theta, #[trigger] args[i], v, steps);
            lemma_reaches_on(theta, args[i], v, steps, w, further);
        },
        _ => {},
    }
}

/// Under a ranked substitution, a bound variable that is met from a term
/// ranks below the limit below which the bound variables of the term rank.
pub proof fn lemma_reached_ranks_below(
    theta: SubstView,
    rank: spec_fn(Seq<char>) -> nat,
    t: TermView,
    v: Seq<char>,
    steps: nat,
    limit: nat,
)
    requires
        ranked(theta, rank),
        reaches(theta, t, v, steps),
        theta.contains_key(v),
        ranks_below(theta, rank, t, Some(limit)),
    ensures
        rank(v) < limit,
    decreases steps, t,
{
    match t {
        TermView::Var(a) => {
            assert(has_var(t, a));
            if a != v {
                assert(ranks_below(theta, rank, theta[a], Some(rank(a))));
                lemma_reached_ranks_below(theta, rank, theta[a], v, (steps - 1) as nat, rank(a));
            }
        },
        TermView::Str(_, args) => {
            let i = choose|i: int|
                0 <= i < args.len() && reaches(theta, #[trigger] args[i], v, steps);
            assert(ranks_below(theta, rank, args[i], Some(limit))) by {
                assert forall|u: Seq<char>|
                    has_var(args[i], u) && theta.contains_key(u) implies rank(u) < limit by {
                    assert(has_var(t, u));
                }
            }
            lemma_reached_ranks_below(theta, rank, args[i], v, steps, limit);
        },
        _ => {},
    }
}

/// The variable `v` is met from what the variable `u` is bound to.
pub open spec fn leads(theta: SubstView, u: Seq<char>, v: Seq<char>) -> bool {
    theta.contains_key(u) && reached(theta, theta[u], v)
}

/// Under bindings without a cycle, no variable is met from what it is
/// bound to.
pub proof fn lemma_leads_nowhere_back(
    theta: SubstView,
    rank: spec_fn(Seq<char>) -> nat,
    v: Seq<char>,
)
    requires
        ranked(theta, rank),
    ensures
        !leads(theta, v, v),
{
    if leads(theta, v, v) {
        let steps = choose|steps: nat| reaches(theta, theta[v], v, steps);
        assert(ranks_below(theta, rank, theta[v], Some(rank(v))));
        lemma_reached_ranks_below(theta, rank, theta[v], v, steps, rank(v));
    }
}

/// The term `t` has come up by following the bindings of the variables
/// `seen`: every variable of `t` is met from what each of them is bound
/// to.
pub open spec fn comes_from(theta: SubstView, seen: Set<Seq<char>>, t: TermView) -> bool {
    forall|u: Seq<char>, v: Seq<char>|
        seen.contains(u) && has_var(t, v) ==> #[trigger] leads(theta, u, v)
}

/// What has come up by following bindings has done so under bindings that
/// hold more.
pub proof fn lemma_comes_from_under_more(
    theta: SubstView,
    longer: SubstView,
    seen: Set<Seq<char>>,
    t: TermView,
)
    requires
        theta.submap_of(longer),
        comes_from(theta, seen, t),
    ensures
        comes_from(longer, seen, t),
{
    assert forall|u: Seq<char>, v: Seq<char>|
        seen.contains(u) && has_var(t, v) implies #[trigger] leads(longer, u, v) by {
        assert(leads(theta, u, v));
        assert(theta.dom().contains(u));
        assert(longer.dom().contains(u));
        let steps = choose|steps: nat| reaches(theta, theta[u], v, steps);
        lemma_reaches_under_more(theta, longer, theta[u], v, steps);
    }
}

/// The arguments of a term that has come up by following bindings have
/// come up by following them.
pub proof fn lemma_comes_from_arg(theta: SubstView, seen: Set<Seq<char>>, t: TermView, i: int)
    requires
        comes_from(theta, seen, t),
        t is Str,
        0 <= i < t->Str_1.len(),
    ensures
        comes_from(theta, seen, t->Str_1[i]),
{
    assert forall|u: Seq<char>, v: Seq<char>|
        seen.contains(u) && has_var(t->Str_1[i], v) implies #[trigger] leads(theta, u, v) by {
        assert(has_var(t, v));
    }
}

/// Following the binding of a variable that has come up: the variable was
/// not followed before, it is followed now, and what it is bound to has
/// come up by following bindings.
pub proof fn lemma_follow(
    vars: Set<Seq<char>>,
    theta: SubstView,
    rank: spec_fn(Seq<char>) -> nat,
    seen: Set<Seq<char>>,
    v: Seq<char>,
)
    requires
        vars.finite(),
        vars.contains(v),
        ranked(theta, rank),
        theta.contains_key(v),
        comes_from(theta, seen, TermView::Var(v)),
    ensures
        !seen.contains(v),
        comes_from(theta, seen.insert(v), theta[v]),
        vars.difference(seen.insert(v)).len() + 1 == vars.difference(seen).len(),
{
    lemma_leads_nowhere_back(theta, rank, v);
    assert(has_var(TermView::Var(v), v));
    if seen.contains(v) {
        assert(leads(theta, v, v));
    }
    assert forall|u: Seq<char>, w: Seq<char>|
        seen.insert(v).contains(u) && has_var(theta[v], w) implies #[trigger] leads(
        theta,
        u,
        w,
    ) by {
        assert(reaches(theta, TermView::Var(w), w, 0));
        lemma_reaches_through(theta, theta[v], w, w, 0);
        if u != v {
            assert(leads(theta, u, v));
            let steps = choose|steps: nat| reaches(theta, theta[u], v, steps);
            lemma_reaches_on(theta, theta[u], v, steps, w, 0);
        }
    }
    let before = vars.difference(seen);
    assert(before.contains(v));
    assert(vars.difference(seen.insert(v)) =~= before.remove(v));
}

/// The depth that is enough where the bindings of the variables `seen_x`
/// and `seen_y` have been followed on the two sides: no binding is
/// followed twice on one side, and the occurs check follows each binding
/// once at most.
pub open spec fn depth_bound(
    vars: Set<Seq<char>>,
    seen_x: Set<Seq<char>>,
    seen_y: Set<Seq<char>>,
) -> nat {
    vars.difference(seen_x).len() + vars.difference(seen_y).len() + vars.len()
}

/// With the occurs check, from bindings without a cycle, some depth is
/// enough: the depth that is given does not run out, and it is no more than
/// three times the number of variables.
pub proof fn lemma_enough_depth(
    vars: Set<Seq<char>>,
    x: TermView,
    y: TermView,
    theta: SubstView,
    rank: spec_fn(Seq<char>) -> nat,
    seen_x: Set<Seq<char>>,
    seen_y: Set<Seq<char>>,
) -> (depth: nat)
    requires
        vars.finite(),
        within(vars, x),
        within(vars, y),
        bindings_within(vars, Some(theta)),
        ranked(theta, rank),
        comes_from(theta, seen_x, x),
        comes_from(theta, seen_y, y),
    ensures
        !unify_cut(x, y, Some(theta), true, depth),
        depth <= depth_bound(vars, seen_x, seen_y),
    decreases
            free_count(vars, theta),
            walked_size(theta, x) + walked_size(theta, y),
            lookups(theta, rank, x) + lookups(theta, rank, y),
            2int,
            0nat,
{
    lemma_within_finite(vars, theta);
    let b = Some(theta);
    if x == y {
        0
    } else if x is Var && theta.contains_key(x->Var_0) {
        let v = x->Var_0;
        assert(has_var(x, v));
        lemma_walk_of_bound(theta, rank, v);
        lemma_follow(vars, theta, rank, seen_x, v);
        let inner = lemma_enough_depth(vars, theta[v], y, theta, rank, seen_x.insert(v), seen_y);
        inner + 1
    } else if x is Var && y is Var && theta.contains_key(y->Var_0) {
        let w = y->Var_0;
        assert(has_var(y, w));
        lemma_walk_of_bound(theta, rank, w);
        lemma_follow(vars, theta, rank, seen_y, w);
        let inner = lemma_enough_depth(vars, x, theta[w], theta, rank, seen_x, seen_y.insert(w));
        inner + 1
    } else if x is Var {
        let depth = theta.dom().len();
        assert(below(theta, rank, None) =~= theta.dom());
        if occurs_spec(x->Var_0, y, theta, depth) {
            lemma_occurs_exact(theta, rank, x->Var_0, y, None, depth);
        }
        depth
    } else if y is Var && theta.contains_key(y->Var_0) {
        let w = y->Var_0;
        assert(has_var(y, w));
        lemma_walk_of_bound(theta, rank, w);
        lemma_follow(vars, theta, rank, seen_y, w);
        let inner = lemma_enough_depth(vars, theta[w], x, theta, rank, seen_y.insert(w), seen_x);
        inner + 1
    } else if y is Var {
        let depth = theta.dom().len();
        assert(below(theta, rank, None) =~= theta.dom());
        if occurs_spec(y->Var_0, x, theta, depth) {
            lemma_occurs_exact(theta, rank, y->Var_0, x, None, depth);
        }
        depth
    } else if x is Str && y is Str && x->Str_0 == y->Str_0 && x->Str_1.len() == y->Str_1.len() {
        let size = walked_size(theta, x) + walked_size(theta, y);
        assert forall|i: int| 0 <= i < x->Str_1.len() implies within(vars, #[trigger] x->Str_1[i])
            && within(vars, y->Str_1[i]) && walked_size(theta, x->Str_1[i]) + walked_size(
            theta,
            y->Str_1[i],
        ) < size && comes_from(theta, seen_x, x->Str_1[i]) && comes_from(
            theta,
            seen_y,
            y->Str_1[i],
        ) by {
            lemma_within_arg(vars, x, i);
            lemma_within_arg(vars, y, i);
            lemma_walked_arg_smaller(theta, x, i);
            lemma_walked_arg_smaller(theta, y, i);
            lemma_comes_from_arg(theta, seen_x, x, i);
            lemma_comes_from_arg(theta, seen_y, y, i);
        }
        assert(theta.submap_of(theta));
        lemma_enough_depth_args(
            vars,
            x->Str_1,
            y->Str_1,
            theta,
            theta,
            size,
            lookups(theta, rank, x) + lookups(theta, rank, y),
            seen_x,
            seen_y,
        )
    } else {
        0
    }
}

/// The same for paired arguments that are unified under `theta` in the
/// course of a unification that started under `start`.
pub proof fn lemma_enough_depth_args(
    vars: Set<Seq<char>>,
    xs: Seq<TermView>,
    ys: Seq<TermView>,
    theta: SubstView,
    start: SubstView,
    size: nat,
    steps: nat,
    seen_x: Set<Seq<char>>,
    seen_y: Set<Seq<char>>,
) -> (depth: nat)
    requires
        vars.finite(),
        xs.len() == ys.len(),
        forall|i: int|
            0 <= i < xs.len() ==> within(vars, #[trigger] xs[i]) && within(vars, ys[i])
                && walked_size(start, xs[i]) + walked_size(start, ys[i]) < size && comes_from(
                start,
                seen_x,
                xs[i],
            ) && comes_from(start, seen_y, ys[i]),
        bindings_within(vars, Some(theta)),
        bindings_within(vars, Some(start)),
        start.submap_of(theta),
        acyclic(theta),
    ensures
        !unify_args_cut(xs, ys, Some(theta), true, depth),
        depth <= depth_bound(vars, seen_x, seen_y),
    decreases free_count(vars, start), size, steps, 1int, xs.len(),
{
    if xs.len() == 0 {
        0
    } else {
        let rank = choose|rank: spec_fn(Seq<char>) -> nat| ranked(theta, rank);
        if theta != start {
            lemma_fewer_free(vars, start, theta);
        }
        lemma_comes_from_under_more(start, theta, seen_x, xs[0]);
        lemma_comes_from_under_more(start, theta, seen_y, ys[0]);
        let first = lemma_enough_depth(vars, xs[0], ys[0], theta, rank, seen_x, seen_y);
        let next = unify_spec(xs[0], ys[0], Some(theta), true, first);
        match next {
            None => {
                lemma_no_cut_after_failure(xs.drop_first(), ys.drop_first(), true, first);
                first
            },
            Some(longer) => {
                lemma_unify_acyclic(xs[0], ys[0], Some(theta), first);
                lemma_unify_within(vars, xs[0], ys[0], Some(theta), true, first);
                lemma_unify_extends(xs[0], ys[0], Some(theta), true, first);
                lemma_submap_transitive(start, theta, longer);
                assert forall|i: int| 0 <= i < xs.drop_first().len() implies within(
                    vars,
                    #[trigger] xs.drop_first()[i],
                ) && within(vars, ys.drop_first()[i]) && walked_size(start, xs.drop_first()[i])
                    + walked_size(start, ys.drop_first()[i]) < size && comes_from(
                    start,
                    seen_x,
                    xs.drop_first()[i],
                ) && comes_from(start, seen_y, ys.drop_first()[i]) by {
                    assert(xs.drop_first()[i] == xs[i + 1]);
                    assert(ys.drop_first()[i] == ys[i + 1]);
                }
                let rest = lemma_enough_depth_args(
                    vars,
                    xs.drop_first(),
                    ys.drop_first(),
                    longer,
                    start,
                    size,
                    steps,
                    seen_x,
                    seen_y,
                );
                let depth = if first >= rest {
                    first
                } else {
                    rest
                };
                lemma_unify_deeper(xs[0], ys[0], Some(theta), true, first, depth);
                lemma_unify_args_deeper(
                    xs.drop_first(),
                    ys.drop_first(),
                    next,
                    true,
                    rest,
                    depth,
                );
                depth
            },
        }
    }
}

/// With the occurs check, from bindings without a cycle, three times the
/// number of variables is depth enough, and so is every depth above that.
pub proof fn lemma_depth_suffices(
    vars: Set<Seq<char>>,
    x: TermView,
    y: TermView,
    theta: SubstView,
    depth: nat,
)
    requires
        vars.finite(),
        within(vars, x),
        within(vars, y),
        bindings_within(vars, Some(theta)),
        acyclic(theta),
        depth >= 3 * vars.len(),
    ensures
        !unify_cut(x, y, Some(theta), true, depth),
{
    let rank = choose|rank: spec_fn(Seq<char>) -> nat| ranked(theta, rank);
    let none = Set::<Seq<char>>::empty();
    assert(vars.difference(none) =~= vars);
    let enough = lemma_enough_depth(vars, x, y, theta, rank, none, none);
    lemma_unify_deeper(x, y, Some(theta), true, enough, depth);
}

/// With the occurs check, unification from the empty substitution comes to
/// an end: from the depth that is given on, no depth runs out.
pub proof fn lemma_unify_terminates(x: TermView, y: TermView) -> (depth: nat)
    ensures
        forall|more: nat| more >= depth ==> !unify_cut(x, y, Some(Map::empty()), true, more),
{
    let names = goal_vars(seq![x, y]);
    let vars = names.to_set();
    let empty = Map::<Seq<char>, TermView>::empty();
    let rank = |u: Seq<char>| 0nat;
    vstd::seq_lib::seq_to_set_is_finite(names);
    lemma_goal_vars(seq![x, y]);
    assert(within(vars, x)) by {
        assert forall|v: Seq<char>| has_var(x, v) implies vars.contains(v) by {
            assert(has_var(seq![x, y][0], v));
            assert(names.contains(v));
        }
    }
    assert(within(vars, y)) by {
        assert forall|v: Seq<char>| has_var(y, v) implies vars.contains(v) by {
            assert(has_var(seq![x, y][1], v));
            assert(names.contains(v));
        }
    }
    assert(ranked(empty, rank));
    let none = Set::<Seq<char>>::empty();
    let depth = lemma_enough_depth(vars, x, y, empty, rank, none, none);
    assert forall|more: nat| more >= depth implies !unify_cut(x, y, Some(empty), true, more) by {
        lemma_unify_deeper(x, y, Some(empty), true, depth, more);
    }
    depth
}

/// Two terms have the same walk under `one` exactly where they have the
/// same walk under `other`.
pub open spec fn same_classes(one: SubstView, other: SubstView) -> bool {
    forall|s: TermView, t: TermView|
        walk_spec(one, s) == walk_spec(one, t) <==> walk_spec(other, s) == walk_spec(other, t)
}

/// With the depth `depth`, unifying `x` with `y` and unifying `y` with `x`
/// from the empty substitution, with the occurs check, either both fail or
/// both succeed with results under which the same terms have the same
/// walk.
pub open spec fn symmetric_at(x: TermView, y: TermView, depth: nat) -> bool {
    let forth = unify_spec(x, y, Some(Map::empty()), true, depth);
    let back = unify_spec(y, x, Some(Map::empty()), true, depth);
    &&& forth is None <==> back is None
    &&& forth is Some ==> same_classes(forth->0, back->0)
}

/// Unification is symmetric. With the occurs check and from the depth that
/// is given on, unifying two terms from the empty substitution in either
/// order gives two failures, or two results that put the same variables
/// into one class: under both, the same terms have the same walk.
pub proof fn lemma_unify_is_symmetric(x: TermView, y: TermView) -> (depth: nat)
    ensures
        forall|more: nat| more >= depth ==> symmetric_at(x, y, more),
{
    let forth = lemma_unify_terminates(x, y);
    let back = lemma_unify_terminates(y, x);
    let depth = if forth >= back {
        forth
    } else {
        back
    };
    assert forall|more: nat| more >= depth implies symmetric_at(x, y, more) by {
        lemma_unify_symmetry(x, y, more);
        let one = unify_spec(x, y, Some(Map::empty()), true, more);
        let other = unify_spec(y, x, Some(Map::empty()), true, more);
        if one is Some {
            assert forall|s: TermView, t: TermView|
                walk_spec(one->0, s) == walk_spec(one->0, t) <==> walk_spec(other->0, s)
                    == walk_spec(other->0, t) by {
                lemma_unify_symmetry_of_walks(x, y, more, s, t);
            }
        }
    }
    depth
}

/// The variables of `x` and `y` are among those that their unification
/// can meet, and so are those of the bindings.
pub proof fn lemma_unify_vars_hold(x: TermView, y: TermView, theta: SubstView)
    ensures
        within(unify_vars(x, y, theta), x),
        within(unify_vars(x, y, theta), y),
        bindings_within(unify_vars(x, y, theta), Some(theta)),
        unify_vars(y, x, theta) == unify_vars(x, y, theta),
{
    let vars = unify_vars(x, y, theta);
    assert forall|v: Seq<char>| theta.contains_key(v) implies within(vars, #[trigger] theta[v]) by {
        assert forall|w: Seq<char>| has_var(theta[v], w) implies vars.contains(w) by {
            assert(bindings_vars(theta).contains(w));
        }
    }
    assert forall|v: Seq<char>| theta.dom().contains(v) implies vars.contains(v) by {
        assert(bindings_vars(theta).contains(v));
    }
    assert(unify_vars(y, x, theta) =~= vars);
}

/// `unify` is symmetric with the occurs check. With the depth that `unify`
/// takes, unifying `x` with `y` and unifying `y` with `x` from the empty
/// substitution either both fail, or both succeed with results under which
/// the same terms have the same walk.
pub proof fn lemma_unify_symmetric_checked(x: TermView, y: TermView)
    requires
        unify_vars(x, y, Map::empty()).finite(),
        3 * unify_vars(x, y, Map::empty()).len() <= usize::MAX,
    ensures
        unify_depth_spec(y, x, Some(Map::empty())) == unify_depth_spec(x, y, Some(Map::empty())),
        symmetric_at(x, y, unify_depth_spec(x, y, Some(Map::empty()))),
{
    let empty = Map::<Seq<char>, TermView>::empty();
    let vars = unify_vars(x, y, empty);
    let depth = unify_depth_spec(x, y, Some(empty));
    lemma_unify_vars_hold(x, y, empty);
    lemma_empty_acyclic();
    lemma_depth_suffices(vars, x, y, empty, depth);
    lemma_depth_suffices(vars, y, x, empty, depth);
    lemma_unify_symmetry(x, y, depth);
    let one = unify_spec(x, y, Some(empty), true, depth);
    let other = unify_spec(y, x, Some(empty), true, depth);
    if one is Some {
        assert forall|s: TermView, t: TermView|
            walk_spec(one->0, s) == walk_spec(one->0, t) <==> walk_spec(other->0, s) == walk_spec(
                other->0,
                t,
            ) by {
            lemma_unify_symmetry_of_walks(x, y, depth, s, t);
        }
    }
}

/// `unify` is symmetric without the occurs check wherever it gives
/// bindings without a cycle: then unifying in the other order succeeds as
/// well, with bindings without a cycle under which the same terms have the
/// same walk.
pub proof fn lemma_unify_symmetric_unchecked(x: TermView, y: TermView)
    requires
        unify_vars(x, y, Map::empty()).finite(),
        3 * unify_vars(x, y, Map::empty()).len() <= usize::MAX,
        unify_spec(x, y, Some(Map::empty()), false, unify_depth_spec(x, y, Some(Map::empty())))
            matches Some(one) && acyclic(one),
    ensures
        unify_depth_spec(y, x, Some(Map::empty())) == unify_depth_spec(x, y, Some(Map::empty())),
        unify_spec(y, x, Some(Map::empty()), false, unify_depth_spec(x, y, Some(Map::empty())))
            matches Some(other) && acyclic(other) && same_classes(
            unify_spec(
                x,
                y,
                Some(Map::empty()),
                false,
                unify_depth_spec(x, y, Some(Map::empty())),
            )->0,
            other,
        ),
{
    let empty = Map::<Seq<char>, TermView>::empty();
    let b = Some(empty);
    let vars = unify_vars(x, y, empty);
    let depth = unify_depth_spec(x, y, b);
    let one = unify_spec(x, y, b, false, depth)->0;
    lemma_unify_vars_hold(x, y, empty);
    lemma_empty_acyclic();
    lemma_unify_finite(x, y, b, false, depth);
    lemma_walk_solves(one);
    let sigma = walk_map(one);
    lemma_unify_sound(x, y, b, false, depth, sigma);
    lemma_depth_suffices(vars, y, x, empty, depth);
    let checked = unify_spec(y, x, b, true, depth);
    if checked is None {
        lemma_unify_failure(y, x, b, true, depth, sigma);
    }
    lemma_unchecked_same(y, x, b, depth);
    lemma_unify_acyclic(y, x, b, depth);
    lemma_unify_finite(y, x, b, true, depth);
    let other = checked->0;
    assert forall|s: TermView, t: TermView|
        walk_spec(one, s) == walk_spec(one, t) <==> walk_spec(other, s) == walk_spec(other, t) by {
        lemma_equates_is_same_walk(one, s, t);
        lemma_equates_is_same_walk(other, s, t);
        lemma_unify_symmetric_classes(x, y, false, depth, s, t);
    }
}

} // verus!
