//! What a program entails, and that the answers of the prover are right.
//!
//! A goal follows from a program where it is an instance of the head of a
//! clause whose body goals, taken in the same instance, follow from the
//! program. The answers of the prover are sound in this sense: whatever
//! solution an answer has, it turns every goal of the query into a goal
//! that follows from the program. An answer found without the occurs
//! check may have no solution; of such an answer this says nothing.

use crate::database::{predicate_key, DatabaseView, PredicateKey};
use crate::prover::{
    derive_spec, initial_state, is_answer, lemma_answers_sound, resolve_spec, run_spec, Resolution,
};
use crate::rename::{lemma_rename_all, rename_all_spec, rename_clause_spec};
use crate::solution::{
    apply, lemma_solves_part, lemma_unify_sound, lemma_walk_is_apply, lemma_walk_solves, solves,
    walk_map,
};
use crate::subst::SubstView;
use crate::term::TermView;
use crate::unify::{lemma_unify_extends, unify_depth_spec};
use crate::walk::{acyclic, lemma_walk_all, walk_all};
use vstd::prelude::*;

verus! {

/// The terms `ts` under the assignment `sigma`.
pub open spec fn apply_all(sigma: SubstView, ts: Seq<TermView>) -> Seq<TermView> {
    rename_all_spec(ts, sigma)
}

/// `goal` is the head of clause number `index` of the predicate `key` in
/// the instance `sigma`.
pub open spec fn instance_of(
    db: DatabaseView,
    goal: TermView,
    key: PredicateKey,
    index: int,
    sigma: SubstView,
) -> bool {
    &&& db.contains_key(key)
    &&& 0 <= index < db[key].len()
    &&& apply(sigma, db[key][index].head) == goal
}

/// `goal` follows from the program by a proof of at most `height` clauses
/// one upon the other: it is an instance of the head of a clause, and the
/// body goals of the clause in that instance follow by lower proofs.
pub open spec fn follows(db: DatabaseView, goal: TermView, height: nat) -> bool
    decreases height, 0int,
{
    height > 0 && exists|key: PredicateKey, index: int, sigma: SubstView| #[trigger]
        instance_of(db, goal, key, index, sigma) && all_follow(
            db,
            apply_all(sigma, db[key][index].body),
            (height - 1) as nat,
        )
}

/// Each of `goals` follows from the program by a proof of at most `height`.
pub open spec fn all_follow(db: DatabaseView, goals: Seq<TermView>, height: nat) -> bool
    decreases height, 1int,
{
    forall|j: int| 0 <= j < goals.len() ==> follows(db, #[trigger] goals[j], height)
}

/// Each of `goals` follows from the program.
pub open spec fn entailed(db: DatabaseView, goals: Seq<TermView>) -> bool {
    exists|height: nat| all_follow(db, goals, height)
}

/// What follows by a proof of some height follows by any higher one.
pub proof fn lemma_follows_higher(db: DatabaseView, goal: TermView, height: nat, more: nat)
    requires
        follows(db, goal, height),
        height <= more,
    ensures
        follows(db, goal, more),
    decreases height,
{
    let (key, index, sigma) = choose|key: PredicateKey, index: int, sigma: SubstView| #[trigger]
        instance_of(db, goal, key, index, sigma) && all_follow(
            db,
            apply_all(sigma, db[key][index].body),
            (height - 1) as nat,
        );
    let body = apply_all(sigma, db[key][index].body);
    assert forall|j: int| 0 <= j < body.len() implies follows(
        db,
        #[trigger] body[j],
        (more - 1) as nat,
    ) by {
        lemma_follows_higher(db, body[j], (height - 1) as nat, (more - 1) as nat);
    }
}

/// First `inner`, then `outer`: the assignment that gives each variable the
/// term that `inner` gives it, taken under `outer`.
pub open spec fn compose(outer: SubstView, inner: SubstView) -> SubstView {
    Map::new(|v: Seq<char>| true, |v: Seq<char>| apply(outer, apply(inner, TermView::Var(v))))
}

/// Applying a composed assignment is applying its two parts in turn.
pub proof fn lemma_compose(outer: SubstView, inner: SubstView, t: TermView)
    ensures
        apply(compose(outer, inner), t) == apply(outer, apply(inner, t)),
    decreases t,
{
    match t {
        TermView::Var(v) => {},
        TermView::Str(f, args) => {
            let once = rename_all_spec(args, inner);
            lemma_rename_all(args, inner);
            lemma_rename_all(once, outer);
            lemma_rename_all(args, compose(outer, inner));
            assert forall|i: int| 0 <= i < args.len() implies rename_all_spec(
                args,
                compose(outer, inner),
            )[i] == rename_all_spec(once, outer)[i] by {
                lemma_compose(outer, inner, args[i]);
            }
            assert(rename_all_spec(args, compose(outer, inner)) =~= rename_all_spec(once, outer));
        },
        _ => {},
    }
}

/// Resolution is sound: where a goal list comes from another by one
/// resolution, and under a solution of the bindings reached every goal of
/// the new list follows from the program, every goal of the old list does.
pub proof fn lemma_resolution_sound(
    db: DatabaseView,
    goals: Seq<TermView>,
    theta: SubstView,
    step: Resolution,
    sigma: SubstView,
    height: nat,
)
    requires
        resolve_spec(db, goals, theta, step.index, step.renaming) matches Some(after) && solves(
            sigma,
            after.1,
        ) && all_follow(db, apply_all(sigma, after.0), height),
    ensures
        solves(sigma, theta),
        all_follow(db, apply_all(sigma, goals), height + 1),
{
    let after = resolve_spec(db, goals, theta, step.index, step.renaming)->0;
    let key = predicate_key(goals[0])->0;
    let clause = db[key][step.index as int];
    let renamed = rename_clause_spec(clause, step.renaming);
    let tau = compose(sigma, step.renaming);
    let depth = unify_depth_spec(goals[0], renamed.head, Some(theta));
    lemma_unify_extends(goals[0], renamed.head, Some(theta), false, depth);
    lemma_solves_part(sigma, theta, after.1);
    lemma_unify_sound(goals[0], renamed.head, Some(theta), false, depth, sigma);
    lemma_compose(sigma, step.renaming, clause.head);
    assert(instance_of(db, apply(sigma, goals[0]), key, step.index as int, tau));
    lemma_rename_all(after.0, sigma);
    lemma_rename_all(goals, sigma);
    lemma_rename_all(clause.body, step.renaming);
    lemma_rename_all(clause.body, tau);
    let body = apply_all(tau, clause.body);
    assert forall|j: int| 0 <= j < body.len() implies follows(db, #[trigger] body[j], height) by {
        lemma_compose(sigma, step.renaming, clause.body[j]);
        assert(apply_all(sigma, after.0)[j] == apply(sigma, after.0[j]));
    }
    let old_goals = apply_all(sigma, goals);
    assert forall|j: int| 0 <= j < old_goals.len() implies follows(
        db,
        #[trigger] old_goals[j],
        height + 1,
    ) by {
        if j > 0 {
            let k = renamed.body.len() + j - 1;
            assert(apply_all(sigma, after.0)[k] == apply(sigma, after.0[k]));
            lemma_follows_higher(db, old_goals[j], height, height + 1);
        }
    }
}

/// Derivations are sound: where a derivation ends with some goals under
/// some bindings, and under a solution of those bindings every one of
/// those goals follows from the program, every goal at its start does.
pub proof fn lemma_derivation_sound(
    db: DatabaseView,
    goals: Seq<TermView>,
    theta: SubstView,
    steps: Seq<Resolution>,
    sigma: SubstView,
    height: nat,
)
    requires
        derive_spec(db, goals, theta, steps) matches Some(end) && solves(sigma, end.1)
            && all_follow(db, apply_all(sigma, end.0), height),
    ensures
        solves(sigma, theta),
        all_follow(db, apply_all(sigma, goals), height + steps.len()),
    decreases steps.len(),
{
    if steps.len() > 0 {
        let mid = derive_spec(db, goals, theta, steps.drop_last())->0;
        lemma_resolution_sound(db, mid.0, mid.1, steps.last(), sigma, height);
        lemma_derivation_sound(db, goals, theta, steps.drop_last(), sigma, height + 1);
    }
}

/// An answer is right: every solution of an answer to the query `goals`
/// makes each goal of the query follow from the program.
pub proof fn lemma_answer_entailed(
    db: DatabaseView,
    goals: Seq<TermView>,
    theta: SubstView,
    answer: SubstView,
    sigma: SubstView,
)
    requires
        is_answer(db, goals, theta, answer),
        solves(sigma, answer),
    ensures
        solves(sigma, theta),
        entailed(db, apply_all(sigma, goals)),
{
    let steps = choose|steps: Seq<Resolution>| #[trigger]
        derive_spec(db, goals, theta, steps) == Some((Seq::<TermView>::empty(), answer));
    lemma_derivation_sound(db, goals, theta, steps, sigma, 0);
}

/// What an answer shows is right, where the answer holds no cycle: each
/// goal of the query, walked under the answer, follows from the program.
pub proof fn lemma_shown_answer_entailed(
    db: DatabaseView,
    goals: Seq<TermView>,
    theta: SubstView,
    answer: SubstView,
)
    requires
        is_answer(db, goals, theta, answer),
        answer.dom().finite(),
        acyclic(answer),
    ensures
        entailed(db, walk_all(answer, goals, answer.dom().len())),
{
    lemma_walk_solves(answer);
    lemma_answer_entailed(db, goals, theta, answer, walk_map(answer));
    lemma_rename_all(goals, walk_map(answer));
    lemma_walk_all(answer, goals, answer.dom().len());
    assert forall|i: int| 0 <= i < goals.len() implies apply_all(walk_map(answer), goals)[i]
        == walk_all(answer, goals, answer.dom().len())[i] by {
        lemma_walk_is_apply(answer, goals[i]);
    }
    assert(apply_all(walk_map(answer), goals) =~= walk_all(answer, goals, answer.dom().len()));
}

/// The prover is sound: whatever answers a search for the query `goals`
/// finds, every solution of one of them makes each goal of the query
/// follow from the program.
pub proof fn lemma_prover_sound(
    db: DatabaseView,
    goals: Seq<TermView>,
    theta: SubstView,
    serial: nat,
    trace: Seq<SubstView>,
    i: int,
    sigma: SubstView,
)
    requires
        0 <= i < run_spec(db, initial_state(goals, theta), serial, trace).1.len(),
        solves(sigma, run_spec(db, initial_state(goals, theta), serial, trace).1[i]),
    ensures
        entailed(db, apply_all(sigma, goals)),
{
    lemma_answers_sound(db, goals, theta, serial, trace);
    lemma_answer_entailed(
        db,
        goals,
        theta,
        run_spec(db, initial_state(goals, theta), serial, trace).1[i],
        sigma,
    );
}

} // verus!
