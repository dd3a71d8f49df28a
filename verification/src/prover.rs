//! The proof engine: depth-first resolution with chronological
//! backtracking.
//!
//! The search is a machine with an explicit stack of choice points. Each
//! choice point holds a conjunction of goals still to prove, the bindings
//! made so far, and the number of the next clause to try for the first of
//! those goals. One step resolves the first goal of the topmost choice
//! point with that clause, renamed apart. Goals are taken from left to
//! right and clauses in the order in which the database holds them, so the
//! answers come in a fixed order. The caller decides after each answer
//! whether the search goes on. A search that is cut off by its budget of
//! steps says so: it is never taken for a search that found nothing.

use crate::database::{predicate_key, ClauseView, Database, DatabaseView, Predicate};
use crate::rename::{
    clause_variables, clause_vars, find_variables_in_goals, fresh_renaming, goal_vars,
    lemma_renamings_disjoint, rename_clause_spec, rename_variables,
};
use crate::text::{report, report_text};
use crate::subst::{substs_view, SubstView, Substitution};
use crate::term::{lemma_terms_view, terms_view, Term, TermView};
use crate::unify::{
    bindings_view, lemma_unify_extends, unify_depth_spec, unify_spec, unify_terms,
};
use vstd::prelude::*;

verus! {

/// How many resolution steps `top_level_prove` takes before it gives up.
pub const STEP_LIMIT: usize = 100000;

/// The mathematical value of a choice point.
pub struct FrameView {
    pub goals: Seq<TermView>,
    pub bindings: SubstView,
    pub next: nat,
}

/// A choice point: goals still to prove, the bindings under which they are
/// to be proved, and the clause to try next for the first goal.
struct Frame {
    goals: Vec<Term>,
    bindings: Substitution,
    next: usize,
}

impl View for Frame {
    type V = FrameView;

    closed spec fn view(&self) -> FrameView {
        FrameView { goals: terms_view(self.goals@), bindings: self.bindings@, next: self.next as nat }
    }
}

/// The models of a stack of choice points, bottom first.
spec fn frames_view(frames: Seq<Frame>) -> Seq<FrameView> {
    Seq::new(frames.len(), |i: int| frames[i]@)
}

/// A search in progress: the stack of its open choice points, the clock
/// ticks that mark its fresh names, and the number of fresh names that it
/// has handed out.
pub struct Search {
    frames: Vec<Frame>,
    clock: u64,
    serial: usize,
}

impl View for Search {
    type V = Seq<FrameView>;

    closed spec fn view(&self) -> Seq<FrameView> {
        frames_view(self.frames@)
    }
}

/// How a run of the search ended.
pub enum Progress {
    /// An answer was found; the search can be resumed for the next one.
    Answer(Substitution),
    /// No choice point is left: there are no more answers.
    Exhausted,
    /// The steps allowed ran out; the search can be resumed.
    Suspended,
}

/// The state in which a search for `goals` under `bindings` starts.
pub open spec fn initial_state(goals: Seq<TermView>, bindings: SubstView) -> Seq<FrameView> {
    seq![FrameView { goals, bindings, next: 0 }]
}

/// The clause that the next step tries, if it tries one: the first goal of
/// the topmost choice point has a predicate, and the database holds a
/// clause of that predicate with the number that the choice point is at.
pub open spec fn step_clause(db: DatabaseView, st: Seq<FrameView>) -> Option<ClauseView> {
    if st.len() == 0 || st.last().goals.len() == 0 {
        None
    } else {
        match predicate_key(st.last().goals[0]) {
            None => None,
            Some(key) => if db.contains_key(key) && st.last().next < db[key].len() {
                Some(db[key][st.last().next as int])
            } else {
                None
            },
        }
    }
}

/// One step of the search, with `renaming` as the renaming of the clause
/// that it tries and `serial` as the number of fresh names handed out so
/// far. Gives the next state, the answer found, if any, and the number of
/// fresh names handed out after the step.
///
/// A choice point without goals is an answer and leaves the stack. One
/// whose first goal has no clause left to try leaves the stack. Otherwise
/// the choice point moves on to its next clause, and where the first goal
/// unifies with the head of the renamed clause, a new choice point for the
/// body followed by the remaining goals is put on top. Where the serial
/// numbers for the variables of the clause would go beyond what can be
/// counted, the step is not taken.
pub open spec fn step_spec(
    db: DatabaseView,
    st: Seq<FrameView>,
    serial: nat,
    renaming: SubstView,
) -> (Seq<FrameView>, Option<SubstView>, nat) {
    if st.len() == 0 {
        (st, None, serial)
    } else {
        let top = st.last();
        let rest = st.drop_last();
        if top.goals.len() == 0 {
            (rest, Some(top.bindings), serial)
        } else {
            match step_clause(db, st) {
                None => (rest, None, serial),
                Some(clause) => {
                    let used = serial + clause_vars(clause).len();
                    if used > usize::MAX {
                        (st, None, serial)
                    } else {
                        let renamed = rename_clause_spec(clause, renaming);
                        let retry = FrameView {
                            goals: top.goals,
                            bindings: top.bindings,
                            next: top.next + 1,
                        };
                        match unify_spec(
                            top.goals[0],
                            renamed.head,
                            Some(top.bindings),
                            false,
                            unify_depth_spec(top.goals[0], renamed.head, Some(top.bindings)),
                        ) {
                            None => (rest.push(retry), None, used),
                            Some(theta) => (
                                rest.push(retry).push(
                                    FrameView {
                                        goals: renamed.body + top.goals.skip(1),
                                        bindings: theta,
                                        next: 0,
                                    },
                                ),
                                None,
                                used,
                            ),
                        }
                    }
                },
            }
        }
    }
}

/// `renaming` can be the renaming of the next step: where the step tries a
/// clause, it renames the variables of that clause to fresh ones, which
/// take the serial numbers from `serial` on. Where those cannot be counted,
/// the step is not taken and any renaming will do.
pub open spec fn step_renaming(
    db: DatabaseView,
    st: Seq<FrameView>,
    serial: nat,
    renaming: SubstView,
) -> bool {
    match step_clause(db, st) {
        None => true,
        Some(clause) => serial + clause_vars(clause).len() > usize::MAX || fresh_renaming(
            renaming,
            clause_vars(clause),
            serial,
        ),
    }
}

/// The state after one step for each renaming of `trace`, the answers
/// found on the way, in order, and the number of fresh names handed out.
pub open spec fn run_spec(
    db: DatabaseView,
    st: Seq<FrameView>,
    serial: nat,
    trace: Seq<SubstView>,
) -> (Seq<FrameView>, Seq<SubstView>, nat)
    decreases trace.len(),
{
    if trace.len() == 0 {
        (st, Seq::empty(), serial)
    } else {
        let (mid, answers, count) = run_spec(db, st, serial, trace.drop_last());
        let (next, answer, used) = step_spec(db, mid, count, trace.last());
        (
            next,
            match answer {
                Some(theta) => answers.push(theta),
                None => answers,
            },
            used,
        )
    }
}

/// Each renaming of `trace` can be the renaming of its step.
pub open spec fn trace_fits(
    db: DatabaseView,
    st: Seq<FrameView>,
    serial: nat,
    trace: Seq<SubstView>,
) -> bool
    decreases trace.len(),
{
    if trace.len() == 0 {
        true
    } else {
        trace_fits(db, st, serial, trace.drop_last()) && step_renaming(
            db,
            run_spec(db, st, serial, trace.drop_last()).0,
            run_spec(db, st, serial, trace.drop_last()).2,
            trace.last(),
        )
    }
}

/// The seconds since the start of 1970 by the system clock, read with
/// `std::time::SystemTime::elapsed`; `None` where the clock stands before
/// that. Nothing is stated of the time that is read.
#[verifier::external_body]
fn clock_seconds() -> (seconds: Option<u64>) {
    match std::time::UNIX_EPOCH.elapsed() {
        Ok(elapsed) => Some(elapsed.as_secs()),
        Err(_) => None,
    }
}

/// The clock ticks, of a tenth of a microsecond each and counted from the
/// year 1582 as time-based identifiers count them, for a time in seconds
/// since 1970; none for no time, or for a time too far off to count.
fn clock_ticks(seconds: Option<u64>) -> u64 {
    match seconds {
        Some(since) => if since <= 100000000000 {
            122192928000000000 + since * 10000000
        } else {
            0
        },
        None => 0,
    }
}

/// The clause whose variables are renamed at step `i` of a run, if that
/// step tries a clause and the serial numbers for its variables can be
/// counted.
pub open spec fn renamed_at(
    db: DatabaseView,
    st: Seq<FrameView>,
    serial: nat,
    trace: Seq<SubstView>,
    i: int,
) -> Option<ClauseView> {
    let before = run_spec(db, st, serial, trace.take(i));
    match step_clause(db, before.0) {
        None => None,
        Some(clause) => if before.2 + clause_vars(clause).len() > usize::MAX {
            None
        } else {
            Some(clause)
        },
    }
}

/// Each renaming of a trace that fits can be the renaming of its step.
pub proof fn lemma_trace_fits_at(
    db: DatabaseView,
    st: Seq<FrameView>,
    serial: nat,
    trace: Seq<SubstView>,
    i: int,
)
    requires
        trace_fits(db, st, serial, trace),
        0 <= i < trace.len(),
    ensures
        step_renaming(
            db,
            run_spec(db, st, serial, trace.take(i)).0,
            run_spec(db, st, serial, trace.take(i)).2,
            trace[i],
        ),
    decreases trace.len(),
{
    if i == trace.len() - 1 {
        assert(trace.take(i) =~= trace.drop_last());
    } else {
        assert(trace.drop_last().take(i) =~= trace.take(i));
        lemma_trace_fits_at(db, st, serial, trace.drop_last(), i);
    }
}

/// The number of fresh names handed out never goes down in a run.
pub proof fn lemma_serial_grows(
    db: DatabaseView,
    st: Seq<FrameView>,
    serial: nat,
    trace: Seq<SubstView>,
    k: int,
)
    requires
        0 <= k <= trace.len(),
    ensures
        run_spec(db, st, serial, trace.take(k)).2 <= run_spec(db, st, serial, trace).2,
    decreases trace.len(),
{
    if k == trace.len() {
        assert(trace.take(k) =~= trace);
    } else {
        assert(trace.drop_last().take(k) =~= trace.take(k));
        lemma_serial_grows(db, st, serial, trace.drop_last(), k);
    }
}

/// Clause uses are kept apart: the renamings of two steps of a run share
/// no name, so that the variables of one use of a clause never meet those
/// of another use.
pub proof fn lemma_steps_share_no_name(
    db: DatabaseView,
    st: Seq<FrameView>,
    serial: nat,
    trace: Seq<SubstView>,
    i: int,
    j: int,
    v: Seq<char>,
    w: Seq<char>,
)
    requires
        trace_fits(db, st, serial, trace),
        0 <= i < j < trace.len(),
        renamed_at(db, st, serial, trace, i) is Some,
        renamed_at(db, st, serial, trace, j) is Some,
        trace[i].contains_key(v),
        trace[j].contains_key(w),
    ensures
        trace[i][v] != trace[j][w],
{
    let one = renamed_at(db, st, serial, trace, i)->0;
    let other = renamed_at(db, st, serial, trace, j)->0;
    let before_one = run_spec(db, st, serial, trace.take(i));
    let before_other = run_spec(db, st, serial, trace.take(j));
    lemma_trace_fits_at(db, st, serial, trace, i);
    lemma_trace_fits_at(db, st, serial, trace, j);
    let after_one = run_spec(db, st, serial, trace.take(i + 1));
    assert(trace.take(i + 1).drop_last() =~= trace.take(i));
    assert(trace.take(i + 1).last() == trace[i]);
    assert(after_one.2 == before_one.2 + clause_vars(one).len());
    assert(trace.take(j).take(i + 1) =~= trace.take(i + 1));
    lemma_serial_grows(db, st, serial, trace.take(j), i + 1);
    lemma_renamings_disjoint(
        trace[i],
        clause_vars(one),
        before_one.2,
        trace[j],
        clause_vars(other),
        before_other.2,
        v,
        w,
    );
}

impl Search {
    /// The number of fresh names that the search has handed out.
    pub closed spec fn serial(&self) -> nat {
        self.serial as nat
    }

    /// A search for `goals` under `bindings`, before its first step.
    pub fn new(goals: Vec<Term>, bindings: Substitution) -> (search: Search)
        ensures
            search@ == initial_state(terms_view(goals@), bindings@),
            search.serial() == 0,
    {
        let mut frames: Vec<Frame> = Vec::new();
        frames.push(Frame { goals, bindings, next: 0 });
        Search { frames, clock: clock_ticks(clock_seconds()), serial: 0 }
    }

    /// Whether no choice point is left.
    pub fn is_exhausted(&self) -> (done: bool)
        ensures
            done == (self@.len() == 0),
    {
        self.frames.len() == 0
    }
}

/// The goals of the choice point that a successful resolution opens: the
/// body of the clause, then the goals behind the one resolved.
fn resolvent(body: Vec<Term>, goals: &Vec<Term>) -> (res: Vec<Term>)
    requires
        goals.len() > 0,
    ensures
        terms_view(res@) == terms_view(body@) + terms_view(goals@).skip(1),
{
    let ghost front = terms_view(body@);
    let mut res = body;
    let mut i: usize = 1;
    while i < goals.len()
        invariant
            1 <= i <= goals.len(),
            terms_view(res@) == front + terms_view(goals@).subrange(1, i as int),
        decreases goals.len() - i,
    {
        let ghost before = res@;
        res.push(goals[i].clone());
        proof {
            lemma_terms_view(goals@);
            lemma_terms_view(before);
            lemma_terms_view(res@);
            let target = front + terms_view(goals@).subrange(1, i as int + 1);
            let earlier = front + terms_view(goals@).subrange(1, i as int);
            assert forall|j: int| 0 <= j < target.len() implies terms_view(res@)[j] == target[j] by {
                if j < before.len() {
                    assert(earlier[j] == target[j]);
                }
            }
        }
        i += 1;
    }
    assert(terms_view(goals@).subrange(1, goals@.len() as int) =~= terms_view(goals@).skip(1)) by {
        lemma_terms_view(goals@);
    }
    res
}

/// Takes one step of the search: resolves the first goal of the topmost
/// choice point with the next clause of its predicate. Gives the answer
/// where the topmost choice point had no goal left.
pub fn prove(search: &mut Search, database: &Database) -> (answer: Option<Substitution>)
    ensures
        exists|renaming: SubstView| #[trigger]
            step_renaming(database@, old(search)@, old(search).serial(), renaming) && step_spec(
                database@,
                old(search)@,
                old(search).serial(),
                renaming,
            ) == (final(search)@, bindings_view(answer), final(search).serial()),
{
    let ghost st = search@;
    let ghost db = database@;
    let ghost count = search.serial();
    let ghost any = Map::<Seq<char>, TermView>::empty();
    let top = match search.frames.pop() {
        None => {
            assert(step_renaming(db, st, count, any) && step_spec(db, st, count, any) == (
                search@,
                None::<SubstView>,
                count,
            ));
            return None;
        },
        Some(top) => top,
    };
    if top.goals.len() == 0 {
        proof {
            assert(step_renaming(db, st, count, any) && step_spec(db, st, count, any) == (
                search@,
                Some(top.bindings@),
                count,
            ));
        }
        return Some(top.bindings);
    }
    proof {
        lemma_terms_view(top.goals@);
    }
    let key = match Predicate::from_term(&top.goals[0]) {
        None => {
            assert(step_renaming(db, st, count, any) && step_spec(db, st, count, any) == (
                search@,
                None::<SubstView>,
                count,
            ));
            return None;
        },
        Some(key) => key,
    };
    let clauses = match database.get_clauses(&key) {
        None => {
            assert(step_renaming(db, st, count, any) && step_spec(db, st, count, any) == (
                search@,
                None::<SubstView>,
                count,
            ));
            return None;
        },
        Some(clauses) => clauses,
    };
    if top.next >= clauses.len() {
        assert(step_renaming(db, st, count, any) && step_spec(db, st, count, any) == (
            search@,
            None::<SubstView>,
            count,
        ));
        return None;
    }
    let clause = &clauses[top.next];
    assert(step_clause(db, st) == Some(clause@));
    let renamed = match rename_variables(clause, search.clock, search.serial) {
        None => {
            let ghost rest = search@;
            search.frames.push(top);
            proof {
                assert(search@ =~= st);
                assert(step_renaming(db, st, count, any) && step_spec(db, st, count, any) == (
                    search@,
                    None::<SubstView>,
                    count,
                ));
            }
            return None;
        },
        Some(renamed) => renamed,
    };
    let ghost renaming = choose|m: SubstView| #[trigger]
        fresh_renaming(m, clause_vars(clause@), count) && renamed@ == rename_clause_spec(
            clause@,
            m,
        );
    let used = clause_variables(clause).len();
    let extended = unify_terms(&top.goals[0], &renamed.head, Some(top.bindings.clone()), false);
    let opened = match extended {
        None => None,
        Some(theta) => Some(Frame { goals: resolvent(renamed.body, &top.goals), bindings: theta, next: 0 }),
    };
    let retry = Frame { goals: top.goals, bindings: top.bindings, next: top.next + 1 };
    search.frames.push(retry);
    if let Some(frame) = opened {
        search.frames.push(frame);
    }
    search.serial = search.serial + used;
    assert(step_renaming(db, st, count, renaming) && step_spec(db, st, count, renaming) == (
        search@,
        None::<SubstView>,
        search.serial(),
    ));
    None
}

/// What a run of at most `budget` steps from `st` that took the renamings
/// `trace` leaves: the state `end`, and the progress `r`. A run stops at
/// its first answer; it gives `Exhausted` where it stops on an empty stack,
/// and `Suspended` where the budget is spent on a stack that is not empty.
pub open spec fn run_outcome(
    db: DatabaseView,
    st: Seq<FrameView>,
    serial: nat,
    trace: Seq<SubstView>,
    budget: nat,
    end: Seq<FrameView>,
    end_serial: nat,
    r: Progress,
) -> bool {
    &&& trace.len() <= budget
    &&& trace_fits(db, st, serial, trace)
    &&& end == run_spec(db, st, serial, trace).0
    &&& end_serial == run_spec(db, st, serial, trace).2
    &&& match r {
        Progress::Answer(theta) => {
            &&& trace.len() > 0
            &&& run_spec(db, st, serial, trace.drop_last()).1.len() == 0
            &&& run_spec(db, st, serial, trace).1 == seq![theta@]
        },
        Progress::Exhausted => run_spec(db, st, serial, trace).1.len() == 0 && end.len() == 0,
        Progress::Suspended => {
            &&& run_spec(db, st, serial, trace).1.len() == 0
            &&& end.len() > 0
            &&& trace.len() == budget
        },
    }
}

/// Runs the search up to its next answer, for at most `budget` steps.
pub fn prove_all(search: &mut Search, database: &Database, budget: usize) -> (r: Progress)
    ensures
        exists|trace: Seq<SubstView>| #[trigger]
            run_outcome(
                database@,
                old(search)@,
                old(search).serial(),
                trace,
                budget as nat,
                final(search)@,
                final(search).serial(),
                r,
            ),
{
    let ghost st = search@;
    let ghost start = search.serial();
    let ghost db = database@;
    let ghost mut trace: Seq<SubstView> = Seq::empty();
    let mut steps: usize = 0;
    while steps < budget
        invariant
            steps <= budget,
            steps == trace.len(),
            db == database@,
            st == old(search)@,
            start == old(search).serial(),
            trace_fits(db, st, start, trace),
            search@ == run_spec(db, st, start, trace).0,
            search.serial() == run_spec(db, st, start, trace).2,
            run_spec(db, st, start, trace).1.len() == 0,
        decreases budget - steps,
    {
        if search.is_exhausted() {
            assert(run_outcome(
                db,
                st,
                start,
                trace,
                budget as nat,
                search@,
                search.serial(),
                Progress::Exhausted,
            ));
            return Progress::Exhausted;
        }
        let ghost mid = search@;
        let ghost mid_serial = search.serial();
        let answer = prove(search, database);
        proof {
            let renaming = choose|renaming: SubstView| #[trigger]
                step_renaming(db, mid, mid_serial, renaming) && step_spec(
                    db,
                    mid,
                    mid_serial,
                    renaming,
                ) == (search@, bindings_view(answer), search.serial());
            let longer = trace.push(renaming);
            assert(longer.drop_last() =~= trace);
            trace = longer;
        }
        steps += 1;
        match answer {
            Some(theta) => {
                let r = Progress::Answer(theta);
                assert(run_spec(db, st, start, trace).1 =~= seq![theta@]);
                assert(run_outcome(db, st, start, trace, budget as nat, search@, search.serial(), r));
                return r;
            },
            None => {},
        }
    }
    if search.is_exhausted() {
        assert(run_outcome(
            db,
            st,
            start,
            trace,
            budget as nat,
            search@,
            search.serial(),
            Progress::Exhausted,
        ));
        Progress::Exhausted
    } else {
        assert(run_outcome(
            db,
            st,
            start,
            trace,
            budget as nat,
            search@,
            search.serial(),
            Progress::Suspended,
        ));
        Progress::Suspended
    }
}

/// What the user said to the answer that was shown.
pub enum Reply {
    /// The answer is taken: the search ends.
    Accept,
    /// Another answer is wanted: the search goes on.
    More,
}

/// What the caller of the interactive search is to do next.
pub enum Action {
    /// Show this answer and ask whether it is taken.
    Ask(Substitution),
    /// The search is over: with `true` an answer was taken, with `false`
    /// there was no answer left.
    Stop(bool),
    /// The steps allowed ran out: call again to go on.
    Resume,
}

/// The progress of the run that an action reports.
pub open spec fn reported(action: Action) -> Progress {
    match action {
        Action::Ask(theta) => Progress::Answer(theta),
        Action::Stop(_) => Progress::Exhausted,
        Action::Resume => Progress::Suspended,
    }
}

/// One turn of the interactive search. With `Reply::Accept` the search is
/// given up and ends with success. With `Reply::More`, which is also how
/// the first turn is taken, the search runs to its next answer and asks for
/// it to be shown, or ends without success where there is none.
pub fn solve_interactive(
    search: &mut Search,
    database: &Database,
    reply: Reply,
    budget: usize,
) -> (action: Action)
    ensures
        reply is Accept ==> final(search)@.len() == 0 && action == Action::Stop(true),
        reply is More ==> action != Action::Stop(true) && exists|trace: Seq<SubstView>| #[trigger]
            run_outcome(
                database@,
                old(search)@,
                old(search).serial(),
                trace,
                budget as nat,
                final(search)@,
                final(search).serial(),
                reported(action),
            ),
{
    match reply {
        Reply::Accept => {
            search.frames.clear();
            Action::Stop(true)
        },
        Reply::More => {
            match prove_all(search, database, budget) {
                Progress::Answer(theta) => Action::Ask(theta),
                Progress::Exhausted => Action::Stop(false),
                Progress::Suspended => Action::Resume,
            }
        },
    }
}

/// `trace` holds the renamings of a search for all answers from `st`: it
/// goes on until the stack is empty or `budget` steps are taken.
pub open spec fn full_run(
    db: DatabaseView,
    st: Seq<FrameView>,
    trace: Seq<SubstView>,
    budget: nat,
) -> bool {
    &&& trace.len() <= budget
    &&& trace_fits(db, st, 0, trace)
    &&& (run_spec(db, st, 0, trace).0.len() == 0 || trace.len() == budget)
}

/// What a search for all answers has found.
pub struct Found {
    /// The answers, in the order in which the search found them.
    pub answers: Vec<Substitution>,
    /// Whether the search came to its end. Where it did not, the steps
    /// allowed were spent first, and there may be more answers.
    pub complete: bool,
}

/// What a search for all answers of at most `budget` steps that took the
/// renamings `trace` gives: the answers found, in order, and whether the
/// search came to its end.
pub open spec fn batch_outcome(
    db: DatabaseView,
    st: Seq<FrameView>,
    trace: Seq<SubstView>,
    budget: nat,
    r: Found,
) -> bool {
    &&& full_run(db, st, trace, budget)
    &&& substs_view(r.answers@) == run_spec(db, st, 0, trace).1
    &&& r.complete == (run_spec(db, st, 0, trace).0.len() == 0)
}

/// All answers to the conjunction `goals` under `bindings`, in the order
/// in which the search finds them, within `budget` steps. The result says
/// whether the search came to its end within those steps.
pub fn batch_prove_all(
    goals: Vec<Term>,
    bindings: Substitution,
    database: &Database,
    budget: usize,
) -> (r: Found)
    ensures
        exists|trace: Seq<SubstView>| #[trigger]
            batch_outcome(
                database@,
                initial_state(terms_view(goals@), bindings@),
                trace,
                budget as nat,
                r,
            ),
        forall|i: int|
            0 <= i < r.answers@.len() ==> is_answer(
                database@,
                terms_view(goals@),
                bindings@,
                (#[trigger] r.answers@[i])@,
            ),
{
    let ghost st = initial_state(terms_view(goals@), bindings@);
    let ghost db = database@;
    let ghost query = terms_view(goals@);
    let ghost start = bindings@;
    let ghost mut trace: Seq<SubstView> = Seq::empty();
    let mut search = Search::new(goals, bindings);
    let mut answers: Vec<Substitution> = Vec::new();
    let mut steps: usize = 0;
    assert(substs_view(answers@) =~= run_spec(db, st, 0, trace).1);
    while steps < budget && !search.is_exhausted()
        invariant
            steps <= budget,
            steps == trace.len(),
            db == database@,
            trace_fits(db, st, 0, trace),
            search@ == run_spec(db, st, 0, trace).0,
            search.serial() == run_spec(db, st, 0, trace).2,
            substs_view(answers@) == run_spec(db, st, 0, trace).1,
        decreases budget - steps,
    {
        let ghost mid = search@;
        let ghost mid_serial = search.serial();
        let ghost found = substs_view(answers@);
        let answer = prove(&mut search, database);
        proof {
            let renaming = choose|renaming: SubstView| #[trigger]
                step_renaming(db, mid, mid_serial, renaming) && step_spec(
                    db,
                    mid,
                    mid_serial,
                    renaming,
                ) == (search@, bindings_view(answer), search.serial());
            let longer = trace.push(renaming);
            assert(longer.drop_last() =~= trace);
            trace = longer;
        }
        steps += 1;
        match answer {
            Some(theta) => {
                answers.push(theta);
                assert(substs_view(answers@) =~= found.push(theta@));
            },
            None => {},
        }
    }
    proof {
        lemma_answers_sound(db, query, start, 0, trace);
        assert forall|i: int| 0 <= i < answers@.len() implies is_answer(
            db,
            query,
            start,
            (#[trigger] answers@[i])@,
        ) by {
            assert(substs_view(answers@)[i] == answers@[i]@);
        }
    }
    let complete = search.is_exhausted();
    let r = Found { answers, complete };
    assert(batch_outcome(db, st, trace, budget as nat, r));
    r
}

/// All answers to the single goal `goal` under `bindings`, within `budget`
/// steps.
pub fn batch_prove(goal: Term, bindings: Substitution, database: &Database, budget: usize) -> (r:
    Found)
    ensures
        exists|trace: Seq<SubstView>| #[trigger]
            batch_outcome(database@, initial_state(seq![goal@], bindings@), trace, budget as nat, r),
        forall|i: int|
            0 <= i < r.answers@.len() ==> is_answer(
                database@,
                seq![goal@],
                bindings@,
                (#[trigger] r.answers@[i])@,
            ),
{
    let mut goals: Vec<Term> = Vec::new();
    goals.push(goal);
    proof {
        lemma_terms_view(goals@);
        assert(terms_view(goals@) =~= seq![goal@]);
    }
    batch_prove_all(goals, bindings, database, budget)
}

/// Answers the query `goals` from an empty substitution and writes what
/// the search finds within `STEP_LIMIT` steps: one line for each answer,
/// showing the variables of the query, and `false.` where the search came
/// to its end without an answer. Where the steps were spent first, the
/// last line says `unfinished.`.
pub fn top_level_prove(goals: Vec<Term>, database: &Database) -> (text: String)
    ensures
        exists|trace: Seq<SubstView>| #[trigger]
            full_run(
                database@,
                initial_state(terms_view(goals@), Map::empty()),
                trace,
                STEP_LIMIT as nat,
            ) && text@ == report_text(
                goal_vars(terms_view(goals@)),
                run_spec(database@, initial_state(terms_view(goals@), Map::empty()), 0, trace).1,
                run_spec(database@, initial_state(terms_view(goals@), Map::empty()), 0, trace).0.len()
                    == 0,
            ),
{
    let vars_in_goals = find_variables_in_goals(&goals);
    let found = batch_prove_all(goals, Substitution::new(), database, STEP_LIMIT);
    report(&vars_in_goals, &found.answers, found.complete)
}

/// One resolution: the first of `goals` is unified under `theta` with the
/// head of clause number `index` of its predicate, renamed by `renaming`.
/// Gives the goals and bindings after it: the renamed body followed by the
/// remaining goals, under the extended bindings. Gives `None` where there
/// is no such clause or the unification fails.
pub open spec fn resolve_spec(
    db: DatabaseView,
    goals: Seq<TermView>,
    theta: SubstView,
    index: nat,
    renaming: SubstView,
) -> Option<(Seq<TermView>, SubstView)> {
    if goals.len() == 0 {
        None
    } else {
        match predicate_key(goals[0]) {
            None => None,
            Some(key) => if db.contains_key(key) && index < db[key].len() {
                let renamed = rename_clause_spec(db[key][index as int], renaming);
                match unify_spec(
                    goals[0],
                    renamed.head,
                    Some(theta),
                    false,
                    unify_depth_spec(goals[0], renamed.head, Some(theta)),
                ) {
                    None => None,
                    Some(extended) => Some((renamed.body + goals.skip(1), extended)),
                }
            } else {
                None
            },
        }
    }
}

/// The choice made at one resolution: which clause, and how it is renamed.
pub struct Resolution {
    pub index: nat,
    pub renaming: SubstView,
}

/// A derivation: the resolutions `steps` made one after the other from
/// `goals` under `theta`. Gives the goals and bindings that it ends with,
/// or `None` where one of its resolutions is not possible.
pub open spec fn derive_spec(
    db: DatabaseView,
    goals: Seq<TermView>,
    theta: SubstView,
    steps: Seq<Resolution>,
) -> Option<(Seq<TermView>, SubstView)>
    decreases steps.len(),
{
    if steps.len() == 0 {
        Some((goals, theta))
    } else {
        match derive_spec(db, goals, theta, steps.drop_last()) {
            None => None,
            Some((mid_goals, mid_theta)) => resolve_spec(
                db,
                mid_goals,
                mid_theta,
                steps.last().index,
                steps.last().renaming,
            ),
        }
    }
}

/// Some derivation from `goals` under `theta` ends with `end_goals` under
/// `end_theta`.
pub open spec fn derivable(
    db: DatabaseView,
    goals: Seq<TermView>,
    theta: SubstView,
    end_goals: Seq<TermView>,
    end_theta: SubstView,
) -> bool {
    exists|steps: Seq<Resolution>| #[trigger]
        derive_spec(db, goals, theta, steps) == Some((end_goals, end_theta))
}

/// `answer` is justified by the database: some derivation from `goals`
/// under `theta` ends with no goal left under `answer`. Every goal that
/// came up on the way, those of the query and those of the clause bodies,
/// was unified with the renamed head of a clause of the database.
pub open spec fn is_answer(
    db: DatabaseView,
    goals: Seq<TermView>,
    theta: SubstView,
    answer: SubstView,
) -> bool {
    derivable(db, goals, theta, Seq::empty(), answer)
}

/// A derivation keeps the bindings that it started from: it binds
/// variables that were unbound and changes nothing else.
pub proof fn lemma_derivation_extends(
    db: DatabaseView,
    goals: Seq<TermView>,
    theta: SubstView,
    steps: Seq<Resolution>,
)
    ensures
        derive_spec(db, goals, theta, steps) matches Some(end) ==> theta.submap_of(end.1),
    decreases steps.len(),
{
    if steps.len() == 0 {
    } else {
        lemma_derivation_extends(db, goals, theta, steps.drop_last());
        if let Some(mid) = derive_spec(db, goals, theta, steps.drop_last()) {
            if let Some(end) = resolve_spec(
                db,
                mid.0,
                mid.1,
                steps.last().index,
                steps.last().renaming,
            ) {
                let key = predicate_key(mid.0[0])->0;
                let renamed = rename_clause_spec(
                    db[key][steps.last().index as int],
                    steps.last().renaming,
                );
                lemma_unify_extends(
                    mid.0[0],
                    renamed.head,
                    Some(mid.1),
                    false,
                    unify_depth_spec(mid.0[0], renamed.head, Some(mid.1)),
                );
                assert(mid.1.submap_of(end.1));
                assert forall|k: Seq<char>| #[trigger] theta.dom().contains(k) implies end.1.dom().contains(
                    k,
                ) && theta[k] == end.1[k] by {
                    assert(mid.1.dom().contains(k));
                }
            }
        }
    }
}

/// An answer keeps the bindings that the search started from.
pub proof fn lemma_answer_extends(
    db: DatabaseView,
    goals: Seq<TermView>,
    theta: SubstView,
    answer: SubstView,
)
    requires
        is_answer(db, goals, theta, answer),
    ensures
        theta.submap_of(answer),
{
    let steps = choose|steps: Seq<Resolution>| #[trigger]
        derive_spec(db, goals, theta, steps) == Some((Seq::<TermView>::empty(), answer));
    lemma_derivation_extends(db, goals, theta, steps);
}

/// Every choice point of `st` is the end of a derivation from `goals` under
/// `theta`.
pub open spec fn justified(
    db: DatabaseView,
    goals: Seq<TermView>,
    theta: SubstView,
    st: Seq<FrameView>,
) -> bool {
    forall|i: int|
        0 <= i < st.len() ==> derivable(db, goals, theta, (#[trigger] st[i]).goals, st[i].bindings)
}

/// One step keeps the choice points justified, and an answer that it finds
/// is justified.
pub proof fn lemma_step_justified(
    db: DatabaseView,
    goals: Seq<TermView>,
    theta: SubstView,
    st: Seq<FrameView>,
    serial: nat,
    renaming: SubstView,
)
    requires
        justified(db, goals, theta, st),
    ensures
        justified(db, goals, theta, step_spec(db, st, serial, renaming).0),
        step_spec(db, st, serial, renaming).1 is Some ==> is_answer(
            db,
            goals,
            theta,
            step_spec(db, st, serial, renaming).1->0,
        ),
{
    if st.len() > 0 {
        let top = st.last();
        let rest = st.drop_last();
        assert forall|i: int| 0 <= i < rest.len() implies derivable(
            db,
            goals,
            theta,
            (#[trigger] rest[i]).goals,
            rest[i].bindings,
        ) by {}
        if top.goals.len() == 0 {
            assert(top.goals =~= Seq::empty());
        } else {
            match step_clause(db, st) {
                None => {},
                Some(clause) => {
                    let renamed = rename_clause_spec(clause, renaming);
                    let retry = FrameView {
                        goals: top.goals,
                        bindings: top.bindings,
                        next: top.next + 1,
                    };
                    let kept = rest.push(retry);
                    assert forall|i: int| 0 <= i < kept.len() implies derivable(
                        db,
                        goals,
                        theta,
                        (#[trigger] kept[i]).goals,
                        kept[i].bindings,
                    ) by {}
                    match unify_spec(
                        top.goals[0],
                        renamed.head,
                        Some(top.bindings),
                        false,
                        unify_depth_spec(top.goals[0], renamed.head, Some(top.bindings)),
                    ) {
                        None => {},
                        Some(extended) => {
                            let opened = FrameView {
                                goals: renamed.body + top.goals.skip(1),
                                bindings: extended,
                                next: 0,
                            };
                            let steps = choose|steps: Seq<Resolution>| #[trigger]
                                derive_spec(db, goals, theta, steps) == Some(
                                    (top.goals, top.bindings),
                                );
                            let longer = steps.push(Resolution { index: top.next, renaming });
                            assert(longer.drop_last() =~= steps);
                            assert(derive_spec(db, goals, theta, longer) == Some(
                                (opened.goals, opened.bindings),
                            ));
                            let grown = kept.push(opened);
                            assert forall|i: int| 0 <= i < grown.len() implies derivable(
                                db,
                                goals,
                                theta,
                                (#[trigger] grown[i]).goals,
                                grown[i].bindings,
                            ) by {}
                        },
                    }
                },
            }
        }
    }
}

/// A run keeps the choice points justified, and every answer that it finds
/// is justified.
pub proof fn lemma_run_justified(
    db: DatabaseView,
    goals: Seq<TermView>,
    theta: SubstView,
    st: Seq<FrameView>,
    serial: nat,
    trace: Seq<SubstView>,
)
    requires
        justified(db, goals, theta, st),
    ensures
        justified(db, goals, theta, run_spec(db, st, serial, trace).0),
        forall|i: int|
            0 <= i < run_spec(db, st, serial, trace).1.len() ==> is_answer(
                db,
                goals,
                theta,
                #[trigger] run_spec(db, st, serial, trace).1[i],
            ),
    decreases trace.len(),
{
    if trace.len() > 0 {
        lemma_run_justified(db, goals, theta, st, serial, trace.drop_last());
        let (mid, answers, count) = run_spec(db, st, serial, trace.drop_last());
        lemma_step_justified(db, goals, theta, mid, count, trace.last());
    }
}

/// Answers are sound: every answer that a search from `goals` under `theta`
/// finds, whatever the renamings it takes and however long it runs, is
/// justified by a derivation from the database.
pub proof fn lemma_answers_sound(
    db: DatabaseView,
    goals: Seq<TermView>,
    theta: SubstView,
    serial: nat,
    trace: Seq<SubstView>,
)
    ensures
        forall|i: int|
            0 <= i < run_spec(db, initial_state(goals, theta), serial, trace).1.len() ==> is_answer(
                db,
                goals,
                theta,
                #[trigger] run_spec(db, initial_state(goals, theta), serial, trace).1[i],
            ),
{
    let st = initial_state(goals, theta);
    assert(justified(db, goals, theta, st)) by {
        let none = Seq::<Resolution>::empty();
        assert(derive_spec(db, goals, theta, none) == Some((goals, theta)));
    }
    lemma_run_justified(db, goals, theta, st, serial, trace);
}

} // verus!
