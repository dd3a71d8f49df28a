use esgueva::database::{Clause, Database};
use esgueva::prover::{
    batch_prove, batch_prove_all, prove, prove_all, solve_interactive, top_level_prove, Action,
    Progress, Reply, Search,
};
use esgueva::rename::{
    clause_variables, find_variables_in_goals, fresh_name, fresh_variables, rename_clause,
    rename_term,
    rename_variables,
};
use esgueva::subst::Substitution;
use esgueva::term::Term;
use esgueva::text::answer_line;
use esgueva::walk::subst_bindings;

fn atom(name: &str) -> Term {
    Term::Atom(name.to_string())
}

fn var(name: &str) -> Term {
    Term::Var(name.to_string())
}

fn compound(functor: &str, args: Vec<Term>) -> Term {
    Term::Str(functor.to_string(), args)
}

fn likes_db() -> Database {
    let mut db = Database::new();
    db.add_clause(Clause {
        head: Term::Str("likes".into(), vec![Term::Atom("kim".into()), Term::Atom("robin".into())]),
        body: vec![],
    });
    db.add_clause(Clause {
        head: Term::Str("likes".into(), vec![Term::Atom("sandy".into()), Term::Atom("lee".into())]),
        body: vec![],
    });
    db.add_clause(Clause {
        head: Term::Str("likes".into(), vec![Term::Atom("sandy".into()), Term::Atom("kim".into())]),
        body: vec![],
    });
    db.add_clause(Clause {
        head: Term::Str("likes".into(), vec![Term::Atom("robin".into()), Term::Atom("cats".into())]),
        body: vec![],
    });
    db.add_clause(Clause {
        head: Term::Str("likes".into(), vec![Term::Atom("sandy".into()), Term::Var("X".into())]),
        body: vec![Term::Str("likes".into(), vec![Term::Var("X".into()), Term::Atom("cats".into())])],
    });
    db.add_clause(Clause {
        head: Term::Str("likes".into(), vec![Term::Atom("kim".into()), Term::Var("X".into())]),
        body: vec![
            Term::Str("likes".into(), vec![Term::Var("X".into()), Term::Atom("lee".into())]),
            Term::Str("likes".into(), vec![Term::Var("X".into()), Term::Atom("kim".into())]),
        ],
    });
    db.add_clause(Clause {
        head: Term::Str("likes".into(), vec![Term::Var("X".into()), Term::Var("X".into())]),
        body: vec![],
    });
    db
}

#[test]
fn socrates_test() {
    let mut db = Database::new();
    let clause = Clause {
        head: Term::Str("mortal".into(), vec![Term::Var("X".into())]),
        body: vec![Term::Str("human".into(), vec![Term::Var("X".into())])],
    };
    db.add_clause(clause);
    let clause = Clause {
        head: Term::Str("human".into(), vec![Term::Atom("socrates".into())]),
        body: vec![Term::Atom("true".into())],
    };
    db.add_clause(clause);

    let clause = Clause {
        head: Term::Atom("true".into()),
        body: Vec::new(),
    };
    db.add_clause(clause);

    let query1 = Term::Str("human".into(), vec![Term::Atom("socrates".into())]);
    let result = top_level_prove(vec![query1], &db);
    assert_eq!(result, "");

    let query2 = Term::Str("mortal".into(), vec![Term::Atom("socrates".into())]);
    let result = top_level_prove(vec![query2], &db);
    assert_eq!(result, "");

    let query3 = Term::Str("mortal".into(), vec![Term::Var("X".into())]);
    let result = top_level_prove(vec![query3], &db);
    assert_eq!(result, "X = socrates");

    let query4 = Term::Str("mrtl".into(), vec![Term::Atom("socrates".into())]);
    let result = top_level_prove(vec![query4], &db);
    assert_eq!(result, "false.");

    let query5 = Term::Str("mortal".into(), vec![Term::Atom("gepeto".into())]);
    let result = top_level_prove(vec![query5], &db);
    assert_eq!(result, "false.");
}

#[test]
fn likes() {
    let db = likes_db();

    let query1 = Term::Str("likes".into(), vec![Term::Atom("sandy".into()), Term::Var("Who".into())]);
    let result = top_level_prove(vec![query1], &db);
    assert_eq!(result, "Who = lee;\nWho = kim;\nWho = robin;\nWho = sandy;\nWho = cats;\nWho = sandy");

    let query2 = Term::Str("likes".into(), vec![Term::Var("Who".into()), Term::Atom("sandy".into())]);
    let result = top_level_prove(vec![query2], &db);
    assert_eq!(result, "Who = sandy;\nWho = kim;\nWho = sandy");

    let query3 = Term::Str("likes".into(), vec![Term::Atom("robin".into()), Term::Atom("lee".into())]);
    let result = top_level_prove(vec![query3], &db);
    assert_eq!(result, "false.");
}

#[test]
fn interactive_search_yields_answers_one_by_one() {
    let db = likes_db();
    let goals = vec![compound("likes", vec![var("Who"), atom("sandy")])];
    let vars = find_variables_in_goals(&goals);
    let mut search = Search::new(goals, Substitution::new());
    let mut lines: Vec<String> = Vec::new();
    loop {
        match prove_all(&mut search, &db, 10_000) {
            Progress::Answer(theta) => lines.push(answer_line(&vars, &theta)),
            Progress::Exhausted => break,
            Progress::Suspended => panic!("the budget is large enough"),
        }
    }
    assert_eq!(lines, vec!["Who = sandy", "Who = kim", "Who = sandy"]);
    assert!(search.is_exhausted());
}

#[test]
fn search_suspends_and_resumes() {
    let db = likes_db();
    let goals = vec![compound("likes", vec![atom("sandy"), var("Who")])];
    let vars = find_variables_in_goals(&goals);
    let mut search = Search::new(goals, Substitution::new());
    let mut lines: Vec<String> = Vec::new();
    let mut suspended = 0;
    loop {
        match prove_all(&mut search, &db, 1) {
            Progress::Answer(theta) => lines.push(answer_line(&vars, &theta)),
            Progress::Exhausted => break,
            Progress::Suspended => suspended += 1,
        }
    }
    assert_eq!(
        lines,
        vec!["Who = lee", "Who = kim", "Who = robin", "Who = sandy", "Who = cats", "Who = sandy"]
    );
    assert!(suspended > 0);
}

#[test]
fn prove_with_no_budget_is_suspended() {
    let db = likes_db();
    let goals = vec![compound("likes", vec![atom("sandy"), var("Who")])];
    let mut search = Search::new(goals, Substitution::new());
    assert!(matches!(prove_all(&mut search, &db, 0), Progress::Suspended));
    assert!(!search.is_exhausted());
}

#[test]
fn empty_query_has_one_answer() {
    let db = Database::new();
    let mut search = Search::new(vec![], Substitution::new());
    let answer = prove(&mut search, &db);
    assert_eq!(answer, Some(Substitution::new()));
    assert!(search.is_exhausted());
    assert_eq!(prove(&mut search, &db), None);
    assert_eq!(top_level_prove(vec![], &db), "");
}

#[test]
fn variable_and_number_goals_fail() {
    let db = likes_db();
    assert_eq!(top_level_prove(vec![var("G")], &db), "false.");
    assert_eq!(top_level_prove(vec![Term::Number(3)], &db), "false.");
}

#[test]
fn conjunction_is_solved_left_to_right() {
    let db = likes_db();
    let goals = vec![
        compound("likes", vec![var("A"), atom("cats")]),
        compound("likes", vec![atom("sandy"), var("A")]),
    ];
    let result = top_level_prove(goals, &db);
    assert_eq!(result, "A = robin;\nA = sandy;\nA = sandy;\nA = cats");
}

#[test]
fn batch_prove_collects_answers_in_clause_order() {
    let db = likes_db();
    let goal = compound("likes", vec![atom("sandy"), var("Who")]);
    let found = batch_prove(goal, Substitution::new(), &db, 10_000);
    assert!(found.complete);
    let answers = found.answers;
    assert_eq!(answers.len(), 6);
    let who = var("Who");
    let shown: Vec<String> =
        answers.iter().map(|theta| subst_bindings(theta, &who).to_string()).collect();
    assert_eq!(shown, vec!["lee", "kim", "robin", "sandy", "cats", "sandy"]);

    let goal = compound("likes", vec![atom("robin"), atom("lee")]);
    let found = batch_prove(goal, Substitution::new(), &db, 10_000);
    assert!(found.complete);
    assert!(found.answers.is_empty());
}

#[test]
fn batch_prove_all_stops_when_the_budget_is_spent() {
    let mut db = Database::new();
    db.add_clause(Clause { head: atom("loop"), body: vec![atom("loop")] });
    let found = batch_prove_all(vec![atom("loop")], Substitution::new(), &db, 1000);
    assert!(!found.complete);
    assert!(found.answers.is_empty());

    let mut db = Database::new();
    db.add_clause(Clause { head: compound("nat", vec![atom("z")]), body: vec![] });
    db.add_clause(Clause {
        head: compound("nat", vec![compound("s", vec![var("N")])]),
        body: vec![compound("nat", vec![var("N")])],
    });
    let goals = vec![compound("nat", vec![var("X")])];
    let found = batch_prove_all(goals, Substitution::new(), &db, 50);
    assert!(!found.complete);
    let answers = found.answers;
    assert!(answers.len() >= 3);
    let x = var("X");
    assert_eq!(subst_bindings(&answers[0], &x).to_string(), "z");
    assert_eq!(subst_bindings(&answers[1], &x).to_string(), "s(z)");
    assert_eq!(subst_bindings(&answers[2], &x).to_string(), "s(s(z))");
}

#[test]
fn renamed_clause_variables_are_disjoint() {
    let clause = Clause {
        head: compound("p", vec![var("X")]),
        body: vec![compound("q", vec![var("X"), var("Y")])],
    };
    let first = rename_variables(&clause, 7, 0).unwrap();
    let second = rename_variables(&clause, 7, 2).unwrap();
    let name_of = |clause: &Clause| match &clause.head {
        Term::Str(_, args) => match &args[0] {
            Term::Var(name) => name.clone(),
            _ => panic!("the head argument stays a variable"),
        },
        _ => panic!("the head stays compound"),
    };
    let x1 = name_of(&first);
    let x2 = name_of(&second);
    assert_ne!(x1, "X");
    assert_ne!(x2, "X");
    assert_ne!(x1, x2);
    assert_eq!(x1.len(), 38);
    assert!(x1.ends_with("-0"));
    assert!(x2.ends_with("-2"));
    assert_eq!(rename_variables(&clause, 7, 0), Some(first.clone()));
    assert_eq!(rename_variables(&clause, 7, usize::MAX - 1), None);
    assert!(rename_variables(&clause, 7, usize::MAX - 2).is_some());
    match &first.body[0] {
        Term::Str(functor, args) => {
            assert_eq!(functor, "q");
            assert_eq!(args[0], Term::Var(x1.clone()));
            assert_ne!(args[1], Term::Var(x1.clone()));
            assert_ne!(args[1], var("Y"));
        }
        _ => panic!("the body goal stays compound"),
    }
}

#[test]
fn clause_variables_do_not_leak_into_answers() {
    let mut db = Database::new();
    db.add_clause(Clause {
        head: compound("p", vec![var("X")]),
        body: vec![compound("q", vec![var("X")])],
    });
    db.add_clause(Clause { head: compound("q", vec![atom("a")]), body: vec![] });
    let goals = vec![compound("p", vec![var("A")]), compound("p", vec![var("B")])];
    let found = batch_prove_all(goals, Substitution::new(), &db, 10_000);
    assert!(found.complete);
    let answers = found.answers;
    assert_eq!(answers.len(), 1);
    let theta = &answers[0];
    assert!(!theta.contains_key(&"X".to_string()));
    assert_eq!(subst_bindings(theta, &var("A")), atom("a"));
    assert_eq!(subst_bindings(theta, &var("B")), atom("a"));
}

#[test]
fn interactive_turns() {
    let db = likes_db();
    let goals = vec![compound("likes", vec![atom("sandy"), var("Who")])];
    let vars = find_variables_in_goals(&goals);
    let mut search = Search::new(goals, Substitution::new());
    let first = solve_interactive(&mut search, &db, Reply::More, 10_000);
    match first {
        Action::Ask(theta) => assert_eq!(answer_line(&vars, &theta), "Who = lee"),
        _ => panic!("there is a first answer"),
    }
    let second = solve_interactive(&mut search, &db, Reply::More, 10_000);
    match second {
        Action::Ask(theta) => assert_eq!(answer_line(&vars, &theta), "Who = kim"),
        _ => panic!("there is a second answer"),
    }
    assert!(matches!(solve_interactive(&mut search, &db, Reply::Accept, 10_000), Action::Stop(true)));
    assert!(search.is_exhausted());
    assert!(matches!(solve_interactive(&mut search, &db, Reply::More, 10_000), Action::Stop(false)));

    let goals = vec![compound("likes", vec![atom("robin"), atom("lee")])];
    let mut search = Search::new(goals, Substitution::new());
    assert!(matches!(solve_interactive(&mut search, &db, Reply::More, 3), Action::Resume));
    assert!(matches!(solve_interactive(&mut search, &db, Reply::More, 10_000), Action::Stop(false)));
}

#[test]
fn variables_of_goals_in_order_of_first_occurrence() {
    let goals = vec![
        compound("f", vec![var("X"), atom("b"), compound("g", vec![var("T"), var("X")])]),
        var("Z"),
        compound("h", vec![var("T"), Term::Number(1), var("A")]),
        atom("X"),
    ];
    assert_eq!(find_variables_in_goals(&goals), vec!["X", "T", "Z", "A"]);
    assert_eq!(find_variables_in_goals(&vec![]), Vec::<String>::new());
}

#[test]
fn renaming_with_given_names() {
    let clause = Clause {
        head: compound("p", vec![var("X"), var("Y")]),
        body: vec![compound("q", vec![var("Y"), var("Z"), atom("a")]), var("X")],
    };
    assert_eq!(clause_variables(&clause), vec!["X", "Y", "Z"]);
    let mut renaming = Substitution::new();
    renaming.insert("X".into(), var("X1"));
    renaming.insert("Y".into(), var("Y1"));
    let renamed = rename_clause(&clause, &renaming);
    assert_eq!(
        renamed,
        Clause {
            head: compound("p", vec![var("X1"), var("Y1")]),
            body: vec![compound("q", vec![var("Y1"), var("Z"), atom("a")]), var("X1")],
        }
    );
    renaming.insert("X1".into(), var("X2"));
    assert_eq!(rename_term(&var("X"), &renaming), var("X1"));
    assert_eq!(rename_term(&atom("X"), &renaming), atom("X"));
}

#[test]
fn fresh_variables_have_generated_names() {
    let vars = vec!["X".to_string(), "Y".to_string()];
    let renaming = fresh_variables(&vars, 122192928000000000, 40).unwrap();
    assert_eq!(renaming.len(), 2);
    assert!(fresh_variables(&vars, 0, usize::MAX - 1).is_none());
    let names: Vec<String> = vars
        .iter()
        .map(|v| match renaming.get(v) {
            Some(Term::Var(name)) => name.clone(),
            _ => panic!("a variable is renamed to a variable"),
        })
        .collect();
    assert_ne!(names[0], names[1]);
    assert_eq!(names[0], "13814000-1dd2-11b2-8028-010203040506-40");
    assert_eq!(names[1], "13814000-1dd2-11b2-8029-010203040506-41");
    assert_eq!(fresh_name(1, 0), "00000001-0000-1000-8000-010203040506-0");
    assert_eq!(fresh_name(1, 16384 + 5), "00000001-0000-1000-8005-010203040506-16389");
    for name in names.iter() {
        let chars: Vec<char> = name.chars().take(36).collect();
        assert_eq!(chars.len(), 36);
        for (i, c) in chars.iter().enumerate() {
            if i == 8 || i == 13 || i == 18 || i == 23 {
                assert_eq!(*c, '-');
            } else {
                assert!(c.is_ascii_digit() || ('a'..='f').contains(c));
            }
        }
    }
}

#[test]
fn top_level_gives_up_after_the_step_limit() {
    let mut db = Database::new();
    db.add_clause(Clause { head: atom("loop"), body: vec![atom("loop")] });
    assert_eq!(top_level_prove(vec![atom("loop")], &db), "unfinished.");
    db.add_clause(Clause { head: atom("loop"), body: vec![] });
    let mut search = Search::new(vec![atom("loop")], Substitution::new());
    assert!(matches!(prove_all(&mut search, &db, 50), Progress::Suspended));
    assert!(!search.is_exhausted());
}

#[test]
fn search_starts_from_given_bindings() {
    let db = likes_db();
    let mut start = Substitution::new();
    start.insert("Who".into(), atom("kim"));
    let goals = vec![compound("likes", vec![atom("sandy"), var("Who")])];
    let answers = batch_prove_all(goals, start, &db, 10_000).answers;
    assert_eq!(answers.len(), 1);
    assert_eq!(answers[0].get(&"Who".to_string()), Some(&atom("kim")));

    let mut start = Substitution::new();
    start.insert("Who".into(), atom("nobody"));
    let goals = vec![compound("likes", vec![atom("sandy"), var("Who")])];
    let found = batch_prove_all(goals, start, &db, 10_000);
    assert!(found.complete && found.answers.is_empty());
}
