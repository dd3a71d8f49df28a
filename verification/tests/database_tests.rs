use esgueva::database::{Clause, Database, Predicate};
use esgueva::term::Term;

#[test]
fn add_rule() {
    let clause = Clause {
        head: Term::Str("mortal".into(), vec![Term::Var("X".into())]),
        body: vec![Term::Str("human".into(), vec![Term::Var("X".into())])],
    };

    let mut db = Database::new();
    db.add_clause(clause);
    let clauses = db.get_clauses(&Predicate { name: "mortal".into(), arity: 1 }).unwrap();
    assert_eq!(clauses.len(), 1);
}

#[test]
fn add_fact() {
    let clause = Clause {
        head: Term::Str("human".into(), vec![Term::Atom("socrates".into())]),
        body: vec![Term::Atom("true".into())],
    };

    let mut db = Database::new();
    db.add_clause(clause);
    let clauses = db.get_clauses(&Predicate { name: "human".into(), arity: 1 }).unwrap();
    assert_eq!(clauses.len(), 1);
    assert_eq!(clauses[0].body, vec![Term::Atom("true".into())]);
    let clauses = db.get_clauses(&Predicate { name: "human".into(), arity: 0 });
    assert!(clauses.is_none());
}

fn atom(name: &str) -> Term {
    Term::Atom(name.to_string())
}

fn fact(head: Term) -> Clause {
    Clause { head, body: vec![] }
}

fn key(name: &str, arity: usize) -> Predicate {
    Predicate { name: name.to_string(), arity }
}

#[test]
fn predicate_of_a_term() {
    assert_eq!(Predicate::from_term(&atom("true")), Some(key("true", 0)));
    assert_eq!(
        Predicate::from_term(&Term::Str("f".into(), vec![atom("a"), Term::Var("X".into())])),
        Some(key("f", 2))
    );
    assert_eq!(Predicate::from_term(&Term::Var("X".into())), None);
    assert_eq!(Predicate::from_term(&Term::Number(1)), None);
    assert_eq!(Predicate::from_clause(&fact(atom("a"))), Some(key("a", 0)));
    assert_eq!(Predicate::from_clause(&fact(Term::Var("A".into()))), None);
    assert_eq!(key("f", 2).clone(), key("f", 2));
    assert_ne!(key("f", 2), key("f", 1));
    assert_ne!(key("f", 2), key("g", 2));
}

#[test]
fn clauses_come_back_in_insertion_order() {
    let mut db = Database::new();
    let p = |x: &str| fact(Term::Str("p".into(), vec![atom(x)]));
    db.add_clause(p("a"));
    db.add_clause(fact(Term::Str("q".into(), vec![atom("z")])));
    db.add_clause(p("b"));
    db.add_clause(p("a"));
    db.add_clause(Clause { head: Term::Str("p".into(), vec![atom("c")]), body: vec![atom("true")] });
    let clauses = db.get_clauses(&key("p", 1)).unwrap();
    assert_eq!(
        clauses,
        &vec![
            p("a"),
            p("b"),
            p("a"),
            Clause { head: Term::Str("p".into(), vec![atom("c")]), body: vec![atom("true")] }
        ]
    );
    assert_eq!(db.get_clauses(&key("q", 1)).unwrap().len(), 1);
}

#[test]
fn cleared_predicate_is_gone() {
    let mut db = Database::new();
    db.add_clause(fact(Term::Str("p".into(), vec![atom("a")])));
    db.add_clause(fact(Term::Str("q".into(), vec![atom("a")])));
    db.clear_predicate(&key("p", 1));
    assert!(db.get_clauses(&key("p", 1)).is_none());
    assert_eq!(db.get_clauses(&key("q", 1)).unwrap().len(), 1);
    db.clear_predicate(&key("p", 1));
    db.clear_predicate(&key("r", 0));
    assert_eq!(db.get_clauses(&key("q", 1)).unwrap().len(), 1);
    db.add_clause(fact(Term::Str("p".into(), vec![atom("b")])));
    assert_eq!(
        db.get_clauses(&key("p", 1)).unwrap(),
        &vec![fact(Term::Str("p".into(), vec![atom("b")]))]
    );
}

#[test]
fn arities_are_independent() {
    let mut db = Database::new();
    db.add_clause(fact(atom("human")));
    db.add_clause(fact(Term::Str("human".into(), vec![atom("socrates")])));
    db.add_clause(fact(Term::Str("human".into(), vec![atom("a"), atom("b")])));
    db.add_clause(fact(Term::Str("human".into(), vec![atom("plato")])));
    assert_eq!(db.get_clauses(&key("human", 0)).unwrap().len(), 1);
    assert_eq!(db.get_clauses(&key("human", 1)).unwrap().len(), 2);
    assert_eq!(db.get_clauses(&key("human", 2)).unwrap().len(), 1);
    assert!(db.get_clauses(&key("human", 3)).is_none());
    db.clear_predicate(&key("human", 1));
    assert_eq!(db.get_clauses(&key("human", 0)).unwrap().len(), 1);
    assert!(db.get_clauses(&key("human", 1)).is_none());
    assert_eq!(db.get_clauses(&key("human", 2)).unwrap().len(), 1);
}

#[test]
fn clauses_without_a_predicate_are_dropped() {
    let mut db = Database::new();
    db.add_clause(fact(Term::Var("X".into())));
    db.add_clause(Clause { head: Term::Number(7), body: vec![atom("true")] });
    assert!(db.get_clauses(&key("X", 0)).is_none());
    assert!(db.get_clauses(&key("7", 0)).is_none());
    db.add_clause(fact(atom("a")));
    assert_eq!(db.get_clauses(&key("a", 0)).unwrap().len(), 1);
}

#[test]
fn clear_all_empties_the_database() {
    let mut db = Database::new();
    db.add_clause(fact(atom("a")));
    db.add_clause(fact(atom("b")));
    db.clear_all();
    assert!(db.get_clauses(&key("a", 0)).is_none());
    assert!(db.get_clauses(&key("b", 0)).is_none());
    db.add_clause(fact(atom("a")));
    assert_eq!(db.get_clauses(&key("a", 0)).unwrap().len(), 1);
}
