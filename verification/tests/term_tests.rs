use esgueva::subst::Substitution;
use esgueva::term::Term;
use esgueva::text::{answer_line, int_to_string, join, nat_to_string, report};
use esgueva::walk::{project, subst_bindings, walk_term};

fn atom(name: &str) -> Term {
    Term::Atom(name.to_string())
}

fn var(name: &str) -> Term {
    Term::Var(name.to_string())
}

fn compound(functor: &str, args: Vec<Term>) -> Term {
    Term::Str(functor.to_string(), args)
}

#[test]
fn term_equality_is_structural() {
    assert_eq!(atom("a"), atom("a"));
    assert_ne!(atom("a"), atom("b"));
    assert_ne!(atom("a"), var("a"));
    assert_eq!(var("X"), var("X"));
    assert_eq!(Term::Number(3), Term::Number(3));
    assert_ne!(Term::Number(3), Term::Number(4));
    assert_ne!(Term::Number(3), atom("3"));
    assert_eq!(
        compound("f", vec![var("X"), compound("g", vec![atom("a")])]),
        compound("f", vec![var("X"), compound("g", vec![atom("a")])])
    );
    assert_ne!(
        compound("f", vec![var("X"), compound("g", vec![atom("a")])]),
        compound("f", vec![var("X"), compound("g", vec![atom("b")])])
    );
    assert_ne!(compound("f", vec![atom("a")]), compound("g", vec![atom("a")]));
    assert_ne!(compound("f", vec![atom("a")]), compound("f", vec![atom("a"), atom("a")]));
    assert_ne!(compound("f", vec![atom("a")]), atom("f"));
}

#[test]
fn term_clone_is_equal() {
    let t = compound("f", vec![var("X"), Term::Number(-7), compound("g", vec![atom("a")])]);
    assert_eq!(t.clone(), t);
}

#[test]
fn term_text() {
    assert_eq!(atom("duero").to_string(), "duero");
    assert_eq!(var("River").to_string(), "River");
    assert_eq!(Term::Number(0).to_string(), "0");
    assert_eq!(Term::Number(42).to_string(), "42");
    assert_eq!(Term::Number(-42).to_string(), "-42");
    assert_eq!(compound("f", vec![atom("a")]).to_string(), "f(a)");
    assert_eq!(
        compound("f", vec![var("X"), atom("b"), compound("g", vec![var("T"), Term::Number(1)])])
            .to_string(),
        "f(X,b,g(T,1))"
    );
    assert_eq!(compound("f", vec![]).to_string(), "f()");
}

#[test]
fn integers_in_decimal() {
    assert_eq!(nat_to_string(0), "0");
    assert_eq!(nat_to_string(9), "9");
    assert_eq!(nat_to_string(10), "10");
    assert_eq!(nat_to_string(1234567890), "1234567890");
    assert_eq!(nat_to_string(u64::MAX), "18446744073709551615");
    assert_eq!(int_to_string(0), "0");
    assert_eq!(int_to_string(-1), "-1");
    assert_eq!(int_to_string(i64::MAX), "9223372036854775807");
    assert_eq!(int_to_string(i64::MIN), "-9223372036854775808");
}

#[test]
fn join_puts_the_separator_between() {
    assert_eq!(join(&vec![], ","), "");
    assert_eq!(join(&vec!["a".to_string()], ","), "a");
    assert_eq!(join(&vec!["a".to_string(), "b".to_string(), "".to_string()], ";\n"), "a;\nb;\n");
}

#[test]
fn substitution_is_a_map() {
    let mut s = Substitution::new();
    assert!(s.is_empty());
    assert_eq!(s.len(), 0);
    assert_eq!(s.get(&"X".to_string()), None);
    s.insert("X".into(), atom("a"));
    s.insert("Y".into(), var("X"));
    assert_eq!(s.len(), 2);
    assert!(!s.is_empty());
    assert!(s.contains_key(&"X".to_string()));
    assert!(!s.contains_key(&"Z".to_string()));
    assert_eq!(s.get(&"Y".to_string()), Some(&var("X")));
    s.insert("X".into(), atom("b"));
    assert_eq!(s.len(), 2);
    assert_eq!(s.get(&"X".to_string()), Some(&atom("b")));
}

#[test]
fn substitution_equality_ignores_order() {
    let mut a = Substitution::new();
    a.insert("X".into(), atom("a"));
    a.insert("Y".into(), atom("b"));
    let mut b = Substitution::new();
    b.insert("Y".into(), atom("b"));
    b.insert("X".into(), atom("a"));
    assert_eq!(a, b);
    assert_eq!(a.clone(), a);
    let mut c = Substitution::new();
    c.insert("X".into(), atom("a"));
    assert_ne!(a, c);
    c.insert("Y".into(), atom("c"));
    assert_ne!(a, c);
    let mut d = Substitution::new();
    d.insert("X".into(), atom("a"));
    d.insert("Z".into(), atom("b"));
    assert_ne!(a, d);
}

#[test]
fn walk_follows_chains() {
    let mut s = Substitution::new();
    s.insert("X".into(), var("Y"));
    s.insert("Y".into(), compound("f", vec![var("Z"), var("W")]));
    s.insert("Z".into(), atom("a"));
    assert_eq!(subst_bindings(&s, &var("X")), compound("f", vec![atom("a"), var("W")]));
    assert_eq!(subst_bindings(&s, &var("W")), var("W"));
    assert_eq!(subst_bindings(&s, &atom("X")), atom("X"));
    assert_eq!(subst_bindings(&s, &Term::Number(5)), Term::Number(5));
    assert_eq!(
        subst_bindings(&s, &compound("g", vec![var("Z"), var("X")])),
        compound("g", vec![atom("a"), compound("f", vec![atom("a"), var("W")])])
    );
}

#[test]
fn walk_is_idempotent_without_cycles() {
    let mut s = Substitution::new();
    s.insert("X".into(), compound("f", vec![var("Y")]));
    s.insert("Y".into(), var("Z"));
    s.insert("Z".into(), atom("a"));
    let t = compound("g", vec![var("X"), var("Y"), var("V")]);
    let once = subst_bindings(&s, &t);
    let twice = subst_bindings(&s, &once);
    assert_eq!(once, compound("g", vec![compound("f", vec![atom("a")]), atom("a"), var("V")]));
    assert_eq!(once, twice);
}

#[test]
fn walk_ends_on_a_cycle() {
    let mut s = Substitution::new();
    s.insert("X".into(), compound("f", vec![var("X")]));
    assert_eq!(subst_bindings(&s, &var("X")), compound("f", vec![var("X")]));
    let mut s = Substitution::new();
    s.insert("X".into(), var("Y"));
    s.insert("Y".into(), var("X"));
    assert_eq!(subst_bindings(&s, &var("X")), var("X"));
    assert_eq!(subst_bindings(&s, &var("Y")), var("Y"));
}

#[test]
fn walk_with_a_depth() {
    let mut s = Substitution::new();
    s.insert("X".into(), var("Y"));
    s.insert("Y".into(), var("Z"));
    s.insert("Z".into(), atom("a"));
    assert_eq!(walk_term(&s, &var("X"), 0), var("X"));
    assert_eq!(walk_term(&s, &var("X"), 1), var("Y"));
    assert_eq!(walk_term(&s, &var("X"), 2), var("Z"));
    assert_eq!(walk_term(&s, &var("X"), 3), atom("a"));
    assert_eq!(walk_term(&s, &var("X"), 30), atom("a"));
}

#[test]
fn answers_as_text() {
    let mut s = Substitution::new();
    s.insert("X".into(), atom("socrates"));
    s.insert("Y".into(), compound("f", vec![var("X"), var("Z")]));
    let vars = vec!["X".to_string(), "Y".to_string(), "Z".to_string()];
    assert_eq!(answer_line(&vars, &s), "X = socrates,Y = f(socrates,Z),Z = Z");
    assert_eq!(answer_line(&vec![], &s), "");
    assert_eq!(report(&vars, &vec![], true), "false.");
    assert_eq!(report(&vars, &vec![], false), "unfinished.");
    let mut t = Substitution::new();
    t.insert("X".into(), atom("plato"));
    let answers = vec![s, t];
    assert_eq!(report(&vec!["X".to_string()], &answers, true), "X = socrates;\nX = plato");
    assert_eq!(
        report(&vec!["X".to_string()], &answers, false),
        "X = socrates;\nX = plato;\nunfinished."
    );
}

#[test]
fn projection_onto_query_variables() {
    let mut s = Substitution::new();
    s.insert("X".into(), compound("f", vec![var("Y")]));
    s.insert("Y".into(), atom("a"));
    s.insert("Hidden".into(), atom("h"));
    let vars = vec!["Y".to_string(), "X".to_string(), "Open".to_string()];
    assert_eq!(
        project(&vars, &s),
        vec![atom("a"), compound("f", vec![atom("a")]), var("Open")]
    );
    assert_eq!(project(&vec![], &s), Vec::<Term>::new());
}

#[test]
fn bindings_one_by_one() {
    let mut s = Substitution::new();
    assert_eq!(s.entry(0), None);
    s.insert("X".into(), atom("a"));
    s.insert("Y".into(), var("X"));
    s.insert("X".into(), atom("b"));
    assert_eq!(s.entry(0), Some((&"X".to_string(), &atom("b"))));
    assert_eq!(s.entry(1), Some((&"Y".to_string(), &var("X"))));
    assert_eq!(s.entry(2), None);
}
