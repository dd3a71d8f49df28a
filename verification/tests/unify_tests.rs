use esgueva::subst::Substitution;
use esgueva::term::Term;
use esgueva::rename::count_variables;
use esgueva::unify::{
    occurs, occurs_check, unify, unify_bounded, unify_depth, unify_variable,
};
use esgueva::walk::subst_bindings;

fn atom(name: &str) -> Term {
    Term::Atom(name.to_string())
}

fn var(name: &str) -> Term {
    Term::Var(name.to_string())
}

fn compound(functor: &str, args: Vec<Term>) -> Term {
    Term::Str(functor.to_string(), args)
}

#[test]
fn unify_atoms() {
    let x = Term::Atom("duero".into());
    let y = Term::Atom("duero".into());
    let bindings = unify(x, y, Some(Substitution::new()), false);
    let expected = Some(Substitution::new());
    assert_eq!(expected, bindings);
}

#[test]
fn unify_atoms_fail() {
    let x = Term::Atom("duero".into());
    let y = Term::Atom("pisuerga".into());
    let bindings = unify(x, y, Some(Substitution::new()), false);
    let expected = None;
    assert_eq!(expected, bindings);
}

#[test]
fn unify_atom_var() {
    let x = Term::Var("River".into());
    let y = Term::Atom("duero".into());
    let bindings = unify(x, y, Some(Substitution::new()), false);
    let mut expected = Substitution::new();
    expected.insert("River".into(), Term::Atom("duero".into()));
    assert_eq!(Some(expected), bindings);
}

#[test]
fn unify_atom_var_2() {
    let y = Term::Var("River".into());
    let x = Term::Atom("duero".into());
    let bindings = unify(x, y, Some(Substitution::new()), false);
    let mut expected = Substitution::new();
    expected.insert("River".into(), Term::Atom("duero".into()));
    assert_eq!(Some(expected), bindings);
}

#[test]
fn unify_var() {
    let x = Term::Var("X".into());
    let y = Term::Var("Y".into());
    let bindings = unify(x, y, Some(Substitution::new()), false);
    let mut expected = Substitution::new();
    expected.insert("X".into(), Term::Var("Y".into()));
    assert_eq!(Some(expected), bindings);
}

#[test]
fn unify_str() {
    let x = Term::Str("f".into(), vec![Term::Var("X".into()), Term::Atom("b".into())]);
    let y = Term::Str("f".into(), vec![Term::Atom("a".into()), Term::Var("Y".into())]);
    let bindings = unify(x, y, Some(Substitution::new()), false);
    let mut expected = Substitution::new();
    expected.insert("X".into(), Term::Atom("a".into()));
    expected.insert("Y".into(), Term::Atom("b".into()));
    assert_eq!(Some(expected), bindings);
}

#[test]
fn unify_str_fail() {
    let x = Term::Str("f".into(), vec![Term::Var("X".into()), Term::Atom("b".into())]);
    let y = Term::Str("g".into(), vec![Term::Atom("a".into()), Term::Var("Y".into())]);
    let bindings = unify(x, y, Some(Substitution::new()), false);
    assert_eq!(None, bindings);
}

#[test]
fn unify_str_fail_2() {
    let x = Term::Str("f".into(), vec![Term::Var("X".into()), Term::Atom("b".into())]);
    let y = Term::Str("f".into(), vec![Term::Atom("a".into())]);
    let bindings = unify(x, y, Some(Substitution::new()), false);
    assert_eq!(None, bindings);
}

#[test]
fn unify_fxy_norvig_bug() {
    let x = Term::Str("f".into(), vec![Term::Var("X".into()), Term::Var("Y".into())]);
    let y = Term::Str("f".into(), vec![Term::Var("Y".into()), Term::Var("X".into())]);
    let bindings = unify(x, y, Some(Substitution::new()), false);
    let mut expected = Substitution::new();
    expected.insert("X".into(), Term::Var("Y".into()));
    assert_eq!(Some(expected), bindings);
}

#[test]
fn unify_cyclic() {
    let x = Term::Var("X".into());
    let y = Term::Str("f".into(), vec![Term::Var("X".into())]);
    let bindings = unify(x, y, Some(Substitution::new()), true);
    assert_eq!(None, bindings);
}

#[test]
fn unify_cyclic_without_occurs_check_binds() {
    let x = var("X");
    let y = compound("f", vec![var("X")]);
    let bindings = unify(x, y, Some(Substitution::new()), false);
    let mut expected = Substitution::new();
    expected.insert("X".into(), compound("f", vec![var("X")]));
    assert_eq!(Some(expected), bindings);
}

#[test]
fn unify_compound_arguments_with_numbers() {
    let x = compound("f", vec![var("X"), Term::Number(4)]);
    let y = compound("f", vec![Term::Number(4), var("X")]);
    let bindings = unify(x, y, Some(Substitution::new()), false);
    let mut expected = Substitution::new();
    expected.insert("X".into(), Term::Number(4));
    assert_eq!(Some(expected), bindings);

    let x = compound("f", vec![var("X"), Term::Number(4)]);
    let y = compound("f", vec![Term::Number(5), var("X")]);
    assert_eq!(None, unify(x, y, Some(Substitution::new()), false));
}

#[test]
fn unify_mixed_kinds_fail() {
    assert_eq!(None, unify(atom("a"), Term::Number(1), Some(Substitution::new()), false));
    assert_eq!(None, unify(Term::Number(1), Term::Number(2), Some(Substitution::new()), false));
    assert_eq!(
        None,
        unify(atom("f"), compound("f", vec![atom("a")]), Some(Substitution::new()), false)
    );
    assert_eq!(
        Some(Substitution::new()),
        unify(Term::Number(7), Term::Number(7), Some(Substitution::new()), false)
    );
}

#[test]
fn unify_without_bindings_fails() {
    assert_eq!(None, unify(atom("a"), atom("a"), None, false));
    assert_eq!(None, unify(var("X"), atom("a"), None, true));
}

#[test]
fn unify_is_reflexive() {
    let terms = vec![
        atom("a"),
        var("X"),
        Term::Number(-3),
        compound("f", vec![var("X"), compound("g", vec![atom("a"), var("Y")])]),
    ];
    let mut theta = Substitution::new();
    theta.insert("X".into(), atom("b"));
    for t in terms.iter() {
        assert_eq!(unify(t.clone(), t.clone(), Some(Substitution::new()), false), Some(Substitution::new()));
        assert_eq!(unify(t.clone(), t.clone(), Some(Substitution::new()), true), Some(Substitution::new()));
        assert_eq!(unify(t.clone(), t.clone(), Some(theta.clone()), true), Some(theta.clone()));
        assert_eq!(unify_bounded(t, t, Some(theta.clone()), true, 0), Some(theta.clone()));
    }
}

#[test]
fn unify_with_a_ground_term_is_symmetric() {
    let ground = compound("f", vec![atom("a"), compound("g", vec![Term::Number(1), atom("b")]), atom("a")]);
    let patterns = vec![
        compound("f", vec![var("X"), var("Y"), var("X")]),
        compound("f", vec![var("X"), compound("g", vec![var("Y"), var("Z")]), var("Z")]),
        compound("f", vec![var("X"), var("X"), var("X")]),
        compound("h", vec![var("X")]),
        var("W"),
        atom("a"),
    ];
    for p in patterns.iter() {
        for occurs in [false, true] {
            let left = unify(p.clone(), ground.clone(), Some(Substitution::new()), occurs);
            let right = unify(ground.clone(), p.clone(), Some(Substitution::new()), occurs);
            assert_eq!(left, right);
        }
    }
    let mut expected = Substitution::new();
    expected.insert("X".into(), atom("a"));
    expected.insert("Y".into(), compound("g", vec![Term::Number(1), atom("b")]));
    assert_eq!(
        unify(patterns[0].clone(), ground.clone(), Some(Substitution::new()), true),
        Some(expected)
    );
    assert_eq!(unify(patterns[1].clone(), ground.clone(), Some(Substitution::new()), true), None);
}

#[test]
fn unify_follows_bindings() {
    let mut theta = Substitution::new();
    theta.insert("X".into(), atom("a"));
    assert_eq!(unify(var("X"), atom("a"), Some(theta.clone()), false), Some(theta.clone()));
    assert_eq!(unify(var("X"), atom("b"), Some(theta.clone()), false), None);
    assert_eq!(unify(atom("a"), var("X"), Some(theta.clone()), false), Some(theta.clone()));
    let mut expected = theta.clone();
    expected.insert("Y".into(), atom("a"));
    assert_eq!(unify(var("Y"), var("X"), Some(theta.clone()), false), Some(expected.clone()));
    assert_eq!(unify(var("X"), var("Y"), Some(theta.clone()), false), Some(expected));
}

#[test]
fn unify_keeps_the_bindings_it_was_given() {
    let mut theta = Substitution::new();
    theta.insert("A".into(), compound("f", vec![var("B")]));
    theta.insert("C".into(), atom("c"));
    let x = compound("p", vec![var("A"), var("D")]);
    let y = compound("p", vec![compound("f", vec![atom("b")]), var("C")]);
    let result = unify(x, y, Some(theta.clone()), true).unwrap();
    assert_eq!(result.get(&"A".to_string()), Some(&compound("f", vec![var("B")])));
    assert_eq!(result.get(&"C".to_string()), Some(&atom("c")));
    assert_eq!(result.get(&"B".to_string()), Some(&atom("b")));
    assert_eq!(result.get(&"D".to_string()), Some(&atom("c")));
    assert_eq!(result.len(), 4);
}

#[test]
fn occurs_check_looks_through_bindings() {
    let mut theta = Substitution::new();
    theta.insert("Y".into(), compound("g", vec![var("X")]));
    let x = "X".to_string();
    assert!(occurs(&x, &var("X"), &theta, 10));
    assert!(occurs(&x, &var("Y"), &theta, 10));
    assert!(occurs(&x, &compound("f", vec![atom("a"), var("Y")]), &theta, 10));
    assert!(!occurs(&x, &compound("f", vec![atom("a"), var("Z")]), &theta, 10));
    assert!(!occurs(&x, &atom("X"), &theta, 10));
    assert!(occurs(&x, &var("Y"), &theta, 0));
    assert_eq!(unify(var("X"), compound("f", vec![var("Y")]), Some(theta.clone()), true), None);
    assert_eq!(occurs_check(&x, &var("Y"), Some(theta.clone()), true, 10), None);
    assert_eq!(occurs_check(&x, &var("Y"), Some(theta.clone()), false, 10), Some(theta.clone()));
    assert_eq!(occurs_check(&x, &var("Z"), Some(theta.clone()), true, 10), Some(theta.clone()));
    assert_eq!(occurs_check(&x, &var("Z"), None, false, 10), None);
}

#[test]
fn unify_gives_up_when_the_depth_runs_out() {
    let mut theta = Substitution::new();
    theta.insert("X".into(), var("Y"));
    theta.insert("Y".into(), var("Z"));
    let mut expected = theta.clone();
    expected.insert("Z".into(), atom("a"));
    assert_eq!(unify_bounded(&var("X"), &atom("a"), Some(theta.clone()), false, 2), Some(expected.clone()));
    assert_eq!(unify_bounded(&var("X"), &atom("a"), Some(theta.clone()), false, 1), None);
    assert_eq!(unify_variable(&"X".to_string(), &atom("a"), Some(theta.clone()), false, 2), Some(expected));
    assert_eq!(unify_variable(&"X".to_string(), &atom("a"), Some(theta.clone()), false, 0), None);

    let x = compound("f", vec![var("X"), var("Y"), var("X")]);
    let y = compound("f", vec![compound("g", vec![var("Y")]), compound("g", vec![var("X")]), var("Y")]);
    assert_eq!(unify_bounded(&x, &y, Some(Substitution::new()), false, 50), None);
    assert_eq!(unify_bounded(&x, &y, Some(Substitution::new()), true, 50), None);
}

#[test]
fn a_short_depth_can_fail_in_one_order_only() {
    // f(X1, .., X7, X1) against f(X2, .., X8, a): in this order the last
    // pair follows the chain X1, X2, .., X8; in the other order every
    // variable is bound to X1 at once.
    let name = |i: usize| format!("X{}", i);
    let mut left: Vec<Term> = (1..8).map(|i| Term::Var(name(i))).collect();
    left.push(Term::Var(name(1)));
    let mut right: Vec<Term> = (2..9).map(|i| Term::Var(name(i))).collect();
    right.push(atom("a"));
    let x = compound("f", left);
    let y = compound("f", right);
    assert_eq!(unify_bounded(&x, &y, Some(Substitution::new()), true, 5), None);
    assert!(unify_bounded(&y, &x, Some(Substitution::new()), true, 5).is_some());
    let forth = unify_bounded(&x, &y, Some(Substitution::new()), true, 7).unwrap();
    let back = unify_bounded(&y, &x, Some(Substitution::new()), true, 7).unwrap();
    assert_ne!(forth, back);
    for i in 1..9 {
        let v = Term::Var(name(i));
        assert_eq!(subst_bindings(&forth, &v), atom("a"));
        assert_eq!(subst_bindings(&back, &v), atom("a"));
    }
}

#[test]
fn both_orders_bind_differently_and_mean_the_same() {
    let x = compound("f", vec![var("X"), var("Y"), compound("g", vec![var("X")])]);
    let y = compound("f", vec![var("Y"), var("Z"), var("W")]);
    let forth = unify(x.clone(), y.clone(), Some(Substitution::new()), true).unwrap();
    let back = unify(y.clone(), x.clone(), Some(Substitution::new()), true).unwrap();
    assert_ne!(forth, back);
    let vars = ["X", "Y", "Z", "W"];
    for a in vars.iter() {
        for b in vars.iter() {
            let same_forth = subst_bindings(&forth, &var(a))
                == subst_bindings(&forth, &var(b));
            let same_back = subst_bindings(&back, &var(a))
                == subst_bindings(&back, &var(b));
            assert_eq!(same_forth, same_back);
        }
    }
    assert_eq!(
        subst_bindings(&forth, &x),
        subst_bindings(&forth, &y)
    );
    assert_eq!(
        subst_bindings(&back, &x),
        subst_bindings(&back, &y)
    );
}

#[test]
fn long_chains_of_bindings_unify_in_both_orders() {
    // f(X1, .., X1200, X1) against f(X2, .., X1201, a): in one order the
    // last pair follows 1200 bindings.
    let name = |i: usize| format!("X{}", i);
    let mut left: Vec<Term> = (1..1201).map(|i| Term::Var(name(i))).collect();
    left.push(Term::Var(name(1)));
    let mut right: Vec<Term> = (2..1202).map(|i| Term::Var(name(i))).collect();
    right.push(atom("a"));
    let x = compound("f", left);
    let y = compound("f", right);
    for occurs in [false, true] {
        let forth = unify(x.clone(), y.clone(), Some(Substitution::new()), occurs).unwrap();
        let back = unify(y.clone(), x.clone(), Some(Substitution::new()), occurs).unwrap();
        assert_eq!(forth.len(), 1201);
        assert_eq!(back.len(), 1201);
        for i in [1, 2, 600, 1200, 1201] {
            let v = Term::Var(name(i));
            assert_eq!(subst_bindings(&forth, &v), atom("a"));
            assert_eq!(subst_bindings(&back, &v), atom("a"));
        }
    }
}

#[test]
fn unify_fails_where_the_bindings_go_round() {
    // Without the occurs check the first two pairs bind X to g(Y) and Y to
    // g(X); the third pair then goes round and round.
    let x = compound("f", vec![var("X"), var("Y"), var("X")]);
    let y = compound(
        "f",
        vec![compound("g", vec![var("Y")]), compound("g", vec![var("X")]), var("Y")],
    );
    assert_eq!(unify(x.clone(), y.clone(), Some(Substitution::new()), false), None);
    assert_eq!(unify(y.clone(), x.clone(), Some(Substitution::new()), false), None);
    assert_eq!(unify(x.clone(), y.clone(), Some(Substitution::new()), true), None);
    assert_eq!(unify(y, x, Some(Substitution::new()), true), None);
}

#[test]
fn the_depth_of_unify_counts_the_variables() {
    let x = compound("f", vec![var("X"), var("Y"), var("X"), atom("a")]);
    let y = compound("g", vec![var("Y"), var("Z")]);
    assert_eq!(unify_depth(&x, &y, &None), 0);
    assert_eq!(unify_depth(&x, &y, &Some(Substitution::new())), 9);
    let mut theta = Substitution::new();
    theta.insert("X".into(), compound("h", vec![var("U"), var("Y")]));
    theta.insert("W".into(), atom("w"));
    assert_eq!(unify_depth(&x, &y, &Some(theta.clone())), 15);
    assert_eq!(unify_depth(&atom("a"), &atom("b"), &Some(theta)), 12);
    assert_eq!(count_variables(&x, &y, &Substitution::new()), 3);
}
