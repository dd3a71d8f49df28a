use esgueva::database::Clause;
use esgueva::parser;
use esgueva::parser::{build_list, clause, clause_body, ParseError};
use esgueva::term::Term;
use std::collections::VecDeque;

fn atom(name: &str) -> Term {
    Term::Atom(name.to_string())
}

fn var(name: &str) -> Term {
    Term::Var(name.to_string())
}

fn compound(functor: &str, args: Vec<Term>) -> Term {
    Term::Str(functor.to_string(), args)
}

#[test]
fn parse1() {
    let input = "f(X,b,g(T)), g(X, a, Z).";
    let result = clause_body(input);
    let expected = vec![
        Term::Str("f".into(), vec![Term::Var("X".into()), Term::Atom("b".into()), Term::Str("g".into(), vec![Term::Var("T".into())])]),
        Term::Str("g".into(), vec![Term::Var("X".into()), Term::Atom("a".into()), Term::Var("Z".into())]),
    ];
    assert_eq!(result, Ok(("", expected)));
}

#[test]
fn parse_fact() {
    let input = "f(adrian, valladolid).";
    let result = clause(input);
    let expected = Clause {
        head: Term::Str("f".into(), vec![Term::Atom("adrian".into()), Term::Atom("valladolid".into())]),
        body: vec![],
    };
    assert_eq!(result, Ok(("", expected)));
}

#[test]
fn parse_fact_2() {
    let input = "list('.'(a,nil)).";
    let result = clause(input);
    let expected = Clause {
        head: Term::Str("list".into(), vec![Term::Str(".".into(), vec![Term::Atom("a".into()), Term::Atom("nil".into())])]),
        body: vec![],
    };
    assert_eq!(result, Ok(("", expected)));
}

#[test]
fn parse_fact_3() {
    let input = "list([a,[b,c]]).";
    let result = clause(input);
    let expected = Clause {
        head: Term::Str("list".into(), vec![
            Term::Str(".".into(), vec![
                Term::Atom("a".into()), Term::Str(".".into(), vec![
                    Term::Str(".".into(), vec![
                        Term::Atom("b".into()),
                        Term::Str(".".into(), vec![
                            Term::Atom("c".into()),
                            Term::Atom("[]".into())
                        ])
                    ]),
                    Term::Atom("[]".into())
                ])])]),
        body: vec![],
    };
    assert_eq!(result, Ok(("", expected)));
}

#[test]
fn parse_fact_4() {
    let input = "list([X|Xs]).";
    let result = clause(input);
    let expected = Clause {
        head: Term::Str("list".into(), vec![Term::Str(".".into(), vec![Term::Var("X".into()), Term::Var("Xs".into())])]),
        body: vec![],
    };
    assert_eq!(result, Ok(("", expected)));
}

#[test]
fn parse_rule() {
    let input = "likes(X, sandy) :- likes(X, cats), likes(X, kim).";
    let result = clause(input);
    let expected = Clause {
        head: Term::Str("likes".into(), vec![Term::Var("X".into()), Term::Atom("sandy".into())]),
        body: vec![
            Term::Str("likes".into(), vec![Term::Var("X".into()), Term::Atom("cats".into())]),
            Term::Str("likes".into(), vec![Term::Var("X".into()), Term::Atom("kim".into())]),
        ],
    };
    assert_eq!(result, Ok(("", expected)));
}

#[test]
fn parse_file() {
    let input = "likes(kim, robin).\nlikes(sandy, lee).\nlikes(sandy, kim).\nlikes(robin, cats).\nlikes(sandy, X) :- likes(X, cats).\nlikes(kim, X) :- likes(X, lee), likes(X, kim).\nlikes(X, X).\n";
    let result = parser::file(input);
    let expected = vec![
        Clause {
            head: Term::Str("likes".into(), vec![Term::Atom("kim".into()), Term::Atom("robin".into())]),
            body: vec![],
        },
        Clause {
            head: Term::Str("likes".into(), vec![Term::Atom("sandy".into()), Term::Atom("lee".into())]),
            body: vec![],
        },
        Clause {
            head: Term::Str("likes".into(), vec![Term::Atom("sandy".into()), Term::Atom("kim".into())]),
            body: vec![],
        },
        Clause {
            head: Term::Str("likes".into(), vec![Term::Atom("robin".into()), Term::Atom("cats".into())]),
            body: vec![],
        },
        Clause {
            head: Term::Str("likes".into(), vec![Term::Atom("sandy".into()), Term::Var("X".into())]),
            body: vec![
                Term::Str("likes".into(), vec![Term::Var("X".into()), Term::Atom("cats".into())])
            ],
        },
        Clause {
            head: Term::Str("likes".into(), vec![Term::Atom("kim".into()), Term::Var("X".into())]),
            body: vec![
                Term::Str("likes".into(), vec![Term::Var("X".into()), Term::Atom("lee".into())]),
                Term::Str("likes".into(), vec![Term::Var("X".into()), Term::Atom("kim".into())])
            ],
        },
        Clause {
            head: Term::Str("likes".into(), vec![Term::Var("X".into()), Term::Var("X".into())]),
            body: vec![],
        }
    ];
    assert_eq!(result, Ok(("\n", expected)));
}

#[test]
fn list_sugar_round_trip() {
    let result = clause_body("[a, [b, c]].");
    let inner = compound(".", vec![atom("b"), compound(".", vec![atom("c"), atom("[]")])]);
    let expected = compound(".", vec![atom("a"), compound(".", vec![inner, atom("[]")])]);
    assert_eq!(result, Ok(("", vec![expected.clone()])));
    assert_eq!(expected.to_string(), ".(a,.(.(b,.(c,[])),[]))");
}

#[test]
fn build_list_nests_pairs() {
    assert_eq!(build_list(VecDeque::new()), atom("[]"));
    assert_eq!(build_list(VecDeque::from(vec![var("X")])), compound(".", vec![var("X"), atom("[]")]));
    assert_eq!(
        build_list(VecDeque::from(vec![atom("a"), atom("b"), atom("c")])),
        compound(
            ".",
            vec![
                atom("a"),
                compound(".", vec![atom("b"), compound(".", vec![atom("c"), atom("[]")])])
            ]
        )
    );
}

#[test]
fn parse_atoms_in_all_forms() {
    assert_eq!(clause_body("true."), Ok(("", vec![atom("true")])));
    assert_eq!(clause_body("'hello world'."), Ok(("", vec![atom("hello world")])));
    assert_eq!(clause_body("[]."), Ok(("", vec![atom("[]")])));
    assert_eq!(clause_body("a1B2, []."), Ok(("", vec![atom("a1B2"), atom("[]")])));
    assert_eq!(
        clause_body("'Big Name'(x)."),
        Ok(("", vec![compound("Big Name", vec![atom("x")])]))
    );
}

#[test]
fn parse_keeps_what_is_behind() {
    assert_eq!(clause_body("a. b."), Ok((" b.", vec![atom("a")])));
    assert_eq!(clause("a :- b.\nrest"), Ok(("\nrest", Clause { head: atom("a"), body: vec![atom("b")] })));
    assert_eq!(
        parser::file("a.  \t\r\n b.\n\nc :-  d."),
        Ok((
            "",
            vec![
                Clause { head: atom("a"), body: vec![] },
                Clause { head: atom("b"), body: vec![] },
                Clause { head: atom("c"), body: vec![atom("d")] }
            ]
        ))
    );
    assert_eq!(parser::file("a. B."), Ok((" B.", vec![Clause { head: atom("a"), body: vec![] }])));
    assert_eq!(parser::file("a.b."), Ok(("b.", vec![Clause { head: atom("a"), body: vec![] }])));
}

#[test]
fn parse_file_without_clauses() {
    assert_eq!(parser::file(""), Ok(("", vec![])));
    assert_eq!(parser::file("   a."), Ok(("   a.", vec![])));
    assert_eq!(parser::file("X."), Ok(("X.", vec![])));
}

#[test]
fn parse_rejects_what_is_no_query() {
    assert_eq!(clause_body(""), Err(ParseError));
    assert_eq!(clause_body("X."), Err(ParseError));
    assert_eq!(clause_body("a"), Err(ParseError));
    assert_eq!(clause_body("f(."), Err(ParseError));
    assert_eq!(clause_body("f()."), Err(ParseError));
    assert_eq!(clause_body("''."), Err(ParseError));
    assert_eq!(clause_body(" a."), Err(ParseError));
    assert_eq!(clause_body("a ."), Err(ParseError));
    assert_eq!(clause_body("42."), Err(ParseError));
}

#[test]
fn parse_rejects_what_is_no_clause() {
    assert_eq!(clause("X :- a."), Err(ParseError));
    assert_eq!(clause("a:- b."), Err(ParseError));
    assert_eq!(clause("a :-b."), Err(ParseError));
    assert_eq!(clause("a :- X."), Err(ParseError));
    assert_eq!(clause("a :- b"), Err(ParseError));
}

#[test]
fn parse_comma_list_stops_before_a_dangling_comma() {
    assert_eq!(clause_body("f(a, )."), Err(ParseError));
    assert_eq!(clause_body("a, b , c."), Ok(("", vec![atom("a"), atom("b"), atom("c")])));
    assert_eq!(clause_body("a,."), Err(ParseError));
}

#[test]
fn parse_head_tail_and_nested_lists() {
    assert_eq!(
        clause_body("[H|T]."),
        Ok(("", vec![compound(".", vec![var("H"), var("T")])]))
    );
    assert_eq!(
        clause_body("p([a|[b|[]]])."),
        Ok((
            "",
            vec![compound(
                "p",
                vec![compound(".", vec![atom("a"), compound(".", vec![atom("b"), atom("[]")])])]
            )]
        ))
    );
    assert_eq!(clause_body("[H |T]."), Err(ParseError));
}

#[test]
fn parse_text_beyond_ascii() {
    assert_eq!(clause_body("'ñandú'(é)."), Err(ParseError));
    assert_eq!(clause_body("'ñandú'(x). ü"), Ok((" ü", vec![compound("ñandú", vec![atom("x")])])));
    assert_eq!(clause_body("año."), Err(ParseError));
}
