use esgueva::database::Clause;
use esgueva::parser;
use esgueva::term::Term;
use nom::branch::alt;
use nom::bytes::complete::{is_not, tag};
use nom::character::complete::{alphanumeric0, anychar, char, multispace1};
use nom::error::{Error, ErrorKind};
use nom::multi::{many0, many1, separated_list0, separated_list1};
use nom::sequence::delimited;
use nom::IResult;

// The grammar once more, written with parser combinators. The parsers of
// the library must read every text as these do.

fn oracle_file(input: &str) -> IResult<&str, Vec<Clause>> {
    separated_list0(multispace1, oracle_clause)(input)
}

fn oracle_clause(input: &str) -> IResult<&str, Clause> {
    alt((oracle_fact, oracle_rule))(input)
}

fn oracle_fact(input: &str) -> IResult<&str, Clause> {
    let (input, head) = alt((oracle_str, oracle_atom))(input)?;
    let (input, _) = char('.')(input)?;
    Ok((input, Clause { head, body: vec![] }))
}

fn oracle_rule(input: &str) -> IResult<&str, Clause> {
    let (input, head) = alt((oracle_str, oracle_atom))(input)?;
    let (input, _) = many1(char(' '))(input)?;
    let (input, _) = tag(":-")(input)?;
    let (input, _) = many1(char(' '))(input)?;
    let (input, body) = oracle_body(input)?;
    Ok((input, Clause { head, body }))
}

fn oracle_body(input: &str) -> IResult<&str, Vec<Term>> {
    let (input, goals) = separated_list1(oracle_comma, alt((oracle_str, oracle_atom)))(input)?;
    let (input, _) = char('.')(input)?;
    Ok((input, goals))
}

fn oracle_comma(input: &str) -> IResult<&str, ()> {
    let (input, _) = many0(char(' '))(input)?;
    let (input, _) = char(',')(input)?;
    let (input, _) = many0(char(' '))(input)?;
    Ok((input, ()))
}

fn oracle_arg(input: &str) -> IResult<&str, Term> {
    alt((oracle_str, oracle_var, oracle_atom))(input)
}

fn oracle_str(input: &str) -> IResult<&str, Term> {
    alt((oracle_str_bare, oracle_str_quoted, oracle_list, oracle_head_tail))(input)
}

fn oracle_word(input: &str, upper: bool) -> IResult<&str, String> {
    let (input, first) = anychar(input)?;
    let fits = if upper { first.is_ascii_uppercase() } else { first.is_ascii_lowercase() };
    if !fits {
        return Err(nom::Err::Error(Error::new(input, ErrorKind::Char)));
    }
    let (input, more) = alphanumeric0(input)?;
    Ok((input, format!("{}{}", first, more)))
}

fn oracle_str_bare(input: &str) -> IResult<&str, Term> {
    let (input, functor) = oracle_word(input, false)?;
    let (input, _) = char('(')(input)?;
    let (input, args) = separated_list1(oracle_comma, oracle_arg)(input)?;
    let (input, _) = char(')')(input)?;
    Ok((input, Term::Str(functor, args)))
}

fn oracle_str_quoted(input: &str) -> IResult<&str, Term> {
    let (input, functor) = delimited(char('\''), is_not("'"), char('\''))(input)?;
    let (input, _) = char('(')(input)?;
    let (input, args) = separated_list1(oracle_comma, oracle_arg)(input)?;
    let (input, _) = char(')')(input)?;
    Ok((input, Term::Str(functor.to_string(), args)))
}

fn oracle_list(input: &str) -> IResult<&str, Term> {
    let (input, _) = char('[')(input)?;
    let (input, elements) = separated_list1(oracle_comma, oracle_arg)(input)?;
    let (input, _) = char(']')(input)?;
    let mut list = Term::Atom("[]".into());
    for element in elements.into_iter().rev() {
        list = Term::Str(".".into(), vec![element, list]);
    }
    Ok((input, list))
}

fn oracle_head_tail(input: &str) -> IResult<&str, Term> {
    let (input, _) = char('[')(input)?;
    let (input, head) = oracle_arg(input)?;
    let (input, _) = char('|')(input)?;
    let (input, tail) = oracle_arg(input)?;
    let (input, _) = char(']')(input)?;
    Ok((input, Term::Str(".".into(), vec![head, tail])))
}

fn oracle_var(input: &str) -> IResult<&str, Term> {
    let (input, name) = oracle_word(input, true)?;
    Ok((input, Term::Var(name)))
}

fn oracle_atom(input: &str) -> IResult<&str, Term> {
    alt((oracle_atom_bare, oracle_atom_quoted, oracle_atom_nil))(input)
}

fn oracle_atom_bare(input: &str) -> IResult<&str, Term> {
    let (input, name) = oracle_word(input, false)?;
    Ok((input, Term::Atom(name)))
}

fn oracle_atom_quoted(input: &str) -> IResult<&str, Term> {
    let (input, name) = delimited(char('\''), is_not("'"), char('\''))(input)?;
    Ok((input, Term::Atom(name.to_string())))
}

fn oracle_atom_nil(input: &str) -> IResult<&str, Term> {
    let (input, _) = tag("[]")(input)?;
    Ok((input, Term::Atom("[]".into())))
}

fn agree(input: &str) {
    let expected = oracle_body(input).ok();
    let found = parser::clause_body(input).ok();
    assert_eq!(found, expected, "goals of {:?}", input);

    let expected = oracle_clause(input).ok();
    let found = parser::clause(input).ok();
    assert_eq!(found, expected, "clause of {:?}", input);

    let expected = oracle_file(input).ok();
    let found = parser::file(input).ok();
    assert_eq!(found, expected, "clauses of {:?}", input);
}

const PIECES: [&str; 24] = [
    "a", "b1", "X", "Yz", "f(", "(", ")", "[", "]", "|", ",", " ", "  ", ".", "'", "'q r'", ":-",
    " :- ", "\n", "\t", "[]", "é", "0", "-",
];

#[test]
fn parsers_agree_on_chosen_texts() {
    let texts = [
        "",
        "a.",
        "f(X,b,g(T)), g(X, a, Z).",
        "likes(X, sandy) :- likes(X, cats), likes(X, kim).",
        "list([a,[b,c]]).",
        "list([X|Xs]).",
        "list('.'(a,nil)).",
        "a.\nb.\n\nc :- d, e.\n",
        "a :-  b  ,  c.",
        "a :- b ,c .",
        "a:-b.",
        "'it''s'.",
        "'a b'('c d', [e|'f g']).",
        "[[], [[]], [a|[]]].",
        "[a, b|c].",
        "f(a)(b).",
        "f (a).",
        "f(a ).",
        "f( a).",
        "f(a,, b).",
        "p :- q. r.",
        "p.q.",
        "p.\r\n\tq.",
        "x1Y2z3(Abc, dEf).",
        "é.",
        "a(é).",
        "'é'('ü').",
        "a. é",
        "X :- a.",
        "a :- X.",
        "a :- b, C.",
        "[].",
        "[]. [].",
        "[] :- [].",
        "'[]'.",
        "[ ].",
        "[a].",
        "[a|b|c].",
        "f([a|B], 'c'(D), []).",
    ];
    for text in texts.iter() {
        agree(text);
    }
}

#[test]
fn parsers_agree_on_all_short_texts() {
    let n = PIECES.len();
    for a in 0..n {
        agree(PIECES[a]);
        for b in 0..n {
            agree(&format!("{}{}", PIECES[a], PIECES[b]));
            for c in 0..n {
                agree(&format!("{}{}{}", PIECES[a], PIECES[b], PIECES[c]));
            }
        }
    }
}

#[test]
fn parsers_agree_on_generated_texts() {
    let mut state: u64 = 0x2545F4914F6CDD1D;
    let mut next = |bound: usize| -> usize {
        state ^= state << 13;
        state ^= state >> 7;
        state ^= state << 17;
        (state % (bound as u64)) as usize
    };
    for _ in 0..4000 {
        let length = 1 + next(14);
        let mut text = String::new();
        for _ in 0..length {
            text.push_str(PIECES[next(PIECES.len())]);
        }
        agree(&text);
    }
}

#[test]
fn parsers_agree_on_generated_programs() {
    let mut state: u64 = 0x9E3779B97F4A7C15;
    let mut next = |bound: usize| -> usize {
        state ^= state << 13;
        state ^= state >> 7;
        state ^= state << 17;
        (state % (bound as u64)) as usize
    };
    fn term(next: &mut dyn FnMut(usize) -> usize, depth: usize) -> String {
        let kind = if depth == 0 { next(4) } else { next(8) };
        match kind {
            0 => ["a", "b", "foo", "x1"][next(4)].to_string(),
            1 => ["X", "Y", "Zs", "A1"][next(4)].to_string(),
            2 => "[]".to_string(),
            3 => "'q r'".to_string(),
            4 | 5 => {
                let count = 1 + next(3);
                let args: Vec<String> = (0..count).map(|_| term(next, depth - 1)).collect();
                format!("{}({})", ["f", "g", "'h i'"][next(3)], args.join([",", ", ", " ,"][next(3)]))
            }
            6 => {
                let count = 1 + next(3);
                let args: Vec<String> = (0..count).map(|_| term(next, depth - 1)).collect();
                format!("[{}]", args.join([",", ", "][next(2)]))
            }
            _ => format!("[{}|{}]", term(next, depth - 1), term(next, depth - 1)),
        }
    }
    for _ in 0..1500 {
        let mut text = String::new();
        let clauses = 1 + next(4);
        for _ in 0..clauses {
            text.push_str(&term(&mut next, 3));
            if next(2) == 0 {
                text.push_str([" :- ", "  :-  ", " :-", ":- "][next(4)]);
                let goals = 1 + next(3);
                let body: Vec<String> = (0..goals).map(|_| term(&mut next, 2)).collect();
                text.push_str(&body.join([", ", ",", " , "][next(3)]));
            }
            text.push_str([".", ".", ".", ""][next(4)]);
            text.push_str(["\n", " ", "\n\n", "", "\t"][next(5)]);
        }
        agree(&text);
    }
}
