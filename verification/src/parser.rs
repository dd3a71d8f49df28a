//! The concrete syntax of programs and queries.
//!
//! A file is a sequence of clauses with white space between them. A clause
//! is `HEAD.` or `HEAD :- GOAL, GOAL.`. An atom starts with a lower-case
//! letter and goes on with letters and digits, or stands in single quotes,
//! or is `[]`. A variable starts with an upper-case letter. A compound term
//! is a functor with arguments in round brackets. `[a, b]` stands for
//! `.(a, .(b, []))` and `[H|T]` for `.(H, T)`.
//!
//! The grammar is read as written, with ordered choice: of the forms that a
//! term can have, the first that fits is taken, and a list of elements goes
//! on as long as a separator and another element follow. The model of each
//! parser is a function from a text and a position in it to the value read
//! and the position behind it.

use crate::database::{clauses_view, Clause, ClauseView};
use crate::rename::{is_fresh_name, is_lower_hex};
use crate::term::{lemma_terms_view, terms_view, Term, TermView};
use std::collections::VecDeque;
use vstd::prelude::*;
use vstd::string::StrSliceExecFns;
use vstd::string::StringExecFns;

verus! {

/// The classes of characters that the grammar speaks of.
#[derive(Clone, Copy)]
pub enum CharClass {
    /// ASCII letters and digits.
    Alnum,
    /// The space character.
    Blank,
    /// Space, tab, carriage return and line feed.
    Space,
    /// Everything but the single quote.
    Unquoted,
}

/// An ASCII lower-case letter.
pub open spec fn is_lower(c: char) -> bool {
    'a' <= c && c <= 'z'
}

/// An ASCII upper-case letter.
pub open spec fn is_upper(c: char) -> bool {
    'A' <= c && c <= 'Z'
}

/// An ASCII digit.
pub open spec fn is_digit(c: char) -> bool {
    '0' <= c && c <= '9'
}

/// Whether `c` belongs to `class`.
pub open spec fn in_class(class: CharClass, c: char) -> bool {
    match class {
        CharClass::Alnum => is_lower(c) || is_upper(c) || is_digit(c),
        CharClass::Blank => c == ' ',
        CharClass::Space => c == ' ' || c == '\t' || c == '\r' || c == '\n',
        CharClass::Unquoted => c != '\'',
    }
}

/// The position behind the longest run of characters of `class` that
/// starts at `pos`.
pub open spec fn run_end(s: Seq<char>, pos: int, class: CharClass) -> int
    decreases s.len() - pos,
{
    if 0 <= pos < s.len() && in_class(class, s[pos]) {
        run_end(s, pos + 1, class)
    } else {
        pos
    }
}

/// A run ends at or behind its start and within the text.
pub proof fn lemma_run_end(s: Seq<char>, pos: int, class: CharClass)
    ensures
        pos <= run_end(s, pos, class),
        0 <= pos <= s.len() ==> run_end(s, pos, class) <= s.len(),
    decreases s.len() - pos,
{
    if 0 <= pos < s.len() && in_class(class, s[pos]) {
        lemma_run_end(s, pos + 1, class);
    }
}

/// The position behind the character `c` at `pos`, if it stands there.
pub open spec fn expect_char(s: Seq<char>, pos: int, c: char) -> Option<int> {
    if 0 <= pos < s.len() && s[pos] == c {
        Some(pos + 1)
    } else {
        None
    }
}

/// A name at `pos`: a letter of the wanted case, then letters and digits.
pub open spec fn word_spec(s: Seq<char>, pos: int, upper: bool) -> Option<(Seq<char>, int)> {
    if 0 <= pos < s.len() && (if upper {
        is_upper(s[pos])
    } else {
        is_lower(s[pos])
    }) {
        let end = run_end(s, pos + 1, CharClass::Alnum);
        Some((s.subrange(pos, end), end))
    } else {
        None
    }
}

/// A quoted name at `pos`: a single quote, one or more characters that are
/// no single quote, and a single quote.
pub open spec fn quoted_spec(s: Seq<char>, pos: int) -> Option<(Seq<char>, int)> {
    match expect_char(s, pos, '\'') {
        None => None,
        Some(start) => {
            let end = run_end(s, start, CharClass::Unquoted);
            if end > start {
                match expect_char(s, end, '\'') {
                    None => None,
                    Some(behind) => Some((s.subrange(start, end), behind)),
                }
            } else {
                None
            }
        },
    }
}

/// A comma with any number of spaces before and behind it.
pub open spec fn spaced_comma_spec(s: Seq<char>, pos: int) -> Option<int> {
    match expect_char(s, run_end(s, pos, CharClass::Blank), ',') {
        None => None,
        Some(behind) => Some(run_end(s, behind, CharClass::Blank)),
    }
}

/// A variable at `pos`.
pub open spec fn var_spec(s: Seq<char>, pos: int) -> Option<(TermView, int)> {
    match word_spec(s, pos, true) {
        None => None,
        Some((name, end)) => Some((TermView::Var(name), end)),
    }
}

/// An atom at `pos`: a bare name, a quoted name, or `[]`.
pub open spec fn atom_spec(s: Seq<char>, pos: int) -> Option<(TermView, int)> {
    match word_spec(s, pos, false) {
        Some((name, end)) => Some((TermView::Atom(name), end)),
        None => match quoted_spec(s, pos) {
            Some((name, end)) => Some((TermView::Atom(name), end)),
            None => match expect_char(s, pos, '[') {
                None => None,
                Some(behind) => match expect_char(s, behind, ']') {
                    None => None,
                    Some(end) => Some((TermView::Atom("[]"@), end)),
                },
            },
        },
    }
}

/// The list of `elements`: `.(e, .(.., []))`.
pub open spec fn list_term(elements: Seq<TermView>) -> TermView
    decreases elements.len(),
{
    if elements.len() == 0 {
        TermView::Atom("[]"@)
    } else {
        TermView::Str("."@, seq![elements[0], list_term(elements.drop_first())])
    }
}

/// A result that ends behind `pos` and within the text, or nothing. Every
/// parser moves forward; a list stops where an element would not.
pub open spec fn forward<T>(r: Option<(T, int)>, s: Seq<char>, pos: int) -> Option<(T, int)> {
    match r {
        None => None,
        Some((value, end)) => if pos < end <= s.len() {
            r
        } else {
            None
        },
    }
}

/// A compound term written as a functor with arguments in round brackets,
/// the functor being a bare name or a quoted one.
pub open spec fn applied_spec(s: Seq<char>, pos: int, quoted: bool) -> Option<(TermView, int)>
    decreases s.len() - pos, 0int,
{
    match (if quoted {
        quoted_spec(s, pos)
    } else {
        word_spec(s, pos, false)
    }) {
        None => None,
        Some((functor, end)) => match expect_char(s, end, '(') {
            None => None,
            Some(open) => {
                if pos < open {
                    match args_spec(s, open, true) {
                        None => None,
                        Some((args, behind)) => match expect_char(s, behind, ')') {
                            None => None,
                            Some(close) => Some((TermView::Str(functor, args), close)),
                        },
                    }
                } else {
                    None
                }
            },
        },
    }
}

/// A list in square brackets: its elements with commas between them.
pub open spec fn bracket_list_spec(s: Seq<char>, pos: int) -> Option<(TermView, int)>
    decreases s.len() - pos, 0int,
{
    match expect_char(s, pos, '[') {
        None => None,
        Some(open) => match args_spec(s, open, true) {
            None => None,
            Some((elements, behind)) => match expect_char(s, behind, ']') {
                None => None,
                Some(close) => Some((list_term(elements), close)),
            },
        },
    }
}

/// A list written as a head and a tail: `[H|T]`.
pub open spec fn head_tail_spec(s: Seq<char>, pos: int) -> Option<(TermView, int)>
    decreases s.len() - pos, 0int,
{
    match expect_char(s, pos, '[') {
        None => None,
        Some(open) => match forward(element_spec(s, open, true), s, open) {
            None => None,
            Some((head, behind)) => match expect_char(s, behind, '|') {
                None => None,
                Some(bar) => match element_spec(s, bar, true) {
                    None => None,
                    Some((tail, end)) => match expect_char(s, end, ']') {
                        None => None,
                        Some(close) => Some((TermView::Str("."@, seq![head, tail]), close)),
                    },
                },
            },
        },
    }
}

/// A compound term at `pos`, in the first of its four forms that fits.
pub open spec fn compound_spec(s: Seq<char>, pos: int) -> Option<(TermView, int)>
    decreases s.len() - pos, 1int,
{
    match applied_spec(s, pos, false) {
        Some(r) => Some(r),
        None => match applied_spec(s, pos, true) {
            Some(r) => Some(r),
            None => match bracket_list_spec(s, pos) {
                Some(r) => Some(r),
                None => head_tail_spec(s, pos),
            },
        },
    }
}

/// An element of a list at `pos`: a compound term or an atom, and where
/// `with_vars` is set also a variable, tried between the two.
pub open spec fn element_spec(s: Seq<char>, pos: int, with_vars: bool) -> Option<(TermView, int)>
    decreases s.len() - pos, 2int,
{
    match compound_spec(s, pos) {
        Some(r) => Some(r),
        None => match (if with_vars {
            var_spec(s, pos)
        } else {
            None
        }) {
            Some(r) => Some(r),
            None => atom_spec(s, pos),
        },
    }
}

/// The elements that follow `acc`: as long as a spaced comma and an element
/// stand at the position reached, the element is taken.
pub open spec fn more_elements_spec(
    s: Seq<char>,
    pos: int,
    with_vars: bool,
    acc: Seq<TermView>,
) -> (Seq<TermView>, int)
    decreases s.len() - pos, 3int,
{
    match spaced_comma_spec(s, pos) {
        None => (acc, pos),
        Some(behind) => {
            proof {
                lemma_run_end(s, pos, CharClass::Blank);
                lemma_run_end(s, run_end(s, pos, CharClass::Blank) + 1, CharClass::Blank);
            }
            if 0 <= pos {
                match forward(element_spec(s, behind, with_vars), s, behind) {
                    None => (acc, pos),
                    Some((element, end)) => more_elements_spec(s, end, with_vars, acc.push(element)),
                }
            } else {
                (acc, pos)
            }
        },
    }
}

/// One or more elements with spaced commas between them.
pub open spec fn args_spec(s: Seq<char>, pos: int, with_vars: bool) -> Option<(Seq<TermView>, int)>
    decreases s.len() - pos, 4int,
{
    match forward(element_spec(s, pos, with_vars), s, pos) {
        None => None,
        Some((first, end)) => Some(more_elements_spec(s, end, with_vars, seq![first])),
    }
}

/// The goals of a query or of a clause body: one or more goals with spaced
/// commas between them, and a full stop.
pub open spec fn goals_spec(s: Seq<char>, pos: int) -> Option<(Seq<TermView>, int)> {
    match args_spec(s, pos, false) {
        None => None,
        Some((goals, end)) => match expect_char(s, end, '.') {
            None => None,
            Some(behind) => Some((goals, behind)),
        },
    }
}

/// A fact: a head and a full stop.
pub open spec fn fact_spec(s: Seq<char>, pos: int) -> Option<(ClauseView, int)> {
    match element_spec(s, pos, false) {
        None => None,
        Some((head, end)) => match expect_char(s, end, '.') {
            None => None,
            Some(behind) => Some((ClauseView { head, body: Seq::empty() }, behind)),
        },
    }
}

/// A rule: a head, `:-` with one or more spaces on either side, and a body.
pub open spec fn rule_spec(s: Seq<char>, pos: int) -> Option<(ClauseView, int)> {
    match element_spec(s, pos, false) {
        None => None,
        Some((head, end)) => {
            let colon = run_end(s, end, CharClass::Blank);
            if colon > end {
                match expect_char(s, colon, ':') {
                    None => None,
                    Some(dash) => match expect_char(s, dash, '-') {
                        None => None,
                        Some(behind) => {
                            let start = run_end(s, behind, CharClass::Blank);
                            if start > behind {
                                match goals_spec(s, start) {
                                    None => None,
                                    Some((body, stop)) => Some((ClauseView { head, body }, stop)),
                                }
                            } else {
                                None
                            }
                        },
                    },
                }
            } else {
                None
            }
        },
    }
}

/// A clause at `pos`: a fact, or else a rule.
pub open spec fn clause_spec(s: Seq<char>, pos: int) -> Option<(ClauseView, int)> {
    match fact_spec(s, pos) {
        Some(r) => Some(r),
        None => rule_spec(s, pos),
    }
}

/// The clauses that follow `acc`: as long as white space and a clause stand
/// at the position reached, the clause is taken.
pub open spec fn more_clauses_spec(s: Seq<char>, pos: int, acc: Seq<ClauseView>) -> (
    Seq<ClauseView>,
    int,
)
    decreases s.len() - pos,
{
    let behind = run_end(s, pos, CharClass::Space);
    if 0 <= pos < behind {
        match forward(clause_spec(s, behind), s, behind) {
            None => (acc, pos),
            Some((clause, end)) => more_clauses_spec(s, end, acc.push(clause)),
        }
    } else {
        (acc, pos)
    }
}

/// The clauses of a file: none where the text does not start with a clause,
/// else the first and those that follow it.
pub open spec fn file_spec(s: Seq<char>) -> (Seq<ClauseView>, int) {
    match forward(clause_spec(s, 0), s, 0) {
        None => (Seq::empty(), 0),
        Some((first, end)) => more_clauses_spec(s, end, seq![first]),
    }
}

/// What a parser read ends behind the position at which it started, and
/// within the text.
pub open spec fn moves_forward<T>(r: Option<(T, int)>, s: Seq<char>, pos: int) -> bool {
    r matches Some(found) ==> pos < found.1 <= s.len()
}

/// A name ends behind its start and within the text.
pub proof fn lemma_word_forward(s: Seq<char>, pos: int, upper: bool)
    ensures
        moves_forward(word_spec(s, pos, upper), s, pos),
{
    if 0 <= pos < s.len() {
        lemma_run_end(s, pos + 1, CharClass::Alnum);
    }
}

/// Every term that is read ends behind its start and within the text, so
/// that no list of terms is ever cut short for want of progress.
pub proof fn lemma_element_forward(s: Seq<char>, pos: int, with_vars: bool)
    ensures
        moves_forward(element_spec(s, pos, with_vars), s, pos),
        moves_forward(compound_spec(s, pos), s, pos),
        forward(element_spec(s, pos, with_vars), s, pos) == element_spec(s, pos, with_vars),
    decreases s.len() - pos, 2int,
{
    lemma_word_forward(s, pos, true);
    lemma_word_forward(s, pos, false);
    lemma_applied_forward(s, pos, false);
    lemma_applied_forward(s, pos, true);
    lemma_bracket_forward(s, pos);
}

/// The same for a functor with its arguments.
pub proof fn lemma_applied_forward(s: Seq<char>, pos: int, quoted: bool)
    ensures
        moves_forward(applied_spec(s, pos, quoted), s, pos),
    decreases s.len() - pos, 0int,
{
    let name = if quoted {
        quoted_spec(s, pos)
    } else {
        word_spec(s, pos, false)
    };
    if let Some((functor, end)) = name {
        if let Some(open) = expect_char(s, end, '(') {
            lemma_args_forward(s, open, true);
        }
    }
}

/// The same for the two forms of a list.
pub proof fn lemma_bracket_forward(s: Seq<char>, pos: int)
    ensures
        moves_forward(bracket_list_spec(s, pos), s, pos),
        moves_forward(head_tail_spec(s, pos), s, pos),
    decreases s.len() - pos, 0int,
{
    if let Some(open) = expect_char(s, pos, '[') {
        lemma_args_forward(s, open, true);
        if let Some((head, behind)) = forward(element_spec(s, open, true), s, open) {
            if let Some(bar) = expect_char(s, behind, '|') {
                lemma_element_forward(s, bar, true);
            }
        }
    }
}

/// The same for a list of elements.
pub proof fn lemma_args_forward(s: Seq<char>, pos: int, with_vars: bool)
    ensures
        moves_forward(args_spec(s, pos, with_vars), s, pos),
    decreases s.len() - pos, 4int,
{
    if let Some((first, end)) = forward(element_spec(s, pos, with_vars), s, pos) {
        lemma_more_elements_forward(s, end, with_vars, seq![first]);
    }
}

/// The elements that follow end at or behind the position reached.
pub proof fn lemma_more_elements_forward(
    s: Seq<char>,
    pos: int,
    with_vars: bool,
    acc: Seq<TermView>,
)
    requires
        0 <= pos <= s.len(),
    ensures
        pos <= more_elements_spec(s, pos, with_vars, acc).1 <= s.len(),
    decreases s.len() - pos, 3int,
{
    if let Some(behind) = spaced_comma_spec(s, pos) {
        lemma_run_end(s, pos, CharClass::Blank);
        lemma_run_end(s, run_end(s, pos, CharClass::Blank) + 1, CharClass::Blank);
        if let Some((element, end)) = forward(element_spec(s, behind, with_vars), s, behind) {
            lemma_more_elements_forward(s, end, with_vars, acc.push(element));
        }
    }
}

/// A clause that is read ends behind its start and within the text, so
/// that no file is ever cut short for want of progress.
pub proof fn lemma_clause_forward(s: Seq<char>, pos: int)
    ensures
        moves_forward(clause_spec(s, pos), s, pos),
        forward(clause_spec(s, pos), s, pos) == clause_spec(s, pos),
{
    lemma_element_forward(s, pos, false);
    if let Some((head, end)) = element_spec(s, pos, false) {
        let colon = run_end(s, end, CharClass::Blank);
        if let Some(dash) = expect_char(s, colon, ':') {
            if let Some(behind) = expect_char(s, dash, '-') {
                let start = run_end(s, behind, CharClass::Blank);
                lemma_args_forward(s, start, false);
            }
        }
    }
}

/// A fresh name is no name that a variable of a program text can have:
/// such a variable starts with an upper-case letter, a fresh name with a
/// hexadecimal digit in lower case.
pub proof fn lemma_fresh_name_is_no_program_variable(
    name: Seq<char>,
    serial: nat,
    s: Seq<char>,
    pos: int,
)
    requires
        is_fresh_name(name, serial),
    ensures
        var_spec(s, pos) matches Some(found) ==> found.0 != TermView::Var(name),
{
    if let Some((word, end)) = word_spec(s, pos, true) {
        lemma_run_end(s, pos + 1, CharClass::Alnum);
        assert(word[0] == s[pos]);
        assert(name.take(36)[0] == name[0]);
        assert(is_lower_hex(name.take(36)[0]));
    }
}

/// The text could not be read as what was asked for.
#[derive(Debug, PartialEq, Eq, Clone, Copy)]
pub struct ParseError;

/// The characters of `text`.
fn to_chars(text: &str) -> (chars: Vec<char>)
    ensures
        chars@ == text@,
{
    let mut chars: Vec<char> = Vec::new();
    for c in it: text.chars()
        invariant
            chars@ == it.seq().take(it.index() as int),
            it.seq() == text@,
    {
        chars.push(c);
    }
    chars
}

fn class_holds(class: CharClass, c: char) -> (r: bool)
    ensures
        r == in_class(class, c),
{
    match class {
        CharClass::Alnum => ('a' <= c && c <= 'z') || ('A' <= c && c <= 'Z') || ('0' <= c && c
            <= '9'),
        CharClass::Blank => c == ' ',
        CharClass::Space => c == ' ' || c == '\t' || c == '\r' || c == '\n',
        CharClass::Unquoted => c != '\'',
    }
}

fn skip_run(chars: &Vec<char>, pos: usize, class: CharClass) -> (end: usize)
    requires
        pos <= chars.len(),
    ensures
        end == run_end(chars@, pos as int, class),
        pos <= end <= chars.len(),
{
    let mut end = pos;
    while end < chars.len() && class_holds(class, chars[end])
        invariant
            pos <= end <= chars.len(),
            run_end(chars@, pos as int, class) == run_end(chars@, end as int, class),
        decreases chars.len() - end,
    {
        end += 1;
    }
    end
}

fn expect(chars: &Vec<char>, pos: usize, c: char) -> (r: Option<usize>)
    ensures
        match r {
            Some(end) => expect_char(chars@, pos as int, c) == Some(end as int) && end == pos + 1
                && end <= chars.len(),
            None => expect_char(chars@, pos as int, c) is None,
        },
{
    if pos < chars.len() && chars[pos] == c {
        Some(pos + 1)
    } else {
        None
    }
}

/// The model of a name that was read.
spec fn name_result(r: Option<(String, usize)>) -> Option<(Seq<char>, int)> {
    match r {
        Some((name, end)) => Some((name@, end as int)),
        None => None,
    }
}

/// The model of a term that was read.
spec fn term_result(r: Option<(Term, usize)>) -> Option<(TermView, int)> {
    match r {
        Some((term, end)) => Some((term@, end as int)),
        None => None,
    }
}

/// The model of the terms that were read.
spec fn terms_result(r: Option<(Vec<Term>, usize)>) -> Option<(Seq<TermView>, int)> {
    match r {
        Some((terms, end)) => Some((terms_view(terms@), end as int)),
        None => None,
    }
}

/// The model of a clause that was read.
spec fn clause_result(r: Option<(Clause, usize)>) -> Option<(ClauseView, int)> {
    match r {
        Some((clause, end)) => Some((clause@, end as int)),
        None => None,
    }
}

fn word(text: &str, chars: &Vec<char>, pos: usize, upper: bool) -> (r: Option<(String, usize)>)
    requires
        chars@ == text@,
    ensures
        name_result(r) == word_spec(chars@, pos as int, upper),
        r matches Some(found) ==> pos < found.1 <= chars.len(),
{
    if pos >= chars.len() {
        return None;
    }
    let first = chars[pos];
    let fits = if upper {
        'A' <= first && first <= 'Z'
    } else {
        'a' <= first && first <= 'z'
    };
    if !fits {
        return None;
    }
    let end = skip_run(chars, pos + 1, CharClass::Alnum);
    let name = String::from_str(text.substring_char(pos, end));
    Some((name, end))
}

fn quoted(text: &str, chars: &Vec<char>, pos: usize) -> (r: Option<(String, usize)>)
    requires
        chars@ == text@,
    ensures
        name_result(r) == quoted_spec(chars@, pos as int),
        r matches Some(found) ==> pos < found.1 <= chars.len(),
{
    let start = match expect(chars, pos, '\'') {
        None => {
            return None;
        },
        Some(start) => start,
    };
    let end = skip_run(chars, start, CharClass::Unquoted);
    if end == start {
        return None;
    }
    match expect(chars, end, '\'') {
        None => None,
        Some(behind) => {
            let name = String::from_str(text.substring_char(start, end));
            Some((name, behind))
        },
    }
}

fn spaced_comma(chars: &Vec<char>, pos: usize) -> (r: Option<usize>)
    requires
        pos <= chars.len(),
    ensures
        match r {
            Some(end) => spaced_comma_spec(chars@, pos as int) == Some(end as int) && pos < end
                <= chars.len(),
            None => spaced_comma_spec(chars@, pos as int) is None,
        },
{
    let comma = skip_run(chars, pos, CharClass::Blank);
    match expect(chars, comma, ',') {
        None => None,
        Some(behind) => Some(skip_run(chars, behind, CharClass::Blank)),
    }
}

fn term_var(text: &str, chars: &Vec<char>, pos: usize) -> (r: Option<(Term, usize)>)
    requires
        chars@ == text@,
    ensures
        term_result(r) == var_spec(chars@, pos as int),
        r matches Some(found) ==> pos < found.1 <= chars.len(),
{
    match word(text, chars, pos, true) {
        None => None,
        Some((name, end)) => {
            let term = Term::Var(name);
            Some((term, end))
        },
    }
}

fn atom_term(name: String) -> (term: Term)
    ensures
        term@ == TermView::Atom(name@),
{
    let term = Term::Atom(name);
    term
}

fn term_atom(text: &str, chars: &Vec<char>, pos: usize) -> (r: Option<(Term, usize)>)
    requires
        chars@ == text@,
    ensures
        term_result(r) == atom_spec(chars@, pos as int),
        r matches Some(found) ==> pos < found.1 <= chars.len(),
{
    match word(text, chars, pos, false) {
        Some((name, end)) => Some((atom_term(name), end)),
        None => match quoted(text, chars, pos) {
            Some((name, end)) => Some((atom_term(name), end)),
            None => match expect(chars, pos, '[') {
                None => None,
                Some(behind) => match expect(chars, behind, ']') {
                    None => None,
                    Some(end) => Some((atom_term(String::from_str("[]")), end)),
                },
            },
        },
    }
}

/// The list of `elements`: each element paired with the list of those
/// behind it by the functor `.`, down to the atom `[]`.
pub fn build_list(elements: VecDeque<Term>) -> (list: Term)
    ensures
        list@ == list_term(terms_view(elements@)),
{
    let ghost all = terms_view(elements@);
    let mut rest = elements;
    let mut list = atom_term(String::from_str("[]"));
    proof {
        lemma_terms_view(rest@);
        assert(all.take(all.len() as int) =~= all);
    }
    while rest.len() > 0
        invariant
            rest@.len() <= all.len(),
            terms_view(rest@) == all.take(rest@.len() as int),
            list@ == list_term(all.skip(rest@.len() as int)),
        decreases rest.len(),
    {
        let ghost before = rest@;
        let element = rest.pop_back().unwrap();
        let ghost tail = list@;
        let mut pair: Vec<Term> = Vec::new();
        pair.push(element);
        pair.push(list);
        list = Term::Str(String::from_str("."), pair);
        proof {
            lemma_terms_view(before);
            lemma_terms_view(rest@);
            lemma_terms_view(pair@);
            crate::term::lemma_view_args(&list);
            let k = rest@.len() as int;
            assert(terms_view(rest@) =~= all.take(k));
            assert(all.skip(k)[0] == element@) by {
                assert(all.take(k + 1)[k] == terms_view(before)[k]);
            }
            assert(all.skip(k).drop_first() =~= all.skip(k + 1));
            assert(list@->Str_1 =~= seq![element@, tail]);
        }
    }
    assert(all.skip(0) =~= all);
    list
}

/// The terms of `terms` as a queue, in the same order.
fn into_queue(terms: Vec<Term>) -> (queue: VecDeque<Term>)
    ensures
        queue@ == terms@,
{
    let ghost all = terms@;
    let mut rest = terms;
    let mut queue: VecDeque<Term> = VecDeque::new();
    while rest.len() > 0
        invariant
            rest@ + queue@ == all,
        decreases rest.len(),
    {
        let ghost before = rest@;
        let ghost behind = queue@;
        let last = rest.pop().unwrap();
        queue.push_front(last);
        assert(rest@ + queue@ =~= before + behind);
    }
    assert(rest@ + queue@ =~= queue@);
    queue
}

fn term_str_applied(text: &str, chars: &Vec<char>, pos: usize, in_quotes: bool) -> (r: Option<
    (Term, usize),
>)
    requires
        chars@ == text@,
    ensures
        term_result(r) == applied_spec(chars@, pos as int, in_quotes),
        r matches Some(found) ==> pos < found.1 <= chars.len(),
    decreases chars.len() - pos, 0int,
{
    let name = if in_quotes {
        quoted(text, chars, pos)
    } else {
        word(text, chars, pos, false)
    };
    let (functor, end) = match name {
        None => {
            return None;
        },
        Some(found) => found,
    };
    let open = match expect(chars, end, '(') {
        None => {
            return None;
        },
        Some(open) => open,
    };
    let (arguments, behind) = match args(text, chars, open, true) {
        None => {
            return None;
        },
        Some(found) => found,
    };
    match expect(chars, behind, ')') {
        None => None,
        Some(close) => {
            let term = Term::Str(functor, arguments);
            Some((term, close))
        },
    }
}

fn term_str_list(text: &str, chars: &Vec<char>, pos: usize) -> (r: Option<(Term, usize)>)
    requires
        chars@ == text@,
    ensures
        term_result(r) == bracket_list_spec(chars@, pos as int),
        r matches Some(found) ==> pos < found.1 <= chars.len(),
    decreases chars.len() - pos, 0int,
{
    let open = match expect(chars, pos, '[') {
        None => {
            return None;
        },
        Some(open) => open,
    };
    let (elements, behind) = match args(text, chars, open, true) {
        None => {
            return None;
        },
        Some(found) => found,
    };
    match expect(chars, behind, ']') {
        None => None,
        Some(close) => Some((build_list(into_queue(elements)), close)),
    }
}

fn term_str_head_tail(text: &str, chars: &Vec<char>, pos: usize) -> (r: Option<(Term, usize)>)
    requires
        chars@ == text@,
    ensures
        term_result(r) == head_tail_spec(chars@, pos as int),
        r matches Some(found) ==> pos < found.1 <= chars.len(),
    decreases chars.len() - pos, 0int,
{
    let open = match expect(chars, pos, '[') {
        None => {
            return None;
        },
        Some(open) => open,
    };
    let (head, behind) = match element(text, chars, open, true) {
        None => {
            return None;
        },
        Some(found) => found,
    };
    let bar = match expect(chars, behind, '|') {
        None => {
            return None;
        },
        Some(bar) => bar,
    };
    let (tail, end) = match element(text, chars, bar, true) {
        None => {
            return None;
        },
        Some(found) => found,
    };
    match expect(chars, end, ']') {
        None => None,
        Some(close) => {
            let ghost head_view = head@;
            let ghost tail_view = tail@;
            let mut pair: Vec<Term> = Vec::new();
            pair.push(head);
            pair.push(tail);
            let term = Term::Str(String::from_str("."), pair);
            proof {
                crate::term::lemma_view_args(&term);
                assert(term@->Str_1 =~= seq![head_view, tail_view]);
            }
            Some((term, close))
        },
    }
}

fn term_str(text: &str, chars: &Vec<char>, pos: usize) -> (r: Option<(Term, usize)>)
    requires
        chars@ == text@,
    ensures
        term_result(r) == compound_spec(chars@, pos as int),
        r matches Some(found) ==> pos < found.1 <= chars.len(),
    decreases chars.len() - pos, 1int,
{
    match term_str_applied(text, chars, pos, false) {
        Some(r) => Some(r),
        None => match term_str_applied(text, chars, pos, true) {
            Some(r) => Some(r),
            None => match term_str_list(text, chars, pos) {
                Some(r) => Some(r),
                None => term_str_head_tail(text, chars, pos),
            },
        },
    }
}

fn element(text: &str, chars: &Vec<char>, pos: usize, with_vars: bool) -> (r: Option<(Term, usize)>)
    requires
        chars@ == text@,
    ensures
        term_result(r) == element_spec(chars@, pos as int, with_vars),
        r matches Some(found) ==> pos < found.1 <= chars.len(),
    decreases chars.len() - pos, 2int,
{
    match term_str(text, chars, pos) {
        Some(r) => Some(r),
        None => {
            let variable = if with_vars {
                term_var(text, chars, pos)
            } else {
                None
            };
            match variable {
                Some(r) => Some(r),
                None => term_atom(text, chars, pos),
            }
        },
    }
}

fn args(text: &str, chars: &Vec<char>, pos: usize, with_vars: bool) -> (r: Option<
    (Vec<Term>, usize),
>)
    requires
        chars@ == text@,
    ensures
        terms_result(r) == args_spec(chars@, pos as int, with_vars),
        r matches Some(found) ==> pos < found.1 <= chars.len(),
    decreases chars.len() - pos, 4int,
{
    let (first, start) = match element(text, chars, pos, with_vars) {
        None => {
            return None;
        },
        Some(found) => found,
    };
    let ghost s = chars@;
    let mut elements: Vec<Term> = Vec::new();
    elements.push(first);
    let mut end = start;
    proof {
        lemma_terms_view(elements@);
        assert(terms_view(elements@) =~= seq![first@]);
    }
    loop
        invariant
            chars@ == text@,
            s == chars@,
            pos < start <= end <= chars.len(),
            more_elements_spec(s, start as int, with_vars, seq![first@]) == more_elements_spec(
                s,
                end as int,
                with_vars,
                terms_view(elements@),
            ),
        ensures
            pos < end <= chars.len(),
            more_elements_spec(s, start as int, with_vars, seq![first@]) == (
                terms_view(elements@),
                end as int,
            ),
        decreases chars.len() - end,
    {
        let behind = match spaced_comma(chars, end) {
            None => {
                break ;
            },
            Some(behind) => behind,
        };
        let (next, stop) = match element(text, chars, behind, with_vars) {
            None => {
                break ;
            },
            Some(found) => found,
        };
        let ghost before = elements@;
        elements.push(next);
        proof {
            lemma_terms_view(before);
            lemma_terms_view(elements@);
            assert(terms_view(elements@) =~= terms_view(before).push(next@));
        }
        end = stop;
    }
    Some((elements, end))
}

fn goals(text: &str, chars: &Vec<char>, pos: usize) -> (r: Option<(Vec<Term>, usize)>)
    requires
        chars@ == text@,
    ensures
        terms_result(r) == goals_spec(chars@, pos as int),
        r matches Some(found) ==> pos < found.1 <= chars.len(),
{
    match args(text, chars, pos, false) {
        None => None,
        Some((goals, end)) => match expect(chars, end, '.') {
            None => None,
            Some(behind) => Some((goals, behind)),
        },
    }
}

fn clause_fact(text: &str, chars: &Vec<char>, pos: usize) -> (r: Option<(Clause, usize)>)
    requires
        chars@ == text@,
    ensures
        clause_result(r) == fact_spec(chars@, pos as int),
        r matches Some(found) ==> pos < found.1 <= chars.len(),
{
    match element(text, chars, pos, false) {
        None => None,
        Some((head, end)) => match expect(chars, end, '.') {
            None => None,
            Some(behind) => {
                let body: Vec<Term> = Vec::new();
                Some((Clause { head, body }, behind))
            },
        },
    }
}

fn clause_rule(text: &str, chars: &Vec<char>, pos: usize) -> (r: Option<(Clause, usize)>)
    requires
        chars@ == text@,
    ensures
        clause_result(r) == rule_spec(chars@, pos as int),
        r matches Some(found) ==> pos < found.1 <= chars.len(),
{
    let (head, end) = match element(text, chars, pos, false) {
        None => {
            return None;
        },
        Some(found) => found,
    };
    let colon = skip_run(chars, end, CharClass::Blank);
    if colon == end {
        return None;
    }
    let dash = match expect(chars, colon, ':') {
        None => {
            return None;
        },
        Some(dash) => dash,
    };
    let behind = match expect(chars, dash, '-') {
        None => {
            return None;
        },
        Some(behind) => behind,
    };
    let start = skip_run(chars, behind, CharClass::Blank);
    if start == behind {
        return None;
    }
    match goals(text, chars, start) {
        None => None,
        Some((body, stop)) => Some((Clause { head, body }, stop)),
    }
}

fn clause_at(text: &str, chars: &Vec<char>, pos: usize) -> (r: Option<(Clause, usize)>)
    requires
        chars@ == text@,
    ensures
        clause_result(r) == clause_spec(chars@, pos as int),
        r matches Some(found) ==> pos < found.1 <= chars.len(),
{
    match clause_fact(text, chars, pos) {
        Some(r) => Some(r),
        None => clause_rule(text, chars, pos),
    }
}

/// The text behind position `end`.
fn rest_of<'a>(text: &'a str, chars: &Vec<char>, end: usize) -> (rest: &'a str)
    requires
        chars@ == text@,
        end <= chars.len(),
    ensures
        rest@ == text@.skip(end as int),
{
    text.substring_char(end, chars.len())
}

/// The goals at the start of `s`, with the text behind them.
pub open spec fn clause_body_spec(s: Seq<char>) -> Option<(Seq<char>, Seq<TermView>)> {
    match goals_spec(s, 0) {
        None => None,
        Some((goals, end)) => Some((s.skip(end), goals)),
    }
}

/// The clause at the start of `s`, with the text behind it.
pub open spec fn clause_text_spec(s: Seq<char>) -> Option<(Seq<char>, ClauseView)> {
    match clause_spec(s, 0) {
        None => None,
        Some((clause, end)) => Some((s.skip(end), clause)),
    }
}

/// The clauses at the start of `s`, with the text behind them.
pub open spec fn file_text_spec(s: Seq<char>) -> (Seq<char>, Seq<ClauseView>) {
    (s.skip(file_spec(s).1), file_spec(s).0)
}

/// Reads the goals of a query or of a clause body from the start of
/// `input`: one or more goals with commas between them, and a full stop.
/// Gives the goals and the text behind the full stop.
pub fn clause_body<'a>(input: &'a str) -> (r: Result<(&'a str, Vec<Term>), ParseError>)
    ensures
        clause_body_spec(input@) == (match r {
            Ok((rest, goals)) => Some((rest@, terms_view(goals@))),
            Err(_) => None,
        }),
{
    let chars = to_chars(input);
    match goals(input, &chars, 0) {
        None => Err(ParseError),
        Some((found, end)) => Ok((rest_of(input, &chars, end), found)),
    }
}

/// Reads one clause from the start of `input`: a fact `HEAD.` or a rule
/// `HEAD :- BODY.`. Gives the clause and the text behind it.
pub fn clause<'a>(input: &'a str) -> (r: Result<(&'a str, Clause), ParseError>)
    ensures
        clause_text_spec(input@) == (match r {
            Ok((rest, clause)) => Some((rest@, clause@)),
            Err(_) => None,
        }),
{
    let chars = to_chars(input);
    match clause_at(input, &chars, 0) {
        None => Err(ParseError),
        Some((found, end)) => Ok((rest_of(input, &chars, end), found)),
    }
}

/// Reads the clauses of a file from the start of `input`: clauses with
/// white space between them, as many as there are. Gives the clauses and
/// the text behind the last of them. This never fails: a text that does
/// not start with a clause holds none.
pub fn file<'a>(input: &'a str) -> (r: Result<(&'a str, Vec<Clause>), ParseError>)
    ensures
        r matches Ok((rest, clauses)) && file_text_spec(input@) == (rest@, clauses_view(clauses@)),
{
    let chars = to_chars(input);
    let ghost s = chars@;
    let mut clauses: Vec<Clause> = Vec::new();
    let (first, start) = match clause_at(input, &chars, 0) {
        None => {
            return Ok((rest_of(input, &chars, 0), clauses));
        },
        Some(found) => found,
    };
    clauses.push(first);
    assert(clauses_view(clauses@) =~= seq![first@]);
    let mut end = start;
    loop
        invariant
            chars@ == input@,
            s == chars@,
            0 < start <= end <= chars.len(),
            more_clauses_spec(s, start as int, seq![first@]) == more_clauses_spec(
                s,
                end as int,
                clauses_view(clauses@),
            ),
        ensures
            end <= chars.len(),
            more_clauses_spec(s, start as int, seq![first@]) == (clauses_view(clauses@), end as int),
        decreases chars.len() - end,
    {
        let behind = skip_run(&chars, end, CharClass::Space);
        if behind == end {
            break ;
        }
        let (next, stop) = match clause_at(input, &chars, behind) {
            None => {
                break ;
            },
            Some(found) => found,
        };
        let ghost before = clauses_view(clauses@);
        clauses.push(next);
        assert(clauses_view(clauses@) =~= before.push(next@));
        end = stop;
    }
    Ok((rest_of(input, &chars, end), clauses))
}

} // verus!
