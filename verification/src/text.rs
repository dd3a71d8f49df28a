//! Terms and answers as text.

use crate::subst::{substs_view, SubstView, Substitution};
use crate::term::{
    lemma_terms_view, lemma_view_args, names_view, Term, TermView,
};
use crate::walk::{project, project_spec};
use vstd::prelude::*;
use vstd::string::StringExecFns;

verus! {

/// `parts` written one after the other with `sep` between them.
pub open spec fn join_texts(parts: Seq<Seq<char>>, sep: Seq<char>) -> Seq<char>
    decreases parts.len(),
{
    if parts.len() == 0 {
        Seq::empty()
    } else if parts.len() == 1 {
        parts[0]
    } else {
        join_texts(parts.drop_last(), sep) + sep + parts.last()
    }
}

/// Writes `parts` one after the other with `sep` between them.
pub fn join(parts: &Vec<String>, sep: &str) -> (text: String)
    ensures
        text@ == join_texts(names_view(parts@), sep@),
{
    let mut text = String::new();
    let ghost all = names_view(parts@);
    let mut i: usize = 0;
    while i < parts.len()
        invariant
            i <= parts.len(),
            all == names_view(parts@),
            text@ == join_texts(all.take(i as int), sep@),
        decreases parts.len() - i,
    {
        if i > 0 {
            text.append(sep);
        }
        text.append(parts[i].as_str());
        proof {
            let longer = all.take(i as int + 1);
            assert(longer.drop_last() =~= all.take(i as int));
        }
        i += 1;
    }
    assert(all.take(i as int) =~= all);
    text
}

/// The decimal digit `d` as text.
pub open spec fn digit_text(d: int) -> Seq<char> {
    if d == 0 {
        "0"@
    } else if d == 1 {
        "1"@
    } else if d == 2 {
        "2"@
    } else if d == 3 {
        "3"@
    } else if d == 4 {
        "4"@
    } else if d == 5 {
        "5"@
    } else if d == 6 {
        "6"@
    } else if d == 7 {
        "7"@
    } else if d == 8 {
        "8"@
    } else {
        "9"@
    }
}

/// The decimal notation of a natural number, without leading zeros.
pub open spec fn nat_text(n: nat) -> Seq<char>
    decreases n,
{
    if n < 10 {
        digit_text(n as int)
    } else {
        nat_text(n / 10) + digit_text((n % 10) as int)
    }
}

/// The decimal notation of an integer, with a minus sign where it is
/// negative.
pub open spec fn int_text(i: int) -> Seq<char> {
    if i < 0 {
        "-"@ + nat_text((-i) as nat)
    } else {
        nat_text(i as nat)
    }
}

/// The character of the decimal digit `d`.
pub open spec fn digit_char(d: int) -> char {
    if d == 0 {
        '0'
    } else if d == 1 {
        '1'
    } else if d == 2 {
        '2'
    } else if d == 3 {
        '3'
    } else if d == 4 {
        '4'
    } else if d == 5 {
        '5'
    } else if d == 6 {
        '6'
    } else if d == 7 {
        '7'
    } else if d == 8 {
        '8'
    } else {
        '9'
    }
}

/// A digit is written as its one character.
pub proof fn lemma_digit_text(d: int)
    ensures
        digit_text(d) == seq![digit_char(d)],
{
    reveal_strlit("0");
    reveal_strlit("1");
    reveal_strlit("2");
    reveal_strlit("3");
    reveal_strlit("4");
    reveal_strlit("5");
    reveal_strlit("6");
    reveal_strlit("7");
    reveal_strlit("8");
    reveal_strlit("9");
    assert(digit_text(d) =~= seq![digit_char(d)]);
}

/// The decimal notation ends with the last digit, behind the notation of
/// the tenth part.
pub proof fn lemma_nat_text(n: nat)
    ensures
        nat_text(n).len() >= 1,
        nat_text(n).last() == digit_char((n % 10) as int),
        n >= 10 ==> nat_text(n).len() >= 2 && nat_text(n).drop_last() == nat_text(n / 10),
        forall|i: int| 0 <= i < nat_text(n).len() ==> '0' <= #[trigger] nat_text(n)[i] <= '9',
    decreases n,
{
    lemma_digit_text((n % 10) as int);
    if n >= 10 {
        lemma_nat_text(n / 10);
        assert(nat_text(n).drop_last() =~= nat_text(n / 10));
    }
}

/// Two numbers with one decimal notation are one number.
pub proof fn lemma_nat_text_injective(a: nat, b: nat)
    requires
        nat_text(a) == nat_text(b),
    ensures
        a == b,
    decreases a,
{
    lemma_nat_text(a);
    lemma_nat_text(b);
    if a >= 10 && b >= 10 {
        lemma_nat_text_injective(a / 10, b / 10);
    }
}

fn digit_str(d: u64) -> (text: &'static str)
    requires
        d < 10,
    ensures
        text@ == digit_text(d as int),
{
    if d == 0 {
        "0"
    } else if d == 1 {
        "1"
    } else if d == 2 {
        "2"
    } else if d == 3 {
        "3"
    } else if d == 4 {
        "4"
    } else if d == 5 {
        "5"
    } else if d == 6 {
        "6"
    } else if d == 7 {
        "7"
    } else if d == 8 {
        "8"
    } else {
        "9"
    }
}

/// Writes `n` in decimal notation.
pub fn nat_to_string(n: u64) -> (text: String)
    ensures
        text@ == nat_text(n as nat),
    decreases n,
{
    if n < 10 {
        String::from_str(digit_str(n))
    } else {
        let mut text = nat_to_string(n / 10);
        text.append(digit_str(n % 10));
        text
    }
}

/// Writes `i` in decimal notation.
pub fn int_to_string(i: i64) -> (text: String)
    ensures
        text@ == int_text(i as int),
{
    if i < 0 {
        let magnitude: u64 = ((-(i + 1)) as u64) + 1;
        let digits = nat_to_string(magnitude);
        let mut text = String::from_str("-");
        text.append(digits.as_str());
        text
    } else {
        nat_to_string(i as u64)
    }
}

/// A term as text: an atom and a variable by their name, a number in
/// decimal notation, a compound term as its functor followed by its
/// arguments in round brackets, with commas between them.
pub open spec fn term_text(t: TermView) -> Seq<char>
    decreases t,
{
    match t {
        TermView::Atom(name) => name,
        TermView::Var(name) => name,
        TermView::Number(value) => int_text(value),
        TermView::Str(functor, args) => functor + "("@ + join_texts(term_texts(args), ","@) + ")"@,
    }
}

/// The texts of `ts`, in order.
pub open spec fn term_texts(ts: Seq<TermView>) -> Seq<Seq<char>>
    decreases ts,
{
    if ts.len() == 0 {
        Seq::empty()
    } else {
        term_texts(ts.drop_last()).push(term_text(ts.last()))
    }
}

/// `term_texts` works position by position.
pub proof fn lemma_term_texts(ts: Seq<TermView>)
    ensures
        term_texts(ts).len() == ts.len(),
        forall|i: int| 0 <= i < ts.len() ==> #[trigger] term_texts(ts)[i] == term_text(ts[i]),
    decreases ts.len(),
{
    if ts.len() > 0 {
        lemma_term_texts(ts.drop_last());
    }
}

impl Term {
    /// The term as text.
    pub fn to_string(&self) -> (text: String)
        ensures
            text@ == term_text(self@),
        decreases self,
    {
        match self {
            Term::Atom(name) => name.clone(),
            Term::Var(name) => name.clone(),
            Term::Number(value) => int_to_string(*value),
            Term::Str(functor, args) => {
                proof {
                    lemma_view_args(self);
                }
                let ghost all = self@->Str_1;
                let mut parts: Vec<String> = Vec::new();
                let mut i: usize = 0;
                while i < args.len()
                    invariant
                        i <= args.len(),
                        self is Str,
                        self->Str_1 == *args,
                        all.len() == args@.len(),
                        forall|j: int| 0 <= j < args@.len() ==> #[trigger] all[j] == args@[j]@,
                        parts.len() == i,
                        forall|j: int| 0 <= j < i ==> (#[trigger] parts@[j])@ == term_text(all[j]),
                    decreases args.len() - i,
                {
                    let part = args[i].to_string();
                    parts.push(part);
                    i += 1;
                }
                proof {
                    lemma_term_texts(all);
                    assert(names_view(parts@) =~= term_texts(all));
                }
                let inner = join(&parts, ",");
                let mut text = functor.clone();
                text.append("(");
                text.append(inner.as_str());
                text.append(")");
                text
            },
        }
    }
}

/// One variable of a query with the value that an answer shows for it.
pub open spec fn binding_text(var: Seq<char>, value: TermView) -> Seq<char> {
    var + " = "@ + term_text(value)
}

/// The texts of the variables `vars` with their values under `theta`, in
/// order.
pub open spec fn binding_texts(vars: Seq<Seq<char>>, theta: SubstView) -> Seq<Seq<char>> {
    Seq::new(vars.len(), |i: int| binding_text(vars[i], project_spec(vars, theta)[i]))
}

/// An answer as one line: each variable of the query with its value, with
/// commas between them.
pub open spec fn answer_text(vars: Seq<Seq<char>>, theta: SubstView) -> Seq<char> {
    join_texts(binding_texts(vars, theta), ","@)
}

/// Writes the answer `bindings` to a query with the variables `vars` as
/// one line.
pub fn answer_line(vars: &Vec<String>, bindings: &Substitution) -> (line: String)
    ensures
        line@ == answer_text(names_view(vars@), bindings@),
{
    let values = project(vars, bindings);
    let ghost shown = project_spec(names_view(vars@), bindings@);
    let mut parts: Vec<String> = Vec::new();
    let mut i: usize = 0;
    proof {
        lemma_terms_view(values@);
    }
    while i < vars.len()
        invariant
            i <= vars.len(),
            parts.len() == i,
            values.len() == vars.len(),
            shown == project_spec(names_view(vars@), bindings@),
            forall|j: int| 0 <= j < values.len() ==> (#[trigger] values@[j])@ == shown[j],
            forall|j: int|
                0 <= j < i ==> (#[trigger] parts@[j])@ == binding_text(vars@[j]@, shown[j]),
        decreases vars.len() - i,
    {
        let text = values[i].to_string();
        let mut part = vars[i].clone();
        part.append(" = ");
        part.append(text.as_str());
        parts.push(part);
        i += 1;
    }
    assert(names_view(parts@) =~= binding_texts(names_view(vars@), bindings@));
    join(&parts, ",")
}

/// What a search found as text: one line for each answer, with a
/// semicolon between one line and the next. Where the search came to its
/// end without an answer, the text is `false.`. Where it did not come to
/// its end, a last line says `unfinished.`.
pub open spec fn report_text(vars: Seq<Seq<char>>, answers: Seq<SubstView>, complete: bool) -> Seq<
    char,
> {
    let lines = Seq::new(answers.len(), |i: int| answer_text(vars, answers[i]));
    if !complete {
        join_texts(lines.push("unfinished."@), ";\n"@)
    } else if answers.len() == 0 {
        "false."@
    } else {
        join_texts(lines, ";\n"@)
    }
}

/// Writes what a search for a query with the variables `vars` found.
pub fn report(vars: &Vec<String>, answers: &Vec<Substitution>, complete: bool) -> (text: String)
    ensures
        text@ == report_text(names_view(vars@), substs_view(answers@), complete),
{
    if complete && answers.len() == 0 {
        return String::from_str("false.");
    }
    let mut lines: Vec<String> = Vec::new();
    let mut i: usize = 0;
    while i < answers.len()
        invariant
            i <= answers.len(),
            lines.len() == i,
            forall|j: int|
                0 <= j < i ==> (#[trigger] lines@[j])@ == answer_text(
                    names_view(vars@),
                    answers@[j]@,
                ),
        decreases answers.len() - i,
    {
        lines.push(answer_line(vars, &answers[i]));
        i += 1;
    }
    let ghost views = substs_view(answers@);
    let ghost texts = Seq::new(views.len(), |i: int| answer_text(names_view(vars@), views[i]));
    assert(names_view(lines@) =~= texts);
    if !complete {
        lines.push(String::from_str("unfinished."));
        assert(names_view(lines@) =~= texts.push("unfinished."@));
    }
    join(&lines, ";\n")
}

} // verus!
