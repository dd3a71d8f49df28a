//! Logic terms and their mathematical model.

use vstd::prelude::*;
use vstd::std_specs::cmp::PartialEqSpecImpl;

verus! {

/// The mathematical value of a term: what contracts speak about.
pub enum TermView {
    /// A named constant.
    Atom(Seq<char>),
    /// A logic variable.
    Var(Seq<char>),
    /// An integer constant.
    Number(int),
    /// A functor applied to an ordered sequence of sub-terms.
    Str(Seq<char>, Seq<TermView>),
}

/// A logic term.
#[derive(Debug)]
pub enum Term {
    /// A named constant.
    Atom(String),
    /// A logic variable.
    Var(String),
    /// An integer constant.
    Number(i64),
    /// A functor applied to an ordered sequence of sub-terms.
    Str(String, Vec<Term>),
}

/// The model of one term.
pub open spec fn term_view(t: Term) -> TermView
    decreases t,
{
    match t {
        Term::Atom(name) => TermView::Atom(name@),
        Term::Var(name) => TermView::Var(name@),
        Term::Number(value) => TermView::Number(value as int),
        Term::Str(functor, args) => TermView::Str(functor@, terms_view(args@)),
    }
}

/// The models of a sequence of terms, in order.
pub open spec fn terms_view(ts: Seq<Term>) -> Seq<TermView>
    decreases ts,
{
    if ts.len() == 0 {
        Seq::empty()
    } else {
        terms_view(ts.drop_last()).push(term_view(ts.last()))
    }
}

impl View for Term {
    type V = TermView;

    open spec fn view(&self) -> TermView {
        term_view(*self)
    }
}

/// The texts held in a sequence of strings.
pub open spec fn names_view(names: Seq<String>) -> Seq<Seq<char>> {
    Seq::new(names.len(), |i: int| names[i]@)
}

/// `terms_view` works position by position.
pub proof fn lemma_terms_view(ts: Seq<Term>)
    ensures
        terms_view(ts).len() == ts.len(),
        forall|i: int| 0 <= i < ts.len() ==> #[trigger] terms_view(ts)[i] == ts[i]@,
    decreases ts.len(),
{
    if ts.len() > 0 {
        lemma_terms_view(ts.drop_last());
    }
}

/// An argument of a compound term is structurally smaller than the term.
pub proof fn lemma_arg_smaller(t: &Term, i: int)
    requires
        t is Str,
        0 <= i < t->Str_1@.len(),
    ensures
        decreases_to!(t => t->Str_1@[i]),
{
}

/// The model of a compound term, argument by argument.
pub proof fn lemma_view_args(t: &Term)
    requires
        t is Str,
    ensures
        t@ is Str,
        t@->Str_0 == t->Str_0@,
        t@->Str_1.len() == t->Str_1@.len(),
        forall|i: int| 0 <= i < t->Str_1@.len() ==> #[trigger] t@->Str_1[i] == t->Str_1@[i]@,
{
    lemma_terms_view(t->Str_1@);
}

impl Clone for Term {
    fn clone(&self) -> (res: Self)
        ensures
            res@ == self@,
        decreases self,
    {
        match self {
            Term::Atom(name) => Term::Atom(name.clone()),
            Term::Var(name) => Term::Var(name.clone()),
            Term::Number(value) => Term::Number(*value),
            Term::Str(functor, args) => {
                let mut copies: Vec<Term> = Vec::new();
                let mut i: usize = 0;
                while i < args.len()
                    invariant
                        i <= args.len(),
                        copies.len() == i,
                        forall|j: int| 0 <= j < i ==> copies@[j]@ == args@[j]@,
                        *self == Term::Str(*functor, *args),
                    decreases args.len() - i,
                {
                    proof {
                        lemma_arg_smaller(self, i as int);
                    }
                    let copy = args[i].clone();
                    copies.push(copy);
                    i += 1;
                }
                let res = Term::Str(functor.clone(), copies);
                proof {
                    lemma_view_args(self);
                    lemma_view_args(&res);
                    assert(res@->Str_1 =~= self@->Str_1);
                }
                res
            },
        }
    }
}

impl Term {
    /// Structural equality: same variant, same name or value, and equal
    /// arguments position by position.
    pub fn same(&self, other: &Term) -> (r: bool)
        ensures
            r == (self@ == other@),
        decreases self,
    {
        match self {
            Term::Atom(a) => match other {
                Term::Atom(b) => {
                    *a == *b
                },
                _ => {
                    false
                },
            },
            Term::Var(a) => match other {
                Term::Var(b) => {
                    *a == *b
                },
                _ => {
                    false
                },
            },
            Term::Number(a) => match other {
                Term::Number(b) => {
                    *a == *b
                },
                _ => {
                    false
                },
            },
            Term::Str(f, xs) => match other {
                Term::Str(g, ys) => {
                    proof {
                        lemma_view_args(self);
                        lemma_view_args(other);
                    }
                    if !(*f == *g) || xs.len() != ys.len() {
                        return false;
                    }
                    let mut i: usize = 0;
                    while i < xs.len()
                        invariant
                            i <= xs.len(),
                            xs.len() == ys.len(),
                            forall|j: int| 0 <= j < i ==> xs@[j]@ == ys@[j]@,
                            *self == Term::Str(*f, *xs),
                            *other == Term::Str(*g, *ys),
                        decreases xs.len() - i,
                    {
                        if !xs[i].same(&ys[i]) {
                            proof {
                                lemma_view_args(self);
                                lemma_view_args(other);
                                assert(self@->Str_1[i as int] != other@->Str_1[i as int]);
                            }
                            return false;
                        }
                        i += 1;
                    }
                    proof {
                        assert(self@->Str_1 =~= other@->Str_1);
                    }
                    true
                },
                _ => {
                    false
                },
            },
        }
    }
}

impl PartialEq for Term {
    fn eq(&self, other: &Self) -> (r: bool) {
        self.same(other)
    }
}

impl PartialEqSpecImpl for Term {
    open spec fn obeys_eq_spec() -> bool {
        true
    }

    open spec fn eq_spec(&self, other: &Term) -> bool {
        self@ == other@
    }
}

impl Eq for Term {
}

} // verus!
