//! A small logic-programming engine: terms, syntactic unification, a clause
//! database indexed by predicate, and a depth-first resolution prover.
//!
//! - `term`, `subst`: terms and substitutions, with their mathematical
//!   models.
//! - `unify`, `walk`: unification with an optional occurs check, and the
//!   application of a substitution to a term.
//! - `database`: clauses indexed by the name and arity of their head.
//! - `rename`, `prover`: renaming clauses apart, and the search for answers.
//! - `parser`, `text`: reading programs and queries, writing terms and
//!   answers.
//! - `solution`, `acyclic`, `failure`, `depth`, `entail`: what unification
//!   and the answers of the prover mean, stated and proved.

pub mod acyclic;
pub mod database;
pub mod depth;
pub mod entail;
pub mod failure;
pub mod parser;
pub mod prover;
pub mod rename;
pub mod solution;
pub mod subst;
pub mod term;
pub mod text;
pub mod unify;
pub mod walk;
