//! Satisfiability of propositional formulas: a formula tree is encoded as
//! an equisatisfiable clause set, and a backtracking search over partial
//! assignments finds an assignment under which every clause holds or shows
//! that there is none.
//!
//! - `expr`: formula trees, their truth value, and the encoder.
//! - `tseitin`: the proofs that the encoding is equisatisfiable and that a
//!   satisfying assignment of the clauses satisfies the formula.
//! - `clause`, `search`: clauses under total and partial assignments, and
//!   the search as a function with the proof that it decides.
//! - `cnf`: the clause set itself and the executable search.
//! - `conditioning`: rewriting clauses by conditioning on a literal.
//! - `lexer`: the symbols of a formula's text.
//! - `vm`: postfix code for evaluating a formula on a stack.
//! - `text`: numbers and characters written out.

pub mod clause;
pub mod cnf;
pub mod conditioning;
pub mod expr;
pub mod lexer;
pub mod search;
pub mod text;
pub mod tseitin;
pub mod vm;
