//! Literals, clauses and what it means for them to hold under a total
//! assignment.

use vstd::prelude::*;

verus! {

/// Zero-based slot of the variable that a literal speaks of.
pub open spec fn lit_slot(lit: isize) -> int {
    if lit > 0 {
        lit - 1
    } else {
        -lit - 1
    }
}

/// A literal is usable over `n` variables when it is non-zero and its
/// magnitude is at most `n`.
pub open spec fn lit_in_range(lit: isize, n: int) -> bool {
    lit != 0 && -n <= lit <= n
}

/// Every literal of the clause is usable over `n` variables.
pub open spec fn clause_in_range(clause: Seq<isize>, n: int) -> bool {
    forall|i: int| 0 <= i < clause.len() ==> lit_in_range(#[trigger] clause[i], n)
}

/// Every literal of every clause is usable over `n` variables.
pub open spec fn clauses_in_range(clauses: Seq<Seq<isize>>, n: int) -> bool {
    forall|i: int| 0 <= i < clauses.len() ==> clause_in_range(#[trigger] clauses[i], n)
}

/// Truth of a literal under a total assignment.
pub open spec fn lit_holds(lit: isize, a: Seq<bool>) -> bool {
    a[lit_slot(lit)] == (lit > 0)
}

/// A clause is a disjunction: it holds when one of its literals does.
pub open spec fn clause_holds(clause: Seq<isize>, a: Seq<bool>) -> bool {
    exists|i: int| 0 <= i < clause.len() && lit_holds(#[trigger] clause[i], a)
}

/// A clause set is a conjunction: it holds when each clause does.
pub open spec fn clauses_hold(clauses: Seq<Seq<isize>>, a: Seq<bool>) -> bool {
    forall|i: int| 0 <= i < clauses.len() ==> clause_holds(#[trigger] clauses[i], a)
}

/// Some total assignment over `n` variables makes every clause hold.
pub open spec fn satisfiable(clauses: Seq<Seq<isize>>, n: nat) -> bool {
    exists|a: Seq<bool>| a.len() == n && #[trigger] clauses_hold(clauses, a)
}

/// Computes the slot of a literal's variable.
pub fn slot_of(lit: isize) -> (slot: usize)
    requires
        lit != 0,
    ensures
        slot == lit_slot(lit),
{
    if lit > 0 {
        (lit - 1) as usize
    } else {
        (-(lit + 1)) as usize
    }
}

} // verus!
