//! Partial assignments and the search over them: falsified clauses,
//! forced decisions, propagation to its fixpoint, and the backtracking
//! search, each as a mathematical function with the facts proved of it.

use crate::clause::{
    clause_holds, clause_in_range, clauses_hold, clauses_in_range, lit_holds, lit_in_range, lit_slot,
    satisfiable,
};
use vstd::prelude::*;

verus! {

/// The total assignment `a` agrees with every slot that `pa` has decided.
pub open spec fn completes(a: Seq<bool>, pa: Seq<Option<bool>>) -> bool {
    &&& a.len() == pa.len()
    &&& forall|i: int| 0 <= i < pa.len() && (#[trigger] pa[i]) is Some ==> a[i] == pa[i]->0
}

/// `later` keeps every decision of `earlier`.
pub open spec fn keeps(later: Seq<Option<bool>>, earlier: Seq<Option<bool>>) -> bool {
    &&& later.len() == earlier.len()
    &&& forall|i: int| 0 <= i < earlier.len() && (#[trigger] earlier[i]) is Some ==> later[i] == earlier[i]
}

/// The literal's variable is decided, against the literal.
pub open spec fn lit_refuted(lit: isize, pa: Seq<Option<bool>>) -> bool {
    pa[lit_slot(lit)] == Some(!(lit > 0))
}

/// Every literal of the clause is decided against it.
pub open spec fn clause_refuted(clause: Seq<isize>, pa: Seq<Option<bool>>) -> bool {
    forall|i: int| 0 <= i < clause.len() ==> lit_refuted(#[trigger] clause[i], pa)
}

/// Some clause is falsified under the partial assignment.
pub open spec fn some_clause_refuted(clauses: Seq<Seq<isize>>, pa: Seq<Option<bool>>) -> bool {
    exists|i: int| 0 <= i < clauses.len() && clause_refuted(#[trigger] clauses[i], pa)
}

/// Position `k` holds the one undecided literal of the clause, and every
/// other position is decided against its literal.
pub open spec fn unit_at(clause: Seq<isize>, pa: Seq<Option<bool>>, k: int) -> bool {
    &&& 0 <= k < clause.len()
    &&& pa[lit_slot(clause[k])] is None
    &&& forall|j: int| 0 <= j < clause.len() && j != k ==> lit_refuted(#[trigger] clause[j], pa)
}

/// The decision that a clause forces under a partial assignment, if any:
/// the slot and value of its single undecided literal when all the others
/// are refuted.
pub open spec fn implied(clause: Seq<isize>, pa: Seq<Option<bool>>) -> Option<(usize, bool)> {
    if exists|k: int| unit_at(clause, pa, k) {
        let k = choose|k: int| unit_at(clause, pa, k);
        Some((lit_slot(clause[k]) as usize, clause[k] > 0))
    } else {
        None
    }
}

/// Clause `k` is the first one that forces a decision.
pub open spec fn first_implied_at(clauses: Seq<Seq<isize>>, pa: Seq<Option<bool>>, k: int) -> bool {
    &&& 0 <= k < clauses.len()
    &&& implied(clauses[k], pa) is Some
    &&& forall|j: int| 0 <= j < k ==> implied(#[trigger] clauses[j], pa) is None
}

/// The decision forced by the first clause that forces one.
pub open spec fn first_implied(clauses: Seq<Seq<isize>>, pa: Seq<Option<bool>>) -> Option<(usize, bool)> {
    if exists|k: int| first_implied_at(clauses, pa, k) {
        implied(clauses[choose|k: int| first_implied_at(clauses, pa, k)], pa)
    } else {
        None
    }
}

/// Slot `i` is the lowest undecided one.
pub open spec fn lowest_open_at(pa: Seq<Option<bool>>, i: int) -> bool {
    &&& 0 <= i < pa.len()
    &&& pa[i] is None
    &&& forall|j: int| 0 <= j < i ==> (#[trigger] pa[j]) is Some
}

/// The lowest undecided slot, if any slot is undecided.
pub open spec fn lowest_open(pa: Seq<Option<bool>>) -> Option<int> {
    if exists|i: int| lowest_open_at(pa, i) {
        Some(choose|i: int| lowest_open_at(pa, i))
    } else {
        None
    }
}

/// The values of a partial assignment in which every slot is decided.
pub open spec fn values_of(pa: Seq<Option<bool>>) -> Seq<bool> {
    Seq::new(pa.len(), |i: int| pa[i]->0)
}

/// Number of undecided slots.
pub open spec fn unassigned(pa: Seq<Option<bool>>) -> nat
    decreases pa.len(),
{
    if pa.len() == 0 {
        0
    } else {
        unassigned(pa.drop_last()) + if pa.last() is None {
            1nat
        } else {
            0nat
        }
    }
}

/// Unit propagation to its fixpoint: forced decisions are committed one at
/// a time, each taken from the first clause that forces one, until no
/// clause forces any. `None` when a commit leaves some clause falsified.
///
/// The comparison of undecided counts is there for termination alone: over
/// clauses in range a forced slot is undecided, so the count always falls
/// (`lemma_propagated_is_monotonic`).
pub open spec fn propagated(clauses: Seq<Seq<isize>>, pa: Seq<Option<bool>>) -> Option<Seq<Option<bool>>>
    decreases unassigned(pa),
{
    match first_implied(clauses, pa) {
        None => Some(pa),
        Some((slot, value)) => {
            let next = pa.update(slot as int, Some(value));
            if some_clause_refuted(clauses, next) {
                None
            } else if unassigned(next) < unassigned(pa) {
                propagated(clauses, next)
            } else {
                Some(pa)
            }
        },
    }
}

/// The search itself: fail on a falsified clause, propagate, and when slots
/// stay undecided split on the lowest of them, `true` before `false`.
///
/// The comparison of undecided counts is there for termination alone: a
/// split decides one more slot than propagation left, so the count always
/// falls (`theorem_search_decides`).
pub open spec fn search(clauses: Seq<Seq<isize>>, pa: Seq<Option<bool>>) -> Option<Seq<bool>>
    decreases unassigned(pa),
{
    if some_clause_refuted(clauses, pa) {
        None
    } else {
        match propagated(clauses, pa) {
            None => None,
            Some(fixed) => match lowest_open(fixed) {
                None => Some(values_of(fixed)),
                Some(slot) => {
                    let on_true = fixed.update(slot, Some(true));
                    let on_false = fixed.update(slot, Some(false));
                    if unassigned(on_true) < unassigned(pa) && unassigned(on_false) < unassigned(pa) {
                        match search(clauses, on_true) {
                            Some(a) => Some(a),
                            None => search(clauses, on_false),
                        }
                    } else {
                        None
                    }
                },
            },
        }
    }
}

/// Deciding an undecided slot lowers the count of undecided slots by one.
pub proof fn lemma_decide_lowers_unassigned(pa: Seq<Option<bool>>, i: int, v: bool)
    requires
        0 <= i < pa.len(),
        pa[i] is None,
    ensures
        unassigned(pa.update(i, Some(v))) + 1 == unassigned(pa),
    decreases pa.len(),
{
    let next = pa.update(i, Some(v));
    if i == pa.len() - 1 {
        assert(next.drop_last() =~= pa.drop_last());
    } else {
        assert(next.drop_last() =~= pa.drop_last().update(i, Some(v)));
        lemma_decide_lowers_unassigned(pa.drop_last(), i, v);
    }
}

/// A refuted clause fails under every completion of the partial assignment.
pub proof fn lemma_refuted_never_holds(clause: Seq<isize>, pa: Seq<Option<bool>>, a: Seq<bool>)
    requires
        clause_in_range(clause, pa.len() as int),
        clause_refuted(clause, pa),
        completes(a, pa),
    ensures
        !clause_holds(clause, a),
{
    assert forall|i: int| 0 <= i < clause.len() implies !lit_holds(#[trigger] clause[i], a) by {
        assert(lit_in_range(clause[i], pa.len() as int));
        assert(lit_refuted(clause[i], pa));
        assert(pa[lit_slot(clause[i])] is Some);
    }
}

/// A forced decision is shared by every completion under which the clause
/// holds.
pub proof fn lemma_implied_is_forced(
    clause: Seq<isize>,
    pa: Seq<Option<bool>>,
    a: Seq<bool>,
    slot: usize,
    value: bool,
)
    requires
        clause_in_range(clause, pa.len() as int),
        implied(clause, pa) == Some((slot, value)),
        completes(a, pa),
        clause_holds(clause, a),
    ensures
        slot < pa.len(),
        pa[slot as int] is None,
        a[slot as int] == value,
        completes(a, pa.update(slot as int, Some(value))),
{
    let k = choose|k: int| unit_at(clause, pa, k);
    assert(lit_in_range(clause[k], pa.len() as int));
    let w = choose|i: int| 0 <= i < clause.len() && lit_holds(#[trigger] clause[i], a);
    if w != k {
        assert(lit_in_range(clause[w], pa.len() as int));
        assert(lit_refuted(clause[w], pa));
        assert(pa[lit_slot(clause[w])] is Some);
        assert(false);
    }
}

/// One propagation step only ever fills an undecided slot: no earlier
/// decision is lost, and the count of undecided slots strictly falls, so
/// repeated steps must stop.
pub proof fn lemma_propagation_step_progress(
    clause: Seq<isize>,
    pa: Seq<Option<bool>>,
    slot: usize,
    value: bool,
)
    requires
        clause_in_range(clause, pa.len() as int),
        implied(clause, pa) == Some((slot, value)),
    ensures
        slot < pa.len(),
        pa[slot as int] is None,
        keeps(pa.update(slot as int, Some(value)), pa),
        unassigned(pa.update(slot as int, Some(value))) < unassigned(pa),
{
    let k = choose|k: int| unit_at(clause, pa, k);
    assert(lit_in_range(clause[k], pa.len() as int));
    lemma_decide_lowers_unassigned(pa, slot as int, value);
}

/// Propagation to the fixpoint is monotonic: it keeps every decision it
/// started from, never raises the count of undecided slots, and where it
/// ends without a falsified clause no clause forces a further decision.
pub proof fn lemma_propagated_is_monotonic(clauses: Seq<Seq<isize>>, pa: Seq<Option<bool>>)
    requires
        clauses_in_range(clauses, pa.len() as int),
    ensures
        propagated(clauses, pa) matches Some(fixed) ==> {
            &&& keeps(fixed, pa)
            &&& unassigned(fixed) <= unassigned(pa)
            &&& first_implied(clauses, fixed) is None
        },
    decreases unassigned(pa),
{
    match first_implied(clauses, pa) {
        None => {},
        Some((slot, value)) => {
            let k = choose|k: int| first_implied_at(clauses, pa, k);
            lemma_propagation_step_progress(clauses[k], pa, slot, value);
            let next = pa.update(slot as int, Some(value));
            if !some_clause_refuted(clauses, next) {
                lemma_propagated_is_monotonic(clauses, next);
                match propagated(clauses, next) {
                    Some(fixed) => {
                        assert forall|i: int| 0 <= i < pa.len() && (#[trigger] pa[i]) is Some implies fixed[i]
                            == pa[i] by {
                            assert(next[i] == pa[i]);
                        }
                    },
                    None => {},
                }
            }
        },
    }
}

/// Propagation loses no solution: a completion under which the clauses
/// hold completes the fixpoint too, and where propagation ends in a
/// falsified clause no completion makes the clauses hold. It also falsifies
/// no clause without saying so.
pub proof fn lemma_propagated_keeps_solutions(clauses: Seq<Seq<isize>>, pa: Seq<Option<bool>>)
    requires
        clauses_in_range(clauses, pa.len() as int),
        !some_clause_refuted(clauses, pa),
    ensures
        match propagated(clauses, pa) {
            Some(fixed) => {
                &&& !some_clause_refuted(clauses, fixed)
                &&& forall|a: Seq<bool>| completes(a, pa) && #[trigger] clauses_hold(clauses, a) ==> completes(a, fixed)
            },
            None => forall|a: Seq<bool>| completes(a, pa) ==> !#[trigger] clauses_hold(clauses, a),
        },
    decreases unassigned(pa),
{
    match first_implied(clauses, pa) {
        None => {},
        Some((slot, value)) => {
            let k = choose|k: int| first_implied_at(clauses, pa, k);
            lemma_propagation_step_progress(clauses[k], pa, slot, value);
            let next = pa.update(slot as int, Some(value));
            assert forall|a: Seq<bool>| completes(a, pa) && #[trigger] clauses_hold(clauses, a) implies completes(
                a,
                next,
            ) by {
                assert(clause_holds(clauses[k], a));
                lemma_implied_is_forced(clauses[k], pa, a, slot, value);
            }
            if some_clause_refuted(clauses, next) {
                let j = choose|j: int| 0 <= j < clauses.len() && clause_refuted(#[trigger] clauses[j], next);
                assert forall|a: Seq<bool>| completes(a, pa) implies !#[trigger] clauses_hold(clauses, a) by {
                    if clauses_hold(clauses, a) {
                        lemma_refuted_never_holds(clauses[j], next, a);
                    }
                }
            } else {
                lemma_propagated_keeps_solutions(clauses, next);
            }
        },
    }
}

/// Where no slot is the lowest undecided one, every slot is decided.
pub proof fn lemma_none_open(pa: Seq<Option<bool>>, upto: int)
    requires
        lowest_open(pa) is None,
        0 <= upto <= pa.len(),
    ensures
        forall|i: int| 0 <= i < upto ==> (#[trigger] pa[i]) is Some,
    decreases upto,
{
    if upto > 0 {
        lemma_none_open(pa, upto - 1);
        assert(!lowest_open_at(pa, upto - 1));
    }
}

/// A partial assignment with every slot decided and no clause refuted
/// makes every clause hold.
pub proof fn lemma_decided_holds(clauses: Seq<Seq<isize>>, pa: Seq<Option<bool>>)
    requires
        clauses_in_range(clauses, pa.len() as int),
        !some_clause_refuted(clauses, pa),
        forall|i: int| 0 <= i < pa.len() ==> (#[trigger] pa[i]) is Some,
    ensures
        completes(values_of(pa), pa),
        clauses_hold(clauses, values_of(pa)),
{
    let a = values_of(pa);
    assert forall|i: int| 0 <= i < clauses.len() implies clause_holds(#[trigger] clauses[i], a) by {
        let c = clauses[i];
        assert(!clause_refuted(c, pa));
        let j = choose|j: int| 0 <= j < c.len() && !lit_refuted(#[trigger] c[j], pa);
        assert(clause_in_range(c, pa.len() as int));
        assert(lit_in_range(c[j], pa.len() as int));
        assert(pa[lit_slot(c[j])] is Some);
        assert(lit_holds(c[j], a));
    }
}

/// The search decides: what it returns completes the partial assignment it
/// started from and makes every clause hold, and it returns nothing only
/// when no completion does.
pub proof fn theorem_search_decides(clauses: Seq<Seq<isize>>, pa: Seq<Option<bool>>)
    requires
        clauses_in_range(clauses, pa.len() as int),
    ensures
        match search(clauses, pa) {
            Some(a) => completes(a, pa) && clauses_hold(clauses, a),
            None => forall|a: Seq<bool>| completes(a, pa) ==> !#[trigger] clauses_hold(clauses, a),
        },
    decreases unassigned(pa),
{
    if some_clause_refuted(clauses, pa) {
        let j = choose|j: int| 0 <= j < clauses.len() && clause_refuted(#[trigger] clauses[j], pa);
        assert forall|a: Seq<bool>| completes(a, pa) implies !#[trigger] clauses_hold(clauses, a) by {
            if clauses_hold(clauses, a) {
                lemma_refuted_never_holds(clauses[j], pa, a);
            }
        }
    } else {
        lemma_propagated_is_monotonic(clauses, pa);
        lemma_propagated_keeps_solutions(clauses, pa);
        match propagated(clauses, pa) {
            None => {},
            Some(fixed) => match lowest_open(fixed) {
                None => {
                    lemma_none_open(fixed, fixed.len() as int);
                    lemma_decided_holds(clauses, fixed);
                    let a = values_of(fixed);
                    assert forall|i: int| 0 <= i < pa.len() && (#[trigger] pa[i]) is Some implies a[i] == pa[i]->0 by {
                        assert(fixed[i] == pa[i]);
                    }
                },
                Some(slot) => {
                    let on_true = fixed.update(slot, Some(true));
                    let on_false = fixed.update(slot, Some(false));
                    assert(lowest_open_at(fixed, slot));
                    lemma_decide_lowers_unassigned(fixed, slot, true);
                    lemma_decide_lowers_unassigned(fixed, slot, false);
                    theorem_search_decides(clauses, on_true);
                    theorem_search_decides(clauses, on_false);
                    match search(clauses, on_true) {
                        Some(a) => {
                            lemma_branch_completes(a, pa, fixed, slot, true);
                        },
                        None => match search(clauses, on_false) {
                            Some(a) => {
                                lemma_branch_completes(a, pa, fixed, slot, false);
                            },
                            None => {
                                assert forall|a: Seq<bool>| completes(a, pa) implies !#[trigger] clauses_hold(
                                    clauses,
                                    a,
                                ) by {
                                    if clauses_hold(clauses, a) {
                                        assert(completes(a, fixed));
                                        if a[slot] {
                                            assert(completes(a, on_true));
                                        } else {
                                            assert(completes(a, on_false));
                                        }
                                    }
                                }
                            },
                        },
                    }
                },
            },
        }
    }
}

/// A completion of a partial assignment with one more slot decided
/// completes every partial assignment whose decisions that one keeps.
pub proof fn lemma_branch_completes(
    a: Seq<bool>,
    start: Seq<Option<bool>>,
    now: Seq<Option<bool>>,
    idx: int,
    value: bool,
)
    requires
        keeps(now, start),
        0 <= idx < now.len(),
        now[idx] is None,
        completes(a, now.update(idx, Some(value))),
    ensures
        completes(a, start),
{
    let branch = now.update(idx, Some(value));
    assert forall|i: int| 0 <= i < start.len() && (#[trigger] start[i]) is Some implies a[i] == start[i]->0 by {
        assert(now[i] == start[i]);
        assert(branch[i] == now[i]);
    }
}

/// The partial assignment over `n` variables that decides nothing.
pub open spec fn all_open(n: nat) -> Seq<Option<bool>> {
    Seq::new(n, |i: int| None::<bool>)
}

/// Started with nothing decided, the search finds an assignment exactly
/// when the clauses are satisfiable, and what it finds makes every clause
/// hold.
pub proof fn theorem_search_finds_iff_satisfiable(clauses: Seq<Seq<isize>>, n: nat)
    requires
        clauses_in_range(clauses, n as int),
    ensures
        search(clauses, all_open(n)) is Some <==> satisfiable(clauses, n),
        search(clauses, all_open(n)) matches Some(a) ==> a.len() == n && clauses_hold(clauses, a),
{
    theorem_search_decides(clauses, all_open(n));
    if search(clauses, all_open(n)) is None {
        assert forall|a: Seq<bool>| a.len() == n implies !#[trigger] clauses_hold(clauses, a) by {
            assert(completes(a, all_open(n)));
        }
    }
}

} // verus!
