//! Conditioning a clause set on a literal, unit propagation by
//! conditioning, and why both keep satisfiability.

use crate::clause::{
    clause_holds, clause_in_range, clauses_hold, clauses_in_range, lit_holds, lit_in_range, lit_slot,
    satisfiable,
};
use vstd::prelude::*;

verus! {

/// Clause `k` is the first one that has exactly one literal.
pub open spec fn first_unit_at(clauses: Seq<Seq<isize>>, k: int) -> bool {
    &&& 0 <= k < clauses.len()
    &&& clauses[k].len() == 1
    &&& forall|j: int| 0 <= j < k ==> (#[trigger] clauses[j]).len() != 1
}

/// The literal of the first clause that has exactly one literal.
pub open spec fn first_unit(clauses: Seq<Seq<isize>>) -> Option<isize> {
    if exists|k: int| first_unit_at(clauses, k) {
        Some(clauses[choose|k: int| first_unit_at(clauses, k)][0])
    } else {
        None
    }
}

/// Holds of every literal but `gone`.
pub open spec fn differs_from(gone: int) -> spec_fn(isize) -> bool {
    |lit: isize| lit != gone
}

/// Holds of every clause that does not hold the literal `target`.
pub open spec fn lacks(target: isize) -> spec_fn(Seq<isize>) -> bool {
    |c: Seq<isize>| !c.contains(target)
}

/// The clause without the occurrences of one literal.
pub open spec fn struck(clause: Seq<isize>, gone: int) -> Seq<isize> {
    clause.filter(differs_from(gone))
}

/// Strikes the negation of `target` from a clause.
pub open spec fn strike(target: isize) -> spec_fn(Seq<isize>) -> Seq<isize> {
    |c: Seq<isize>| struck(c, -target)
}

/// The clauses once `target` is taken to be true: clauses that hold the
/// literal are dropped, and its negation is struck from the others.
pub open spec fn conditioned_clauses(clauses: Seq<Seq<isize>>, target: isize) -> Seq<Seq<isize>> {
    clauses.filter(lacks(target)).map_values(strike(target))
}

/// The clauses after conditioning on the literal of a one-literal clause
/// for as long as there is such a clause.
///
/// The comparison of lengths is there for termination alone: conditioning
/// on the literal of a clause drops that clause
/// (`lemma_conditioned_shrinks`).
pub open spec fn unit_propagated(clauses: Seq<Seq<isize>>) -> Seq<Seq<isize>>
    decreases clauses.len(),
{
    match first_unit(clauses) {
        None => clauses,
        Some(lit) => {
            let next = conditioned_clauses(clauses, lit);
            if next.len() < clauses.len() {
                unit_propagated(next)
            } else {
                clauses
            }
        },
    }
}

/// The truth values after each literal met by `unit_propagated` was written
/// into the slot of its variable.
pub open spec fn unit_recorded(clauses: Seq<Seq<isize>>, values: Seq<bool>) -> Seq<bool>
    decreases clauses.len(),
{
    match first_unit(clauses) {
        None => values,
        Some(lit) => {
            let next = conditioned_clauses(clauses, lit);
            if next.len() < clauses.len() {
                unit_recorded(next, values.update(lit_slot(lit), lit > 0))
            } else {
                values
            }
        },
    }
}

/// What a filter keeps was there before.
pub proof fn lemma_filter_keeps_members<A>(s: Seq<A>, pred: spec_fn(A) -> bool, x: A)
    requires
        s.filter(pred).contains(x),
    ensures
        s.contains(x),
    decreases s.len(),
{
    reveal(Seq::filter);
    if s.len() > 0 {
        let rest = s.drop_last().filter(pred);
        if pred(s.last()) && x == s.last() {
            assert(s[s.len() - 1] == x);
        } else {
            if pred(s.last()) {
                let i = choose|i: int| 0 <= i < s.filter(pred).len() && s.filter(pred)[i] == x;
                assert(rest.push(s.last())[i] == x);
                assert(rest[i] == x);
            }
            lemma_filter_keeps_members(s.drop_last(), pred, x);
            let k = choose|k: int| 0 <= k < s.drop_last().len() && s.drop_last()[k] == x;
            assert(s[k] == x);
        }
    }
}

/// Conditioning never adds a clause or a literal, and keeps the literals in
/// range.
pub proof fn lemma_conditioned_in_range(clauses: Seq<Seq<isize>>, target: isize, n: int)
    requires
        clauses_in_range(clauses, n),
    ensures
        clauses_in_range(conditioned_clauses(clauses, target), n),
        conditioned_clauses(clauses, target).len() <= clauses.len(),
{
    let out = conditioned_clauses(clauses, target);
    clauses.lemma_filter_len(lacks(target));
    assert forall|i: int| 0 <= i < out.len() implies clause_in_range(#[trigger] out[i], n) by {
        let k = lemma_conditioned_source(clauses, target, i);
        let c = clauses[k];
        assert(clause_in_range(c, n));
        lemma_struck_literals(c, -target);
        let lits = out[i];
        assert forall|j: int| 0 <= j < lits.len() implies lit_in_range(#[trigger] lits[j], n) by {
            assert(c.contains(lits[j]));
            let m = choose|m: int| 0 <= m < c.len() && c[m] == lits[j];
            assert(lit_in_range(c[m], n));
        }
    }
}

/// Conditioning on a literal drops every clause that holds it, so the
/// clause set shrinks when some clause does.
pub proof fn lemma_conditioned_shrinks(clauses: Seq<Seq<isize>>, target: isize, k: int)
    requires
        0 <= k < clauses.len(),
        clauses[k].contains(target),
    ensures
        conditioned_clauses(clauses, target).len() < clauses.len(),
    decreases clauses.len(),
{
    reveal(Seq::filter);
    clauses.drop_last().lemma_filter_len(lacks(target));
    if k < clauses.len() - 1 {
        lemma_conditioned_shrinks(clauses.drop_last(), target, k);
    }
}

/// No literal of the clauses names a variable below `low`.
pub open spec fn clauses_from(clauses: Seq<Seq<isize>>, low: int) -> bool {
    forall|i: int, j: int|
        0 <= i < clauses.len() && 0 <= j < clauses[i].len() ==> lit_slot(#[trigger] clauses[i][j]) + 1 >= low
}

/// Some clause has no literal.
pub open spec fn has_empty_clause(clauses: Seq<Seq<isize>>) -> bool {
    exists|i: int| 0 <= i < clauses.len() && (#[trigger] clauses[i]).len() == 0
}

/// Each conditioned clause is a clause without `target`, struck of the
/// negation of `target`.
pub proof fn lemma_conditioned_source(clauses: Seq<Seq<isize>>, target: isize, i: int) -> (k: int)
    requires
        0 <= i < conditioned_clauses(clauses, target).len(),
    ensures
        0 <= k < clauses.len(),
        !clauses[k].contains(target),
        conditioned_clauses(clauses, target)[i] == struck(clauses[k], -target),
{
    let keep = lacks(target);
    let kept = clauses.filter(keep);
    let c = kept[i];
    clauses.lemma_filter_pred(keep, i);
    assert(kept.contains(c));
    lemma_filter_keeps_members(clauses, keep, c);
    choose|k: int| 0 <= k < clauses.len() && clauses[k] == c
}

/// Each clause without `target` has its struck form among the conditioned
/// clauses.
pub proof fn lemma_conditioned_image(clauses: Seq<Seq<isize>>, target: isize, k: int) -> (i: int)
    requires
        0 <= k < clauses.len(),
        !clauses[k].contains(target),
    ensures
        0 <= i < conditioned_clauses(clauses, target).len(),
        conditioned_clauses(clauses, target)[i] == struck(clauses[k], -target),
{
    let keep = lacks(target);
    let kept = clauses.filter(keep);
    clauses.lemma_filter_contains(keep, k);
    choose|i: int| 0 <= i < kept.len() && kept[i] == clauses[k]
}

/// The literals of a struck clause are those of the clause that differ
/// from the struck literal.
pub proof fn lemma_struck_literals(clause: Seq<isize>, gone: int)
    ensures
        forall|j: int|
            0 <= j < struck(clause, gone).len() ==> (#[trigger] struck(clause, gone)[j]) != gone && clause.contains(
                struck(clause, gone)[j],
            ),
        forall|j: int|
            0 <= j < clause.len() && #[trigger] clause[j] != gone ==> struck(clause, gone).contains(clause[j]),
{
    let pred = differs_from(gone);
    let out = struck(clause, gone);
    assert forall|j: int| 0 <= j < out.len() implies (#[trigger] out[j]) != gone && clause.contains(out[j]) by {
        clause.lemma_filter_pred(pred, j);
        assert(out.contains(out[j]));
        lemma_filter_keeps_members(clause, pred, out[j]);
    }
    assert forall|j: int| 0 <= j < clause.len() && #[trigger] clause[j] != gone implies out.contains(clause[j]) by {
        clause.lemma_filter_contains(pred, j);
    }
}

/// Under an assignment that makes `target` true, the clauses hold exactly
/// when the conditioned clauses do.
pub proof fn lemma_conditioned_agrees(clauses: Seq<Seq<isize>>, target: isize, a: Seq<bool>)
    requires
        clauses_in_range(clauses, a.len() as int),
        lit_in_range(target, a.len() as int),
        target != isize::MIN,
        lit_holds(target, a),
    ensures
        clauses_hold(clauses, a) <==> clauses_hold(conditioned_clauses(clauses, target), a),
{
    let out = conditioned_clauses(clauses, target);
    let gone = -target;
    if clauses_hold(clauses, a) {
        assert forall|i: int| 0 <= i < out.len() implies clause_holds(#[trigger] out[i], a) by {
            let k = lemma_conditioned_source(clauses, target, i);
            let c = clauses[k];
            lemma_struck_literals(c, gone);
            assert(clause_holds(c, a));
            let j = choose|j: int| 0 <= j < c.len() && lit_holds(#[trigger] c[j], a);
            assert(c[j] != gone);
            let d = out[i];
            assert(d.contains(c[j]));
            let m = choose|m: int| 0 <= m < d.len() && d[m] == c[j];
            assert(lit_holds(d[m], a));
        }
    }
    if clauses_hold(out, a) {
        assert forall|k: int| 0 <= k < clauses.len() implies clause_holds(#[trigger] clauses[k], a) by {
            let c = clauses[k];
            if c.contains(target) {
                let j = choose|j: int| 0 <= j < c.len() && c[j] == target;
                assert(lit_holds(c[j], a));
            } else {
                let i = lemma_conditioned_image(clauses, target, k);
                let d = out[i];
                lemma_struck_literals(c, gone);
                assert(clause_holds(d, a));
                let m = choose|m: int| 0 <= m < d.len() && lit_holds(#[trigger] d[m], a);
                assert(c.contains(d[m]));
                let j = choose|j: int| 0 <= j < c.len() && c[j] == d[m];
                assert(lit_holds(c[j], a));
            }
        }
    }
}

/// The conditioned clauses keep the literals in range, name no variable
/// that the clauses did not, and do not name the variable of `target`.
pub proof fn lemma_conditioned_forgets(clauses: Seq<Seq<isize>>, target: isize, n: int, low: int)
    requires
        clauses_in_range(clauses, n),
        target != isize::MIN,
        target != 0,
        clauses_from(clauses, low),
    ensures
        clauses_from(conditioned_clauses(clauses, target), low),
        forall|i: int, j: int|
            0 <= i < conditioned_clauses(clauses, target).len() && 0 <= j < conditioned_clauses(
                clauses,
                target,
            )[i].len() ==> lit_slot(#[trigger] conditioned_clauses(clauses, target)[i][j]) != lit_slot(target),
{
    let out = conditioned_clauses(clauses, target);
    let gone = -target;
    assert forall|i: int, j: int| 0 <= i < out.len() && 0 <= j < out[i].len() implies lit_slot(
        #[trigger] out[i][j],
    ) + 1 >= low && lit_slot(out[i][j]) != lit_slot(target) by {
        let k = lemma_conditioned_source(clauses, target, i);
        let c = clauses[k];
        lemma_struck_literals(c, gone);
        let lit = out[i][j];
        assert(c.contains(lit));
        let m = choose|m: int| 0 <= m < c.len() && c[m] == lit;
        assert(clause_in_range(c, n));
        assert(lit_in_range(c[m], n));
        assert(lit_slot(clauses[k][m]) + 1 >= low);
        assert(lit != target);
        assert(lit != gone);
    }
}

/// An assignment under which the conditioned clauses hold makes the
/// clauses hold once it gives `target` its value.
pub proof fn lemma_conditioned_lifts(clauses: Seq<Seq<isize>>, target: isize, a: Seq<bool>)
    requires
        clauses_in_range(clauses, a.len() as int),
        lit_in_range(target, a.len() as int),
        target != isize::MIN,
        clauses_hold(conditioned_clauses(clauses, target), a),
    ensures
        clauses_hold(clauses, a.update(lit_slot(target), target > 0)),
{
    let out = conditioned_clauses(clauses, target);
    let b = a.update(lit_slot(target), target > 0);
    lemma_conditioned_in_range(clauses, target, a.len() as int);
    lemma_conditioned_forgets(clauses, target, a.len() as int, 0);
    assert(clauses_from(clauses, 0)) by {
        assert forall|i: int, j: int| 0 <= i < clauses.len() && 0 <= j < clauses[i].len() implies lit_slot(
            #[trigger] clauses[i][j],
        ) + 1 >= 0 by {
            assert(clause_in_range(clauses[i], a.len() as int));
            assert(lit_in_range(clauses[i][j], a.len() as int));
        }
    }
    assert forall|i: int| 0 <= i < out.len() implies clause_holds(#[trigger] out[i], b) by {
        let d = out[i];
        assert(clause_holds(d, a));
        let m = choose|m: int| 0 <= m < d.len() && lit_holds(#[trigger] d[m], a);
        assert(lit_slot(out[i][m]) != lit_slot(target));
        assert(clause_in_range(d, a.len() as int));
        assert(lit_in_range(d[m], a.len() as int));
        assert(lit_holds(d[m], b));
    }
    lemma_conditioned_agrees(clauses, target, b);
}

/// Conditioning on the literal of a one-literal clause keeps
/// satisfiability.
pub proof fn lemma_unit_conditioning(clauses: Seq<Seq<isize>>, k: int, n: nat)
    requires
        clauses_in_range(clauses, n as int),
        first_unit_at(clauses, k),
        clauses[k][0] != isize::MIN,
    ensures
        satisfiable(clauses, n) <==> satisfiable(conditioned_clauses(clauses, clauses[k][0]), n),
{
    let target = clauses[k][0];
    let out = conditioned_clauses(clauses, target);
    assert(clause_in_range(clauses[k], n as int));
    assert(lit_in_range(clauses[k][0], n as int));
    if satisfiable(clauses, n) {
        let a = choose|a: Seq<bool>| a.len() == n && #[trigger] clauses_hold(clauses, a);
        assert(clause_holds(clauses[k], a));
        lemma_conditioned_agrees(clauses, target, a);
        assert(clauses_hold(out, a));
    }
    if satisfiable(out, n) {
        let a = choose|a: Seq<bool>| a.len() == n && #[trigger] clauses_hold(out, a);
        lemma_conditioned_lifts(clauses, target, a);
        let b = a.update(lit_slot(target), target > 0);
        assert(b.len() == n && clauses_hold(clauses, b));
    }
}

/// Splitting on a variable: the clauses are satisfiable exactly when they
/// are after conditioning on the variable or on its negation.
pub proof fn lemma_split_conditioning(clauses: Seq<Seq<isize>>, current: isize, n: nat)
    requires
        clauses_in_range(clauses, n as int),
        n <= isize::MAX,
        1 <= current <= n,
    ensures
        satisfiable(clauses, n) <==> (satisfiable(conditioned_clauses(clauses, current), n) || satisfiable(
            conditioned_clauses(clauses, (-current) as isize),
            n,
        )),
{
    let minus = (-current) as isize;
    let on_true = conditioned_clauses(clauses, current);
    let on_false = conditioned_clauses(clauses, minus);
    if satisfiable(clauses, n) {
        let a = choose|a: Seq<bool>| a.len() == n && #[trigger] clauses_hold(clauses, a);
        if a[current - 1] {
            lemma_conditioned_agrees(clauses, current, a);
            assert(clauses_hold(on_true, a));
        } else {
            lemma_conditioned_agrees(clauses, minus, a);
            assert(clauses_hold(on_false, a));
        }
    }
    if satisfiable(on_true, n) {
        let a = choose|a: Seq<bool>| a.len() == n && #[trigger] clauses_hold(on_true, a);
        lemma_conditioned_lifts(clauses, current, a);
        let b = a.update(lit_slot(current), current > 0);
        assert(b.len() == n && clauses_hold(clauses, b));
    }
    if satisfiable(on_false, n) {
        let a = choose|a: Seq<bool>| a.len() == n && #[trigger] clauses_hold(on_false, a);
        lemma_conditioned_lifts(clauses, minus, a);
        let b = a.update(lit_slot(minus), minus > 0);
        assert(b.len() == n && clauses_hold(clauses, b));
    }
}

/// After conditioning on a variable that no clause names below, no clause
/// names it or anything below it.
pub proof fn lemma_conditioned_advances(clauses: Seq<Seq<isize>>, target: isize, n: int)
    requires
        clauses_in_range(clauses, n),
        target != isize::MIN,
        target != 0,
        clauses_from(clauses, lit_slot(target) + 1),
    ensures
        clauses_from(conditioned_clauses(clauses, target), lit_slot(target) + 2),
{
    lemma_conditioned_forgets(clauses, target, n, lit_slot(target) + 1);
}

/// The values that unit propagation records are those of every solution:
/// recording them into an assignment under which the clauses hold changes
/// nothing.
pub proof fn lemma_unit_recorded_in_solutions(clauses: Seq<Seq<isize>>, a: Seq<bool>)
    requires
        clauses_in_range(clauses, a.len() as int),
        a.len() <= isize::MAX,
        clauses_hold(clauses, a),
    ensures
        unit_recorded(clauses, a) == a,
    decreases clauses.len(),
{
    match first_unit(clauses) {
        None => {},
        Some(lit) => {
            let k = choose|k: int| first_unit_at(clauses, k);
            let next = conditioned_clauses(clauses, lit);
            assert(clause_in_range(clauses[k], a.len() as int));
            assert(lit_in_range(clauses[k][0], a.len() as int));
            assert(clause_holds(clauses[k], a));
            assert(a.update(lit_slot(lit), lit > 0) =~= a);
            if next.len() < clauses.len() {
                lemma_conditioned_agrees(clauses, lit, a);
                lemma_conditioned_in_range(clauses, lit, a.len() as int);
                lemma_unit_recorded_in_solutions(next, a);
            }
        },
    }
}

/// Every literal of the clauses has a negation among the literals' type.
pub open spec fn negatable(clauses: Seq<Seq<isize>>) -> bool {
    forall|i: int, j: int|
        0 <= i < clauses.len() && 0 <= j < clauses[i].len() ==> #[trigger] clauses[i][j] != isize::MIN
}

/// Conditioning brings in no literal that was not there.
pub proof fn lemma_conditioned_negatable(clauses: Seq<Seq<isize>>, target: isize)
    requires
        negatable(clauses),
    ensures
        negatable(conditioned_clauses(clauses, target)),
{
    let out = conditioned_clauses(clauses, target);
    assert forall|i: int, j: int| 0 <= i < out.len() && 0 <= j < out[i].len() implies #[trigger] out[i][j]
        != isize::MIN by {
        let k = lemma_conditioned_source(clauses, target, i);
        let c = clauses[k];
        lemma_struck_literals(c, -target);
        assert(c.contains(out[i][j]));
        let m = choose|m: int| 0 <= m < c.len() && c[m] == out[i][j];
        assert(clauses[k][m] != isize::MIN);
    }
}

/// Literals within a table that literals can number all have negations.
pub proof fn lemma_in_range_negatable(clauses: Seq<Seq<isize>>, n: int)
    requires
        clauses_in_range(clauses, n),
        n <= isize::MAX,
    ensures
        negatable(clauses),
{
    assert forall|i: int, j: int| 0 <= i < clauses.len() && 0 <= j < clauses[i].len() implies #[trigger] clauses[i][j]
        != isize::MIN by {
        assert(clause_in_range(clauses[i], n));
        assert(lit_in_range(clauses[i][j], n));
    }
}

} // verus!
