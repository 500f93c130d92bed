//! Clause sets over a table of variables: construction, the backtracking
//! search for a satisfying assignment, and the decision procedure that
//! conditions the clauses on one variable after the other.

use crate::clause::{
    clause_holds, clause_in_range, clauses_hold, clauses_in_range, lit_holds, lit_in_range, lit_slot,
    satisfiable, slot_of,
};
use crate::conditioning::{
    clauses_from, conditioned_clauses, differs_from, first_unit, first_unit_at, has_empty_clause, lacks,
    lemma_conditioned_advances, lemma_conditioned_forgets, lemma_conditioned_in_range,
    lemma_conditioned_negatable, lemma_in_range_negatable, negatable,
    lemma_conditioned_shrinks, lemma_split_conditioning, lemma_unit_conditioning, strike, struck,
    unit_propagated, unit_recorded,
};
use crate::expr::Expr;
use crate::search::{
    all_open, clause_refuted, first_implied, first_implied_at, implied, keeps, lemma_decide_lowers_unassigned,
    lemma_propagation_step_progress, lit_refuted, lowest_open, lowest_open_at, propagated, search,
    some_clause_refuted, theorem_search_finds_iff_satisfiable, unassigned, unit_at, values_of,
};
use crate::text::{decimal, decimal_text};
use vstd::hash_map::StringHashMap;
use vstd::prelude::*;
use vstd::string::StringExecFns;

verus! {

/// What a search result is as a mathematical value.
pub open spec fn evidence_view(found: Option<Vec<bool>>) -> Option<Seq<bool>> {
    match found {
        Some(a) => Some(a@),
        None => None,
    }
}

/// The clauses held in vectors, as sequences of literals.
pub open spec fn clause_seqs(clauses: Seq<Vec<isize>>) -> Seq<Seq<isize>> {
    clauses.map_values(|c: Vec<isize>| c@)
}

/// The names held in strings, as sequences of characters.
pub open spec fn name_seqs(names: Seq<String>) -> Seq<Seq<char>> {
    names.map_values(|s: String| s@)
}

/// What a clause set is, as plain mathematical values.
pub struct CnfModel {
    /// Display name of each variable; identifier `id` is named by `symbols[id - 1]`.
    pub symbols: Seq<Seq<char>>,
    /// Identifier of each named variable that the set has been asked for.
    pub names: Map<Seq<char>, usize>,
    /// The clauses, in the order in which they were added.
    pub clauses: Seq<Seq<isize>>,
    /// How many auxiliary variables have been minted.
    pub counter: usize,
}

/// The placeholder name of the auxiliary variable minted at a counter value:
/// a dollar sign and the counter in decimal.
pub open spec fn auxiliary_name(counter: usize) -> Seq<char> {
    "$"@ + decimal(counter as nat)
}

/// Writes the placeholder name of an auxiliary variable.
fn fresh_name(counter: usize) -> (name: String)
    ensures
        name@ == auxiliary_name(counter),
{
    String::from_str("$").concat(decimal_text(counter).as_str())
}

impl CnfModel {
    /// The clause set without variables and without clauses.
    pub open spec fn empty() -> CnfModel {
        CnfModel { symbols: Seq::empty(), names: Map::empty(), clauses: Seq::empty(), counter: 0 }
    }

    /// The set with one more clause behind those it has.
    pub open spec fn with_clause(self, clause: Seq<isize>) -> CnfModel {
        CnfModel { clauses: self.clauses.push(clause), ..self }
    }

    /// The set with more clauses behind those it has.
    pub open spec fn plus(self, clauses: Seq<Seq<isize>>) -> CnfModel {
        CnfModel { clauses: self.clauses + clauses, ..self }
    }

    /// The identifier that the next new variable gets.
    pub open spec fn next_id(self) -> usize {
        (self.symbols.len() + 1) as usize
    }

    /// The set with one more variable at the end of its table.
    pub open spec fn with_variable(self, name: Seq<char>) -> CnfModel {
        CnfModel { symbols: self.symbols.push(name), ..self }
    }

    /// The set with the name of one identifier replaced.
    pub open spec fn renamed(self, id: usize, name: Seq<char>) -> CnfModel {
        CnfModel { symbols: self.symbols.update(id - 1, name), ..self }
    }

    /// The identifier under which a formula node is encoded, and the table
    /// after it was given. A named variable keeps the identifier that its
    /// name already has or gets the next one; any other node gets the next
    /// one under a placeholder name.
    pub open spec fn gen_var(self, expr: Expr) -> (CnfModel, usize) {
        match expr {
            Expr::Var(name) => if self.names.contains_key(name@) {
                (self, self.names[name@])
            } else {
                (
                    CnfModel {
                        symbols: self.symbols.push(name@),
                        names: self.names.insert(name@, self.next_id()),
                        ..self
                    },
                    self.next_id(),
                )
            },
            _ => (
                CnfModel {
                    symbols: self.symbols.push(auxiliary_name(self.counter)),
                    counter: (self.counter + 1) as usize,
                    ..self
                },
                self.next_id(),
            ),
        }
    }

    /// Every name's identifier lies within the variable table, and no more
    /// auxiliary variables were minted than the table holds.
    pub open spec fn wf(self) -> bool {
        &&& self.in_range()
        &&& self.counter <= self.symbols.len()
        &&& forall|name: Seq<char>| self.names.contains_key(name) ==> 1 <= #[trigger] self.names[name] <= self.symbols.len()
    }

    /// The table shows each named variable under its own name.
    pub open spec fn names_match(self) -> bool {
        forall|name: Seq<char>| #[trigger]
            self.names.contains_key(name) ==> 1 <= self.names[name] <= self.symbols.len()
                && self.symbols[self.names[name] - 1] == name
    }

    /// Every literal lies within the variable table.
    pub open spec fn in_range(self) -> bool {
        clauses_in_range(self.clauses, self.symbols.len() as int)
    }
}

/// A boolean formula in conjunctive normal form over a table of variables.
pub struct CNF {
    symbol_table: Vec<String>,
    name_to_id: StringHashMap<usize>,
    clauses: Vec<Vec<isize>>,
    counter: usize,
}

impl View for CNF {
    type V = CnfModel;

    closed spec fn view(&self) -> CnfModel {
        CnfModel {
            symbols: name_seqs(self.symbol_table@),
            names: self.name_to_id@,
            clauses: clause_seqs(self.clauses@),
            counter: self.counter,
        }
    }
}

impl CNF {
    /// A clause set over the given table of names, holding the given
    /// clauses. No name has an identifier yet, and no auxiliary variable
    /// has been minted.
    pub fn new(symbol_table: Vec<String>, clauses: Vec<Vec<isize>>) -> (cnf: CNF)
        ensures
            cnf@ == (CnfModel {
                symbols: name_seqs(symbol_table@),
                names: Map::empty(),
                clauses: clause_seqs(clauses@),
                counter: 0,
            }),
    {
        CNF { symbol_table, clauses, counter: 0, name_to_id: StringHashMap::new() }
    }

    /// Whether every literal of the clause is decided against it.
    pub fn is_falsified(clause: &Vec<isize>, truth_assignment: &Vec<Option<bool>>) -> (falsified: bool)
        requires
            clause_in_range(clause@, truth_assignment.len() as int),
        ensures
            falsified == clause_refuted(clause@, truth_assignment@),
    {
        let mut i: usize = 0;
        while i < clause.len()
            invariant
                i <= clause.len(),
                clause_in_range(clause@, truth_assignment.len() as int),
                forall|j: int| 0 <= j < i ==> lit_refuted(#[trigger] clause@[j], truth_assignment@),
            decreases clause.len() - i,
        {
            let var = clause[i];
            assert(lit_in_range(clause@[i as int], truth_assignment.len() as int));
            let value = var > 0;
            let var_idx = slot_of(var);
            match truth_assignment[var_idx] {
                Some(assigned) => {
                    if assigned == value {
                        assert(!lit_refuted(clause@[i as int], truth_assignment@));
                        return false;
                    }
                },
                None => {
                    assert(!lit_refuted(clause@[i as int], truth_assignment@));
                    return false;
                },
            }
            i += 1;
        }
        true
    }

    /// Whether some clause of the set is falsified.
    pub fn any_falsified(&self, truth_assignment: &Vec<Option<bool>>) -> (falsified: bool)
        requires
            clauses_in_range(self@.clauses, truth_assignment.len() as int),
        ensures
            falsified == some_clause_refuted(self@.clauses, truth_assignment@),
    {
        let mut i: usize = 0;
        while i < self.clauses.len()
            invariant
                i <= self.clauses.len(),
                clauses_in_range(self@.clauses, truth_assignment.len() as int),
                forall|j: int| 0 <= j < i ==> !clause_refuted(#[trigger] self@.clauses[j], truth_assignment@),
            decreases self.clauses.len() - i,
        {
            assert(self@.clauses[i as int] == self.clauses[i as int]@);
            assert(clause_in_range(self@.clauses[i as int], truth_assignment.len() as int));
            if Self::is_falsified(&self.clauses[i], truth_assignment) {
                return true;
            }
            i += 1;
        }
        false
    }

    /// Whether the clause forces a decision.
    pub fn is_unit_clause(clause: &Vec<isize>, truth_assignment: &Vec<Option<bool>>) -> (unit: bool)
        requires
            clause_in_range(clause@, truth_assignment.len() as int),
        ensures
            unit == implied(clause@, truth_assignment@) is Some,
    {
        Self::implied_assignment(clause, truth_assignment).is_some()
    }

    /// The slot and value that the clause forces, if it forces one.
    pub fn implied_assignment(clause: &Vec<isize>, truth_assignment: &Vec<Option<bool>>) -> (forced: Option<(usize, bool)>)
        requires
            clause_in_range(clause@, truth_assignment.len() as int),
        ensures
            forced == implied(clause@, truth_assignment@),
    {
        let mut undef: Option<(usize, bool)> = None;
        let ghost mut at: int = 0;
        let mut i: usize = 0;
        while i < clause.len()
            invariant
                i <= clause.len(),
                clause_in_range(clause@, truth_assignment.len() as int),
                undef is None ==> forall|j: int| 0 <= j < i ==> lit_refuted(#[trigger] clause@[j], truth_assignment@),
                undef is Some ==> {
                    &&& 0 <= at < i
                    &&& truth_assignment@[lit_slot(clause@[at])] is None
                    &&& undef == Some((lit_slot(clause@[at]) as usize, clause@[at] > 0))
                    &&& forall|j: int| 0 <= j < i && j != at ==> lit_refuted(#[trigger] clause@[j], truth_assignment@)
                },
            decreases clause.len() - i,
        {
            let var = clause[i];
            assert(lit_in_range(clause@[i as int], truth_assignment.len() as int));
            let value = var > 0;
            let idx = slot_of(var);
            match truth_assignment[idx] {
                None => {
                    if undef.is_some() {
                        proof {
                            assert forall|k: int| !unit_at(clause@, truth_assignment@, k) by {
                                if unit_at(clause@, truth_assignment@, k) {
                                    if k == i {
                                        assert(lit_refuted(clause@[at], truth_assignment@));
                                    } else {
                                        assert(lit_refuted(clause@[i as int], truth_assignment@));
                                    }
                                }
                            }
                        }
                        return None;
                    } else {
                        undef = Some((idx, value));
                        proof {
                            at = i as int;
                        }
                    }
                },
                Some(assigned) => {
                    if assigned == value {
                        proof {
                            assert forall|k: int| !unit_at(clause@, truth_assignment@, k) by {
                                if unit_at(clause@, truth_assignment@, k) {
                                    if k != i {
                                        assert(lit_refuted(clause@[i as int], truth_assignment@));
                                    }
                                }
                            }
                        }
                        return None;
                    }
                },
            }
            i += 1;
        }
        proof {
            if undef is Some {
                assert(unit_at(clause@, truth_assignment@, at));
                let k = choose|k: int| unit_at(clause@, truth_assignment@, k);
                if k != at {
                    assert(lit_refuted(clause@[at], truth_assignment@));
                }
            } else {
                assert forall|k: int| !unit_at(clause@, truth_assignment@, k) by {
                    if unit_at(clause@, truth_assignment@, k) {
                        assert(lit_refuted(clause@[k], truth_assignment@));
                    }
                }
            }
        }
        undef
    }

    /// A partial assignment with one undecided slot per variable.
    pub fn gen_empty_truth_assignment(&self) -> (truth_assignment: Vec<Option<bool>>)
        ensures
            truth_assignment@ == all_open(self@.symbols.len()),
    {
        let mut truth_assignment: Vec<Option<bool>> = Vec::new();
        let mut i: usize = 0;
        while i < self.symbol_table.len()
            invariant
                i <= self.symbol_table.len(),
                truth_assignment@ == Seq::new(i as nat, |j: int| None::<bool>),
            decreases self.symbol_table.len() - i,
        {
            truth_assignment.push(None);
            i += 1;
            assert(truth_assignment@ =~= Seq::new(i as nat, |j: int| None::<bool>));
        }
        truth_assignment
    }

    /// The decision forced by the first clause that forces one.
    fn find_implied_assignment(&self, truth_assignment: &Vec<Option<bool>>) -> (forced: Option<(usize, bool)>)
        requires
            clauses_in_range(self@.clauses, truth_assignment.len() as int),
        ensures
            forced == first_implied(self@.clauses, truth_assignment@),
            forced is Some ==> exists|k: int| #[trigger] first_implied_at(self@.clauses, truth_assignment@, k)
                && forced == implied(self@.clauses[k], truth_assignment@),
    {
        let mut i: usize = 0;
        while i < self.clauses.len()
            invariant
                i <= self.clauses.len(),
                clauses_in_range(self@.clauses, truth_assignment.len() as int),
                forall|j: int| 0 <= j < i ==> implied(#[trigger] self@.clauses[j], truth_assignment@) is None,
            decreases self.clauses.len() - i,
        {
            assert(self@.clauses[i as int] == self.clauses[i as int]@);
            assert(clause_in_range(self@.clauses[i as int], truth_assignment.len() as int));
            let implied_assignment = Self::implied_assignment(&self.clauses[i], truth_assignment);
            if implied_assignment.is_some() {
                proof {
                    assert(first_implied_at(self@.clauses, truth_assignment@, i as int));
                    let k = choose|k: int| first_implied_at(self@.clauses, truth_assignment@, k);
                    if k < i {
                        assert(implied(self@.clauses[k], truth_assignment@) is None);
                    } else if i < k {
                        assert(implied(self@.clauses[i as int], truth_assignment@) is None);
                    }
                }
                return implied_assignment;
            }
            i += 1;
        }
        proof {
            assert forall|k: int| !first_implied_at(self@.clauses, truth_assignment@, k) by {
                if first_implied_at(self@.clauses, truth_assignment@, k) {
                    assert(implied(self@.clauses[k], truth_assignment@) is None);
                }
            }
        }
        None
    }

    /// The lowest undecided slot.
    fn next_undef(truth_assignment: &Vec<Option<bool>>) -> (slot: Option<usize>)
        ensures
            match slot {
                Some(idx) => lowest_open(truth_assignment@) == Some(idx as int) && lowest_open_at(
                    truth_assignment@,
                    idx as int,
                ),
                None => lowest_open(truth_assignment@) is None && forall|j: int|
                    0 <= j < truth_assignment.len() ==> (#[trigger] truth_assignment@[j]) is Some,
            },
    {
        let mut idx: usize = 0;
        while idx < truth_assignment.len()
            invariant
                idx <= truth_assignment.len(),
                forall|j: int| 0 <= j < idx ==> (#[trigger] truth_assignment@[j]) is Some,
            decreases truth_assignment.len() - idx,
        {
            if truth_assignment[idx].is_none() {
                proof {
                    assert(lowest_open_at(truth_assignment@, idx as int));
                    let i = choose|i: int| lowest_open_at(truth_assignment@, i);
                    if i < idx {
                        assert(truth_assignment@[i] is Some);
                    } else if idx < i {
                        assert(truth_assignment@[idx as int] is Some);
                    }
                }
                return Some(idx);
            }
            idx += 1;
        }
        proof {
            assert forall|i: int| !lowest_open_at(truth_assignment@, i) by {
                if lowest_open_at(truth_assignment@, i) {
                    assert(truth_assignment@[i] is Some);
                }
            }
        }
        None
    }

    /// The values of a partial assignment in which every slot is decided.
    fn total_of(truth_assignment: &Vec<Option<bool>>) -> (total: Vec<bool>)
        requires
            forall|j: int| 0 <= j < truth_assignment.len() ==> (#[trigger] truth_assignment@[j]) is Some,
        ensures
            total@ == values_of(truth_assignment@),
            forall|j: int| 0 <= j < total.len() ==> truth_assignment@[j] == Some(#[trigger] total@[j]),
    {
        let mut total: Vec<bool> = Vec::new();
        let mut i: usize = 0;
        while i < truth_assignment.len()
            invariant
                i <= truth_assignment.len(),
                total.len() == i,
                forall|j: int| 0 <= j < truth_assignment.len() ==> (#[trigger] truth_assignment@[j]) is Some,
                forall|j: int| 0 <= j < i ==> truth_assignment@[j] == Some(#[trigger] total@[j]),
            decreases truth_assignment.len() - i,
        {
            match truth_assignment[i] {
                Some(v) => {
                    total.push(v);
                },
                None => {
                    assert(truth_assignment@[i as int] is Some);
                },
            }
            i += 1;
        }
        assert(total@ =~= values_of(truth_assignment@));
        total
    }

    /// A copy of the partial assignment with one more slot decided.
    fn decided(truth_assignment: &Vec<Option<bool>>, idx: usize, value: bool) -> (next: Vec<Option<bool>>)
        requires
            idx < truth_assignment.len(),
        ensures
            next@ == truth_assignment@.update(idx as int, Some(value)),
    {
        let mut next: Vec<Option<bool>> = Vec::new();
        let mut i: usize = 0;
        while i < truth_assignment.len()
            invariant
                i <= truth_assignment.len(),
                next@ == truth_assignment@.take(i as int),
            decreases truth_assignment.len() - i,
        {
            next.push(truth_assignment[i]);
            i += 1;
            assert(next@ =~= truth_assignment@.take(i as int));
        }
        assert(truth_assignment@.take(truth_assignment.len() as int) =~= truth_assignment@);
        next.set(idx, Some(value));
        next
    }

    /// Searches below one decision: `idx` is set to `value` on a copy, so
    /// that the caller's assignment is untouched when the branch fails.
    fn try_assignment(&self, truth_assignment: &Vec<Option<bool>>, idx: usize, value: bool) -> (found: Option<
        Vec<bool>,
    >)
        requires
            clauses_in_range(self@.clauses, truth_assignment.len() as int),
            idx < truth_assignment.len(),
            truth_assignment@[idx as int] is None,
        ensures
            evidence_view(found) == search(self@.clauses, truth_assignment@.update(idx as int, Some(value))),
        decreases unassigned(truth_assignment@), 0int,
    {
        let mut branch = Self::decided(truth_assignment, idx, value);
        proof {
            lemma_decide_lowers_unassigned(truth_assignment@, idx as int, value);
        }
        self.dpll(&mut branch)
    }

    /// Backtracking search from a partial assignment: propagates forced
    /// decisions until none is left, then splits on the lowest undecided
    /// slot, trying `true` before `false`. The assignment is left as
    /// propagation made it; no decision it came with is lost.
    fn dpll(&self, truth_assignment: &mut Vec<Option<bool>>) -> (found: Option<Vec<bool>>)
        requires
            clauses_in_range(self@.clauses, old(truth_assignment).len() as int),
        ensures
            evidence_view(found) == search(self@.clauses, old(truth_assignment)@),
            keeps(final(truth_assignment)@, old(truth_assignment)@),
        decreases unassigned(old(truth_assignment)@), 1int,
    {
        let ghost start = truth_assignment@;
        let ghost clauses = self@.clauses;
        if self.any_falsified(truth_assignment) {
            return None;
        }
        loop
            invariant
                start == old(truth_assignment)@,
                clauses == self@.clauses,
                clauses_in_range(clauses, start.len() as int),
                keeps(truth_assignment@, start),
                unassigned(truth_assignment@) <= unassigned(start),
                !some_clause_refuted(clauses, start),
                propagated(clauses, start) == propagated(clauses, truth_assignment@),
            ensures
                propagated(clauses, start) == Some(truth_assignment@),
            decreases unassigned(truth_assignment@),
        {
            let forced = self.find_implied_assignment(truth_assignment);
            let (idx, value) = match forced {
                Some(pair) => pair,
                None => {
                    break ;
                },
            };
            let ghost before = truth_assignment@;
            proof {
                let k = choose|k: int| #[trigger]
                    first_implied_at(clauses, before, k) && forced == implied(clauses[k], before);
                lemma_propagation_step_progress(clauses[k], before, idx, value);
            }
            truth_assignment.set(idx, Some(value));
            assert(keeps(truth_assignment@, start)) by {
                assert forall|i: int| 0 <= i < start.len() && (#[trigger] start[i]) is Some implies truth_assignment@[i]
                    == start[i] by {
                    assert(before[i] == start[i]);
                }
            }
            if self.any_falsified(truth_assignment) {
                return None;
            }
        }
        let next = match Self::next_undef(truth_assignment) {
            None => {
                return Some(Self::total_of(truth_assignment));
            },
            Some(idx) => idx,
        };
        proof {
            lemma_decide_lowers_unassigned(truth_assignment@, next as int, true);
            lemma_decide_lowers_unassigned(truth_assignment@, next as int, false);
        }
        let on_true = self.try_assignment(truth_assignment, next, true);
        if on_true.is_some() {
            return on_true;
        }
        self.try_assignment(truth_assignment, next, false)
    }

    /// Checks if the CNF is satisfiable. If it is, returns a list of truth
    /// values where entry `i` is the value of the variable with id `i + 1`;
    /// otherwise returns `None`.
    pub fn find_evidence(&mut self) -> (evidence: Option<Vec<bool>>)
        requires
            old(self)@.in_range(),
        ensures
            *final(self) == *old(self),
            evidence_view(evidence) == search(old(self)@.clauses, all_open(old(self)@.symbols.len())),
            evidence is Some <==> satisfiable(old(self)@.clauses, old(self)@.symbols.len()),
            evidence is Some ==> evidence->0@.len() == old(self)@.symbols.len() && clauses_hold(
                old(self)@.clauses,
                evidence->0@,
            ),
    {
        let mut truth_assignment = self.gen_empty_truth_assignment();
        proof {
            theorem_search_finds_iff_satisfiable(self@.clauses, self@.symbols.len());
        }
        self.dpll(&mut truth_assignment)
    }

    /// Whether some assignment makes every clause hold, decided by
    /// conditioning on one variable after the other.
    pub fn is_sat(&self) -> (sat: bool)
        requires
            self@.in_range(),
            self@.symbols.len() < isize::MAX,
        ensures
            sat == satisfiable(self@.clauses, self@.symbols.len()),
    {
        let copy = self.from_self(self.get_clauses_clone());
        proof {
            let clauses = copy@.clauses;
            assert forall|i: int, j: int| 0 <= i < clauses.len() && 0 <= j < clauses[i].len() implies lit_slot(
                #[trigger] clauses[i][j],
            ) + 1 >= 1 by {
                assert(clause_in_range(clauses[i], copy@.symbols.len() as int));
                assert(lit_in_range(clauses[i][j], copy@.symbols.len() as int));
            }
        }
        copy.dpll_old(1)
    }

    /// Whether some clause has no literal.
    fn contains_empty_clause(&self) -> (empty: bool)
        ensures
            empty == has_empty_clause(self@.clauses),
    {
        let mut i: usize = 0;
        while i < self.clauses.len()
            invariant
                i <= self.clauses.len(),
                forall|j: int| 0 <= j < i ==> (#[trigger] self@.clauses[j]).len() != 0,
            decreases self.clauses.len() - i,
        {
            assert(self@.clauses[i as int] == self.clauses[i as int]@);
            if self.clauses[i].len() == 0 {
                return true;
            }
            i += 1;
        }
        false
    }

    /// Decides satisfiability by rewriting the clauses: propagate the
    /// one-literal clauses, then condition on the variable `current` and,
    /// failing that, on its negation, and go on with the next variable.
    fn dpll_old(self, current: isize) -> (sat: bool)
        requires
            self@.in_range(),
            self@.symbols.len() < isize::MAX,
            1 <= current,
            clauses_from(self@.clauses, current as int),
        ensures
            sat == satisfiable(self@.clauses, self@.symbols.len()),
        decreases self@.symbols.len() + 1 - current,
    {
        let ghost n = self@.symbols.len();
        proof {
            lemma_in_range_negatable(self@.clauses, n as int);
        }
        let cnf = self.unit_propigation();
        let ghost clauses = cnf@.clauses;
        if cnf.clauses.len() == 0 {
            proof {
                let all_true = Seq::new(n, |i: int| true);
                assert(all_true.len() == n && clauses_hold(clauses, all_true));
            }
            return true;
        }
        if cnf.contains_empty_clause() {
            proof {
                let k = choose|k: int| 0 <= k < clauses.len() && (#[trigger] clauses[k]).len() == 0;
                assert forall|a: Seq<bool>| a.len() == n implies !#[trigger] clauses_hold(clauses, a) by {
                    if clauses_hold(clauses, a) {
                        assert(clause_holds(clauses[k], a));
                    }
                }
            }
            return false;
        }
        let minus = -current;
        proof {
            assert(clauses[0].len() != 0);
            assert(clause_in_range(clauses[0], n as int));
            assert(lit_in_range(clauses[0][0], n as int));
            assert(lit_slot(clauses[0][0]) + 1 >= current);
            lemma_split_conditioning(clauses, current, n);
            lemma_conditioned_in_range(clauses, current, n as int);
            lemma_conditioned_in_range(clauses, minus, n as int);
            lemma_conditioned_advances(clauses, current, n as int);
            lemma_conditioned_advances(clauses, minus, n as int);
        }
        cnf.conditioned(current).dpll_old(current + 1) || cnf.conditioned(minus).dpll_old(current + 1)
    }

    /// Adds the unit clause that forces a variable to a value.
    pub fn enforce(&mut self, id: isize, value: bool)
        requires
            id != isize::MIN,
        ensures
            final(self)@ == old(self)@.with_clause(
                seq![if value {
                    id
                } else {
                    (-id) as isize
                }],
            ),
    {
        let lit = if value {
            id
        } else {
            -id
        };
        let mut clause: Vec<isize> = Vec::new();
        clause.push(lit);
        assert(clause@ =~= seq![lit]);
        self.append_clause(clause);
    }

    /// The display name of a literal's variable.
    pub fn from_id(&self, id: isize) -> (name: String)
        requires
            lit_in_range(id, self@.symbols.len() as int),
        ensures
            name@ == self@.symbols[lit_slot(id)],
    {
        self.symbol_table[slot_of(id)].clone()
    }

    /// Gives a formula node its identifier: a named variable keeps the one
    /// its name has or gets the next one, any other node gets the next one
    /// under a placeholder name.
    pub fn gen_var(&mut self, expr: &Expr) -> (id: usize)
        requires
            old(self)@.symbols.len() < usize::MAX,
            old(self)@.counter < usize::MAX,
        ensures
            (final(self)@, id) == old(self)@.gen_var(*expr),
    {
        if let Expr::Var(name) = expr {
            let known: Option<usize> = match self.name_to_id.get(name.as_str()) {
                Some(id) => Some(*id),
                None => None,
            };
            match known {
                Some(id) => {
                    return id;
                },
                None => {
                    let id = self.add_variable(name.clone());
                    self.name_to_id.insert(name.clone(), id);
                    return id;
                },
            }
        }
        let name = fresh_name(self.counter);
        self.counter += 1;
        let id = self.add_variable(name);
        id
    }

    /// A copy of the table of names; entry `id - 1` names identifier `id`.
    pub fn get_symbol_table(&self) -> (table: Vec<String>)
        ensures
            name_seqs(table@) == self@.symbols,
    {
        let mut table: Vec<String> = Vec::new();
        let mut i: usize = 0;
        while i < self.symbol_table.len()
            invariant
                i <= self.symbol_table.len(),
                table.len() == i,
                forall|j: int| 0 <= j < i ==> (#[trigger] table@[j])@ == self.symbol_table@[j]@,
            decreases self.symbol_table.len() - i,
        {
            table.push(self.symbol_table[i].clone());
            i += 1;
        }
        assert(name_seqs(table@) =~= name_seqs(self.symbol_table@));
        table
    }

    /// Replaces the name of an identifier in the table.
    pub fn set_symbol_name(&mut self, id: usize, name: String)
        requires
            1 <= id <= old(self)@.symbols.len(),
        ensures
            final(self)@ == old(self)@.renamed(id, name@),
    {
        self.symbol_table.set(id - 1, name);
        assert(name_seqs(self.symbol_table@) =~= name_seqs(old(self).symbol_table@).update(id - 1, name@));
    }

    /// Adds a variable to the table and returns its identifier.
    pub fn add_variable(&mut self, name: String) -> (id: usize)
        requires
            old(self)@.symbols.len() < usize::MAX,
        ensures
            final(self)@ == old(self)@.with_variable(name@),
            id == old(self)@.next_id(),
    {
        let id = self.symbol_table.len();
        self.symbol_table.push(name);
        assert(name_seqs(self.symbol_table@) =~= name_seqs(old(self).symbol_table@).push(name@));
        id + 1
    }

    /// Adds a clause behind those the set has.
    pub fn append_clause(&mut self, clause: Vec<isize>)
        ensures
            final(self)@ == old(self)@.with_clause(clause@),
    {
        self.clauses.push(clause);
        assert(clause_seqs(self.clauses@) =~= clause_seqs(old(self).clauses@).push(clause@));
    }

    /// A copy of the clauses, in order.
    pub fn get_clauses_clone(&self) -> (clauses: Vec<Vec<isize>>)
        ensures
            clause_seqs(clauses@) == self@.clauses,
    {
        let mut clauses: Vec<Vec<isize>> = Vec::new();
        let mut i: usize = 0;
        while i < self.clauses.len()
            invariant
                i <= self.clauses.len(),
                clauses.len() == i,
                forall|j: int| 0 <= j < i ==> (#[trigger] clauses@[j])@ == self.clauses@[j]@,
            decreases self.clauses.len() - i,
        {
            let clause = Self::copy_clause(&self.clauses[i]);
            clauses.push(clause);
            i += 1;
        }
        assert(clause_seqs(clauses@) =~= clause_seqs(self.clauses@));
        clauses
    }

    /// A copy of one clause.
    fn copy_clause(clause: &Vec<isize>) -> (copy: Vec<isize>)
        ensures
            copy@ == clause@,
    {
        let mut copy: Vec<isize> = Vec::new();
        let mut i: usize = 0;
        while i < clause.len()
            invariant
                i <= clause.len(),
                copy@ == clause@.take(i as int),
            decreases clause.len() - i,
        {
            copy.push(clause[i]);
            i += 1;
            assert(copy@ =~= clause@.take(i as int));
        }
        assert(clause@.take(i as int) =~= clause@);
        copy
    }

    /// A clause set over the same symbol table, with the given clauses.
    pub fn from_self(&self, clauses: Vec<Vec<isize>>) -> (cnf: CNF)
        ensures
            cnf@ == (CnfModel {
                symbols: self@.symbols,
                names: Map::empty(),
                clauses: clause_seqs(clauses@),
                counter: 0,
            }),
    {
        CNF { symbol_table: self.get_symbol_table(), clauses, counter: 0, name_to_id: StringHashMap::new() }
    }

    /// The literal of the first clause that has exactly one literal.
    pub fn find_unit_clause(&self) -> (unit: Option<isize>)
        ensures
            unit == first_unit(self@.clauses),
    {
        let mut i: usize = 0;
        while i < self.clauses.len()
            invariant
                i <= self.clauses.len(),
                forall|j: int| 0 <= j < i ==> (#[trigger] self@.clauses[j]).len() != 1,
            decreases self.clauses.len() - i,
        {
            assert(self@.clauses[i as int] == self.clauses[i as int]@);
            if self.clauses[i].len() == 1 {
                proof {
                    assert(first_unit_at(self@.clauses, i as int));
                    let k = choose|k: int| first_unit_at(self@.clauses, k);
                    if k < i {
                        assert(self@.clauses[k].len() != 1);
                    } else if i < k {
                        assert(self@.clauses[i as int].len() != 1);
                    }
                }
                return Some(self.clauses[i][0]);
            }
            i += 1;
        }
        proof {
            assert forall|k: int| !first_unit_at(self@.clauses, k) by {
                if first_unit_at(self@.clauses, k) {
                    assert(self@.clauses[k].len() != 1);
                }
            }
        }
        None
    }

    /// One clause conditioned on `target`: nothing when the clause holds
    /// the literal, else the clause without the literal's negation.
    fn conditioned_clause(clause: &Vec<isize>, target: isize) -> (kept: Option<Vec<isize>>)
        requires
            target != isize::MIN,
        ensures
            kept is None <==> clause@.contains(target),
            kept is Some ==> kept->0@ == struck(clause@, -target),
    {
        let ghost pred = differs_from(-target);
        let mut new_clause: Vec<isize> = Vec::new();
        let mut i: usize = 0;
        proof {
            reveal(Seq::filter);
            assert(clause@.take(0) =~= Seq::<isize>::empty());
        }
        while i < clause.len()
            invariant
                i <= clause.len(),
                target != isize::MIN,
                pred == differs_from(-target),
                forall|j: int| 0 <= j < i ==> #[trigger] clause@[j] != target,
                new_clause@ == clause@.take(i as int).filter(pred),
            decreases clause.len() - i,
        {
            let var = clause[i];
            if var == target {
                return None;
            }
            proof {
                reveal(Seq::filter);
                assert(clause@.take(i + 1).drop_last() =~= clause@.take(i as int));
            }
            if var != -target {
                new_clause.push(var);
            }
            i += 1;
        }
        assert(clause@.take(i as int) =~= clause@);
        Some(new_clause)
    }

    /// The clause set conditioned on the literal `target`: clauses that
    /// hold it are dropped, its negation is struck from the others.
    pub fn conditioned(&self, target: isize) -> (cnf: CNF)
        requires
            target != isize::MIN,
        ensures
            cnf@ == (CnfModel {
                symbols: self@.symbols,
                names: Map::empty(),
                clauses: conditioned_clauses(self@.clauses, target),
                counter: 0,
            }),
    {
        let ghost keep = lacks(target);
        let ghost cut = strike(target);
        let ghost all = self@.clauses;
        let mut new_clauses: Vec<Vec<isize>> = Vec::new();
        let mut i: usize = 0;
        proof {
            reveal(Seq::filter);
            assert(all.take(0) =~= Seq::<Seq<isize>>::empty());
            assert(clause_seqs(new_clauses@) =~= all.take(0).filter(keep).map_values(cut));
        }
        while i < self.clauses.len()
            invariant
                i <= self.clauses.len(),
                target != isize::MIN,
                all == self@.clauses,
                keep == lacks(target),
                cut == strike(target),
                clause_seqs(new_clauses@) == all.take(i as int).filter(keep).map_values(cut),
            decreases self.clauses.len() - i,
        {
            let ghost before = clause_seqs(new_clauses@);
            assert(all[i as int] == self.clauses[i as int]@);
            let kept = Self::conditioned_clause(&self.clauses[i], target);
            proof {
                reveal(Seq::filter);
                assert(all.take(i + 1).drop_last() =~= all.take(i as int));
            }
            match kept {
                Some(new_clause) => {
                    new_clauses.push(new_clause);
                    assert(clause_seqs(new_clauses@) =~= before.push(new_clause@));
                    assert(all.take(i + 1).filter(keep).map_values(cut) =~= all.take(i as int).filter(
                        keep,
                    ).map_values(cut).push(cut(all[i as int])));
                },
                None => {},
            }
            i += 1;
        }
        assert(all.take(i as int) =~= all);
        self.from_self(new_clauses)
    }

    /// Conditions on the literal of a one-literal clause for as long as
    /// there is one. Over clauses whose literals lie within the table this
    /// keeps satisfiability.
    pub fn unit_propigation(self) -> (cnf: CNF)
        requires
            negatable(self@.clauses),
        ensures
            cnf@.clauses == unit_propagated(self@.clauses),
            first_unit(cnf@.clauses) is None,
            negatable(cnf@.clauses),
            cnf@.symbols == self@.symbols,
            first_unit(self@.clauses) is None ==> cnf@ == self@,
            first_unit(self@.clauses) is Some ==> cnf@.names == Map::<Seq<char>, usize>::empty() && cnf@.counter == 0,
            self@.in_range() ==> {
                &&& cnf@.in_range()
                &&& satisfiable(cnf@.clauses, self@.symbols.len()) == satisfiable(self@.clauses, self@.symbols.len())
                &&& forall|low: int| clauses_from(self@.clauses, low) ==> clauses_from(cnf@.clauses, low)
            },
    {
        let ghost start = self@;
        let mut current = self;
        let mut unit_clause = current.find_unit_clause();
        while unit_clause.is_some()
            invariant
                unit_clause == first_unit(current@.clauses),
                unit_propagated(current@.clauses) == unit_propagated(start.clauses),
                negatable(current@.clauses),
                current@.symbols == start.symbols,
                current@ == start || (first_unit(start.clauses) is Some && current@.names == Map::<
                    Seq<char>,
                    usize,
                >::empty() && current@.counter == 0),
                start.in_range() ==> {
                    &&& current@.in_range()
                    &&& satisfiable(current@.clauses, start.symbols.len()) == satisfiable(
                        start.clauses,
                        start.symbols.len(),
                    )
                    &&& forall|low: int| clauses_from(start.clauses, low) ==> clauses_from(current@.clauses, low)
                },
            decreases current@.clauses.len(),
        {
            let clause = unit_clause.unwrap();
            proof {
                let k = choose|k: int| first_unit_at(current@.clauses, k);
                let n = current@.symbols.len();
                assert(current@.clauses[k][0] != isize::MIN);
                assert(current@.clauses[k].contains(clause));
                lemma_conditioned_shrinks(current@.clauses, clause, k);
                lemma_conditioned_negatable(current@.clauses, clause);
                if start.in_range() {
                    assert(clause_in_range(current@.clauses[k], n as int));
                    assert(lit_in_range(current@.clauses[k][0], n as int));
                    lemma_conditioned_in_range(current@.clauses, clause, n as int);
                    lemma_unit_conditioning(current@.clauses, k, n);
                    assert forall|low: int| clauses_from(start.clauses, low) implies clauses_from(
                        conditioned_clauses(current@.clauses, clause),
                        low,
                    ) by {
                        lemma_conditioned_forgets(current@.clauses, clause, n as int, low);
                    }
                }
            }
            current = current.conditioned(clause);
            unit_clause = current.find_unit_clause();
        }
        current
    }

    /// Conditions on the literal of a one-literal clause for as long as
    /// there is one, and writes the value of each such literal into the
    /// slot of its variable.
    pub fn unit_propigation_old(self, truth_assignment: &mut Vec<bool>) -> (cnf: CNF)
        requires
            clauses_in_range(self@.clauses, old(truth_assignment).len() as int),
            old(truth_assignment).len() <= isize::MAX,
        ensures
            cnf@.clauses == unit_propagated(self@.clauses),
            first_unit(cnf@.clauses) is None,
            satisfiable(cnf@.clauses, old(truth_assignment)@.len()) == satisfiable(
                self@.clauses,
                old(truth_assignment)@.len(),
            ),
            final(truth_assignment)@ == unit_recorded(self@.clauses, old(truth_assignment)@),
            cnf@.symbols == self@.symbols,
            first_unit(self@.clauses) is None ==> cnf@ == self@,
            first_unit(self@.clauses) is Some ==> cnf@.names == Map::<Seq<char>, usize>::empty() && cnf@.counter == 0,
    {
        let ghost start = self@;
        let mut current = self;
        let mut unit_clause = current.find_unit_clause();
        while unit_clause.is_some()
            invariant
                unit_clause == first_unit(current@.clauses),
                unit_propagated(current@.clauses) == unit_propagated(start.clauses),
                unit_recorded(current@.clauses, truth_assignment@) == unit_recorded(
                    start.clauses,
                    old(truth_assignment)@,
                ),
                satisfiable(current@.clauses, truth_assignment@.len()) == satisfiable(
                    start.clauses,
                    truth_assignment@.len(),
                ),
                current@.symbols == start.symbols,
                truth_assignment.len() == old(truth_assignment).len(),
                truth_assignment.len() <= isize::MAX,
                clauses_in_range(current@.clauses, truth_assignment.len() as int),
                current@ == start || (first_unit(start.clauses) is Some && current@.names == Map::<Seq<char>, usize>::empty()
                    && current@.counter == 0),
            decreases current@.clauses.len(),
        {
            let clause = unit_clause.unwrap();
            proof {
                let k = choose|k: int| first_unit_at(current@.clauses, k);
                assert(clause_in_range(current@.clauses[k], truth_assignment.len() as int));
                assert(lit_in_range(current@.clauses[k][0], truth_assignment.len() as int));
                assert(current@.clauses[k].contains(clause));
                lemma_conditioned_shrinks(current@.clauses, clause, k);
                lemma_conditioned_in_range(current@.clauses, clause, truth_assignment.len() as int);
                lemma_unit_conditioning(current@.clauses, k, truth_assignment@.len());
            }
            let var_index = slot_of(clause);
            let truth_value = clause > 0;
            truth_assignment.set(var_index, truth_value);
            current = current.conditioned(clause);
            unit_clause = current.find_unit_clause();
        }
        current
    }
}

} // verus!
