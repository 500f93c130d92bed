//! Why the encoding of a formula is right: it stays within its variable
//! table, an assignment of its clauses gives the formula's value at every
//! node, and every environment of the formula extends to an assignment of
//! its clauses.

use crate::clause::{
    clause_holds, clause_in_range, clauses_hold, clauses_in_range, lit_holds, lit_in_range, satisfiable,
};
use crate::cnf::CnfModel;
use crate::expr::{and_gate, env_of, not_gate, or_gate, unit_clause, Env, Expr};
use crate::search::{all_open, search, theorem_search_finds_iff_satisfiable};
use vstd::prelude::*;

verus! {

/// `t` came from `s` by adding variables, names and clauses only.
pub open spec fn grows(s: CnfModel, t: CnfModel) -> bool {
    &&& s.symbols.len() <= t.symbols.len()
    &&& s.clauses.len() <= t.clauses.len()
    &&& forall|i: int| 0 <= i < s.clauses.len() ==> #[trigger] t.clauses[i] == s.clauses[i]
    &&& forall|name: Seq<char>| #[trigger]
        s.names.contains_key(name) ==> t.names.contains_key(name) && t.names[name] == s.names[name]
}

/// A formula tree has at least one node.
pub proof fn lemma_size_positive(e: Expr)
    ensures
        e.size() >= 1,
{
    reveal_with_fuel(Expr::size, 1);
}

/// Literals usable over `n` variables are usable over more.
pub proof fn lemma_in_range_widens(clauses: Seq<Seq<isize>>, n: int, m: int)
    requires
        clauses_in_range(clauses, n),
        n <= m,
    ensures
        clauses_in_range(clauses, m),
{
    assert forall|i: int| 0 <= i < clauses.len() implies clause_in_range(#[trigger] clauses[i], m) by {
        let c = clauses[i];
        assert(clause_in_range(c, n));
        assert forall|j: int| 0 <= j < c.len() implies lit_in_range(#[trigger] c[j], m) by {
            assert(lit_in_range(c[j], n));
        }
    }
}

/// Giving a node its identifier keeps the table well formed, adds at most
/// one variable and no clause, and anchors a named variable to its name.
pub proof fn lemma_gen_var(s: CnfModel, e: Expr)
    requires
        s.wf(),
        s.symbols.len() < isize::MAX,
    ensures
        ({
            let (t, id) = s.gen_var(e);
            &&& t.wf()
            &&& grows(s, t)
            &&& 1 <= id <= t.symbols.len()
            &&& t.symbols.len() <= s.symbols.len() + 1
            &&& t.clauses == s.clauses
            &&& e.anchored(id as isize, t)
        }),
{
    let (t, id) = s.gen_var(e);
    lemma_in_range_widens(s.clauses, s.symbols.len() as int, t.symbols.len() as int);
    match e {
        Expr::Var(name) => {
            if s.names.contains_key(name@) {
            } else {
                assert forall|other: Seq<char>| t.names.contains_key(other) implies 1 <= #[trigger] t.names[other]
                    <= t.symbols.len() by {
                    if other != name@ {
                        assert(s.names.contains_key(other));
                    }
                }
            }
        },
        _ => {},
    }
}

/// Adding clauses whose literals are in range keeps the set well formed.
pub proof fn lemma_plus(s: CnfModel, gate: Seq<Seq<isize>>)
    requires
        s.wf(),
        clauses_in_range(gate, s.symbols.len() as int),
    ensures
        s.plus(gate).wf(),
        grows(s, s.plus(gate)),
{
    let t = s.plus(gate);
    assert forall|i: int| 0 <= i < t.clauses.len() implies clause_in_range(#[trigger] t.clauses[i], t.symbols.len() as int) by {
        if i < s.clauses.len() {
            assert(t.clauses[i] == s.clauses[i]);
        } else {
            assert(t.clauses[i] == gate[i - s.clauses.len()]);
        }
    }
}

/// Growth composes.
pub proof fn lemma_grows_chain(a: CnfModel, b: CnfModel, c: CnfModel)
    requires
        grows(a, b),
        grows(b, c),
    ensures
        grows(a, c),
{
    assert forall|i: int| 0 <= i < a.clauses.len() implies #[trigger] c.clauses[i] == a.clauses[i] by {
        assert(b.clauses[i] == a.clauses[i]);
    }
    assert forall|name: Seq<char>| #[trigger] a.names.contains_key(name) implies c.names.contains_key(name)
        && c.names[name] == a.names[name] by {
        assert(b.names.contains_key(name));
    }
}

/// The literals of a conjunction gate are those of its three identifiers.
pub proof fn lemma_and_gate_in_range(id: isize, l: isize, r: isize, n: int)
    requires
        1 <= id <= n,
        1 <= l <= n,
        1 <= r <= n,
    ensures
        clauses_in_range(and_gate(id, l, r), n),
{
    let g = and_gate(id, l, r);
    assert forall|i: int| 0 <= i < g.len() implies clause_in_range(#[trigger] g[i], n) by {
        let c = g[i];
        assert forall|j: int| 0 <= j < c.len() implies lit_in_range(#[trigger] c[j], n) by {}
    }
}

/// The literals of a disjunction gate are those of its three identifiers.
pub proof fn lemma_or_gate_in_range(id: isize, l: isize, r: isize, n: int)
    requires
        1 <= id <= n,
        1 <= l <= n,
        1 <= r <= n,
    ensures
        clauses_in_range(or_gate(id, l, r), n),
{
    let g = or_gate(id, l, r);
    assert forall|i: int| 0 <= i < g.len() implies clause_in_range(#[trigger] g[i], n) by {
        let c = g[i];
        assert forall|j: int| 0 <= j < c.len() implies lit_in_range(#[trigger] c[j], n) by {}
    }
}

/// The literals of a negation gate are those of its two identifiers.
pub proof fn lemma_not_gate_in_range(id: isize, c: isize, n: int)
    requires
        1 <= id <= n,
        1 <= c <= n,
    ensures
        clauses_in_range(not_gate(id, c), n),
{
    let g = not_gate(id, c);
    assert forall|i: int| 0 <= i < g.len() implies clause_in_range(#[trigger] g[i], n) by {
        let c = g[i];
        assert forall|j: int| 0 <= j < c.len() implies lit_in_range(#[trigger] c[j], n) by {}
    }
}

/// Forcing an identifier of the table keeps the set well formed.
pub proof fn lemma_unit_in_range(s: CnfModel, id: isize, value: bool)
    requires
        s.wf(),
        1 <= id <= s.symbols.len(),
    ensures
        s.with_clause(unit_clause(id, value)).wf(),
        grows(s, s.with_clause(unit_clause(id, value))),
        s.with_clause(unit_clause(id, value)) == s.plus(seq![unit_clause(id, value)]),
{
    let gate = seq![unit_clause(id, value)];
    assert(s.clauses.push(unit_clause(id, value)) =~= s.clauses + gate);
    assert forall|i: int| 0 <= i < gate.len() implies clause_in_range(#[trigger] gate[i], s.symbols.len() as int) by {
        let c = gate[i];
        assert forall|j: int| 0 <= j < c.len() implies lit_in_range(#[trigger] c[j], s.symbols.len() as int) by {}
    }
    lemma_plus(s, gate);
}

/// Variables that have identifiers keep them in a larger name table.
pub proof fn lemma_named_in_grows(e: Expr, small: Map<Seq<char>, usize>, large: Map<Seq<char>, usize>)
    requires
        e.named_in(small),
        forall|name: Seq<char>| #[trigger] small.contains_key(name) ==> large.contains_key(name),
    ensures
        e.named_in(large),
    decreases e,
{
    match e {
        Expr::And(and) => {
            lemma_named_in_grows(*and.l, small, large);
            lemma_named_in_grows(*and.r, small, large);
        },
        Expr::Or(or) => {
            lemma_named_in_grows(*or.l, small, large);
            lemma_named_in_grows(*or.r, small, large);
        },
        Expr::Not(not) => {
            lemma_named_in_grows(*not.expr, small, large);
        },
        Expr::Literal(_) => {},
        Expr::Var(name) => {},
    }
}

/// Encoding a node keeps the clause set well formed, only adds to it, mints
/// fewer variables than the node's tree has nodes, and leaves every variable
/// of the tree with an identifier.
pub proof fn lemma_encoded_wf(e: Expr, id: isize, s: CnfModel)
    requires
        e.fits(id, s),
    ensures
        e.encoded(id, s).wf(),
        grows(s, e.encoded(id, s)),
        e.encoded(id, s).symbols.len() + 1 <= s.symbols.len() + e.size(),
        e.anchored(id, s) ==> e.named_in(e.encoded(id, s).names),
    decreases e,
{
    let n = s.symbols.len() as int;
    match e {
        Expr::And(and) => {
            let (s1, l) = s.gen_var(*and.l);
            let (s2, r) = s1.gen_var(*and.r);
            let s3 = s2.plus(and_gate(id, l as isize, r as isize));
            let s4 = and.l.encoded(l as isize, s3);
            let s5 = and.r.encoded(r as isize, s4);
            lemma_size_positive(*and.l);
            lemma_size_positive(*and.r);
            lemma_gen_var(s, *and.l);
            lemma_gen_var(s1, *and.r);
            lemma_and_gate_in_range(id, l as isize, r as isize, s2.symbols.len() as int);
            lemma_plus(s2, and_gate(id, l as isize, r as isize));
            lemma_grows_chain(s, s1, s2);
            lemma_grows_chain(s, s2, s3);
            lemma_grows_chain(s1, s2, s3);
            lemma_encoded_wf(*and.l, l as isize, s3);
            lemma_grows_chain(s, s3, s4);
            lemma_grows_chain(s2, s3, s4);
            lemma_encoded_wf(*and.r, r as isize, s4);
            lemma_grows_chain(s, s4, s5);
            lemma_named_in_grows(*and.l, s4.names, s5.names);
        },
        Expr::Or(or) => {
            let (s1, l) = s.gen_var(*or.l);
            let (s2, r) = s1.gen_var(*or.r);
            let s3 = s2.plus(or_gate(id, l as isize, r as isize));
            let s4 = or.l.encoded(l as isize, s3);
            let s5 = or.r.encoded(r as isize, s4);
            lemma_size_positive(*or.l);
            lemma_size_positive(*or.r);
            lemma_gen_var(s, *or.l);
            lemma_gen_var(s1, *or.r);
            lemma_or_gate_in_range(id, l as isize, r as isize, s2.symbols.len() as int);
            lemma_plus(s2, or_gate(id, l as isize, r as isize));
            lemma_grows_chain(s, s1, s2);
            lemma_grows_chain(s, s2, s3);
            lemma_grows_chain(s1, s2, s3);
            lemma_encoded_wf(*or.l, l as isize, s3);
            lemma_grows_chain(s, s3, s4);
            lemma_grows_chain(s2, s3, s4);
            lemma_encoded_wf(*or.r, r as isize, s4);
            lemma_grows_chain(s, s4, s5);
            lemma_named_in_grows(*or.l, s4.names, s5.names);
        },
        Expr::Not(not) => {
            let (s1, c) = s.gen_var(*not.expr);
            let s2 = s1.plus(not_gate(id, c as isize));
            lemma_size_positive(*not.expr);
            lemma_gen_var(s, *not.expr);
            lemma_not_gate_in_range(id, c as isize, s1.symbols.len() as int);
            lemma_plus(s1, not_gate(id, c as isize));
            lemma_grows_chain(s, s1, s2);
            lemma_encoded_wf(*not.expr, c as isize, s2);
            lemma_grows_chain(s, s2, not.expr.encoded(c as isize, s2));
        },
        Expr::Literal(value) => {
            lemma_unit_in_range(s, id, value);
        },
        Expr::Var(name) => {
            let t = s.renamed(id as usize, name@);
            assert(t.symbols.len() == s.symbols.len());
        },
    }
}

/// `b` starts with `a`.
pub open spec fn prefix_of(a: Seq<bool>, b: Seq<bool>) -> bool {
    &&& a.len() <= b.len()
    &&& forall|i: int| 0 <= i < a.len() ==> #[trigger] b[i] == a[i]
}

/// The assignment gives every named variable the value that `env` gives
/// its name.
pub open spec fn agrees(a: Seq<bool>, names: Map<Seq<char>, usize>, env: Env) -> bool {
    forall|name: Seq<char>| #[trigger] names.contains_key(name) ==> a[names[name] - 1] == env(name)
}

/// Where all clauses hold, those at the front hold.
pub proof fn lemma_holds_prefix(small: Seq<Seq<isize>>, large: Seq<Seq<isize>>, a: Seq<bool>)
    requires
        small.len() <= large.len(),
        forall|i: int| 0 <= i < small.len() ==> #[trigger] large[i] == small[i],
        clauses_hold(large, a),
    ensures
        clauses_hold(small, a),
{
    assert forall|i: int| 0 <= i < small.len() implies clause_holds(#[trigger] small[i], a) by {
        assert(clause_holds(large[i], a));
    }
}

/// Where all clauses hold, those of any stretch hold.
pub proof fn lemma_holds_part(all: Seq<Seq<isize>>, part: Seq<Seq<isize>>, offset: int, a: Seq<bool>)
    requires
        0 <= offset,
        offset + part.len() <= all.len(),
        forall|k: int| 0 <= k < part.len() ==> all[offset + k] == #[trigger] part[k],
        clauses_hold(all, a),
    ensures
        clauses_hold(part, a),
{
    assert forall|k: int| 0 <= k < part.len() implies clause_holds(#[trigger] part[k], a) by {
        assert(clause_holds(all[offset + k], a));
    }
}

/// Clauses that hold, followed by clauses that hold, hold.
pub proof fn lemma_holds_concat(first: Seq<Seq<isize>>, second: Seq<Seq<isize>>, a: Seq<bool>)
    requires
        clauses_hold(first, a),
        clauses_hold(second, a),
    ensures
        clauses_hold(first + second, a),
{
    let all = first + second;
    assert forall|i: int| 0 <= i < all.len() implies clause_holds(#[trigger] all[i], a) by {
        if i < first.len() {
            assert(all[i] == first[i]);
        } else {
            assert(all[i] == second[i - first.len()]);
        }
    }
}

/// Clauses that hold under an assignment hold under every longer one that
/// starts with it.
pub proof fn lemma_holds_longer(clauses: Seq<Seq<isize>>, a: Seq<bool>, b: Seq<bool>)
    requires
        clauses_in_range(clauses, a.len() as int),
        prefix_of(a, b),
        clauses_hold(clauses, a),
    ensures
        clauses_hold(clauses, b),
{
    assert forall|i: int| 0 <= i < clauses.len() implies clause_holds(#[trigger] clauses[i], b) by {
        let c = clauses[i];
        assert(clause_holds(c, a));
        assert(clause_in_range(c, a.len() as int));
        let j = choose|j: int| 0 <= j < c.len() && lit_holds(#[trigger] c[j], a);
        assert(lit_in_range(c[j], a.len() as int));
        assert(lit_holds(c[j], b));
    }
}

/// The conjunction gate holds exactly when `id` has the value of `l` and `r`.
pub proof fn lemma_and_gate(id: isize, l: isize, r: isize, a: Seq<bool>)
    requires
        1 <= id <= a.len(),
        1 <= l <= a.len(),
        1 <= r <= a.len(),
    ensures
        clauses_hold(and_gate(id, l, r), a) <==> (a[id - 1] == (a[l - 1] && a[r - 1])),
{
    let g = and_gate(id, l, r);
    if clauses_hold(g, a) {
        assert(clause_holds(g[0], a));
        assert(clause_holds(g[1], a));
        assert(clause_holds(g[2], a));
    }
    if a[id - 1] == (a[l - 1] && a[r - 1]) {
        assert forall|i: int| 0 <= i < g.len() implies clause_holds(#[trigger] g[i], a) by {
            let c = g[i];
            if i == 0 {
                if a[id - 1] {
                    assert(lit_holds(c[1], a));
                } else {
                    assert(lit_holds(c[0], a));
                }
            } else if i == 1 {
                if a[id - 1] {
                    assert(lit_holds(c[1], a));
                } else {
                    assert(lit_holds(c[0], a));
                }
            } else {
                if a[id - 1] {
                    assert(lit_holds(c[0], a));
                } else if a[l - 1] {
                    assert(lit_holds(c[2], a));
                } else {
                    assert(lit_holds(c[1], a));
                }
            }
        }
    }
}

/// The disjunction gate holds exactly when `id` has the value of `l` or `r`.
pub proof fn lemma_or_gate(id: isize, l: isize, r: isize, a: Seq<bool>)
    requires
        1 <= id <= a.len(),
        1 <= l <= a.len(),
        1 <= r <= a.len(),
    ensures
        clauses_hold(or_gate(id, l, r), a) <==> (a[id - 1] == (a[l - 1] || a[r - 1])),
{
    let g = or_gate(id, l, r);
    if clauses_hold(g, a) {
        assert(clause_holds(g[0], a));
        assert(clause_holds(g[1], a));
        assert(clause_holds(g[2], a));
    }
    if a[id - 1] == (a[l - 1] || a[r - 1]) {
        assert forall|i: int| 0 <= i < g.len() implies clause_holds(#[trigger] g[i], a) by {
            let c = g[i];
            if i == 0 {
                if !a[id - 1] {
                    assert(lit_holds(c[0], a));
                } else if a[l - 1] {
                    assert(lit_holds(c[1], a));
                } else {
                    assert(lit_holds(c[2], a));
                }
            } else if i == 1 {
                if a[id - 1] {
                    assert(lit_holds(c[0], a));
                } else {
                    assert(lit_holds(c[1], a));
                }
            } else {
                if a[id - 1] {
                    assert(lit_holds(c[0], a));
                } else {
                    assert(lit_holds(c[1], a));
                }
            }
        }
    }
}

/// The negation gate holds exactly when `id` has the opposite value of `c`.
pub proof fn lemma_not_gate(id: isize, c: isize, a: Seq<bool>)
    requires
        1 <= id <= a.len(),
        1 <= c <= a.len(),
    ensures
        clauses_hold(not_gate(id, c), a) <==> (a[id - 1] == !a[c - 1]),
{
    let g = not_gate(id, c);
    if clauses_hold(g, a) {
        assert(clause_holds(g[0], a));
        assert(clause_holds(g[1], a));
    }
    if a[id - 1] == !a[c - 1] {
        assert forall|i: int| 0 <= i < g.len() implies clause_holds(#[trigger] g[i], a) by {
            let k = g[i];
            if i == 0 {
                if a[id - 1] {
                    assert(lit_holds(k[1], a));
                } else {
                    assert(lit_holds(k[0], a));
                }
            } else {
                if a[id - 1] {
                    assert(lit_holds(k[0], a));
                } else {
                    assert(lit_holds(k[1], a));
                }
            }
        }
    }
}

/// A unit clause holds exactly when `id` has the forced value.
pub proof fn lemma_unit_clause(id: isize, value: bool, a: Seq<bool>)
    requires
        1 <= id <= a.len(),
    ensures
        clause_holds(unit_clause(id, value), a) <==> a[id - 1] == value,
{
    let c = unit_clause(id, value);
    if a[id - 1] == value {
        assert(lit_holds(c[0], a));
    }
}

/// A formula whose variables all have identifiers evaluates alike through
/// a name table and through any table that contains it.
pub proof fn lemma_eval_stable(e: Expr, small: Map<Seq<char>, usize>, large: Map<Seq<char>, usize>, a: Seq<bool>)
    requires
        e.named_in(small),
        forall|name: Seq<char>| #[trigger]
            small.contains_key(name) ==> large.contains_key(name) && large[name] == small[name],
    ensures
        e.eval(env_of(small, a)) == e.eval(env_of(large, a)),
    decreases e,
{
    match e {
        Expr::And(and) => {
            lemma_eval_stable(*and.l, small, large, a);
            lemma_eval_stable(*and.r, small, large, a);
        },
        Expr::Or(or) => {
            lemma_eval_stable(*or.l, small, large, a);
            lemma_eval_stable(*or.r, small, large, a);
        },
        Expr::Not(not) => {
            lemma_eval_stable(*not.expr, small, large, a);
        },
        Expr::Literal(_) => {},
        Expr::Var(name) => {},
    }
}

/// A named variable stays anchored to its identifier as the set grows.
pub proof fn lemma_anchored_grows(e: Expr, id: isize, s: CnfModel, t: CnfModel)
    requires
        e.anchored(id, s),
        grows(s, t),
    ensures
        e.anchored(id, t),
{
    match e {
        Expr::Var(name) => {
            assert(s.names.contains_key(name@));
        },
        _ => {},
    }
}

/// Under any assignment that makes the encoded clauses hold, the node's
/// identifier carries the value of its formula.
pub proof fn lemma_encoded_sound(e: Expr, id: isize, s: CnfModel, a: Seq<bool>)
    requires
        e.fits(id, s),
        e.anchored(id, s),
        a.len() >= e.encoded(id, s).symbols.len(),
        clauses_hold(e.encoded(id, s).clauses, a),
    ensures
        a[id - 1] == e.eval(env_of(e.encoded(id, s).names, a)),
    decreases e,
{
    lemma_encoded_wf(e, id, s);
    match e {
        Expr::And(and) => {
            let (s1, l) = s.gen_var(*and.l);
            let (s2, r) = s1.gen_var(*and.r);
            let gate = and_gate(id, l as isize, r as isize);
            let s3 = s2.plus(gate);
            let s4 = and.l.encoded(l as isize, s3);
            let s5 = and.r.encoded(r as isize, s4);
            lemma_size_positive(*and.l);
            lemma_size_positive(*and.r);
            lemma_gen_var(s, *and.l);
            lemma_gen_var(s1, *and.r);
            lemma_and_gate_in_range(id, l as isize, r as isize, s2.symbols.len() as int);
            lemma_plus(s2, gate);
            lemma_grows_chain(s1, s2, s3);
            lemma_anchored_grows(*and.l, l as isize, s1, s3);
            lemma_anchored_grows(*and.r, r as isize, s2, s3);
            lemma_encoded_wf(*and.l, l as isize, s3);
            lemma_anchored_grows(*and.r, r as isize, s3, s4);
            lemma_encoded_wf(*and.r, r as isize, s4);
            lemma_grows_chain(s3, s4, s5);
            lemma_holds_prefix(s4.clauses, s5.clauses, a);
            lemma_holds_part(s5.clauses, gate, s2.clauses.len() as int, a);
            lemma_encoded_sound(*and.l, l as isize, s3, a);
            lemma_encoded_sound(*and.r, r as isize, s4, a);
            lemma_eval_stable(*and.l, s4.names, s5.names, a);
            lemma_and_gate(id, l as isize, r as isize, a);
        },
        Expr::Or(or) => {
            let (s1, l) = s.gen_var(*or.l);
            let (s2, r) = s1.gen_var(*or.r);
            let gate = or_gate(id, l as isize, r as isize);
            let s3 = s2.plus(gate);
            let s4 = or.l.encoded(l as isize, s3);
            let s5 = or.r.encoded(r as isize, s4);
            lemma_size_positive(*or.l);
            lemma_size_positive(*or.r);
            lemma_gen_var(s, *or.l);
            lemma_gen_var(s1, *or.r);
            lemma_or_gate_in_range(id, l as isize, r as isize, s2.symbols.len() as int);
            lemma_plus(s2, gate);
            lemma_grows_chain(s1, s2, s3);
            lemma_anchored_grows(*or.l, l as isize, s1, s3);
            lemma_anchored_grows(*or.r, r as isize, s2, s3);
            lemma_encoded_wf(*or.l, l as isize, s3);
            lemma_anchored_grows(*or.r, r as isize, s3, s4);
            lemma_encoded_wf(*or.r, r as isize, s4);
            lemma_grows_chain(s3, s4, s5);
            lemma_holds_prefix(s4.clauses, s5.clauses, a);
            lemma_holds_part(s5.clauses, gate, s2.clauses.len() as int, a);
            lemma_encoded_sound(*or.l, l as isize, s3, a);
            lemma_encoded_sound(*or.r, r as isize, s4, a);
            lemma_eval_stable(*or.l, s4.names, s5.names, a);
            lemma_or_gate(id, l as isize, r as isize, a);
        },
        Expr::Not(not) => {
            let (s1, c) = s.gen_var(*not.expr);
            let gate = not_gate(id, c as isize);
            let s2 = s1.plus(gate);
            let s3 = not.expr.encoded(c as isize, s2);
            lemma_size_positive(*not.expr);
            lemma_gen_var(s, *not.expr);
            lemma_not_gate_in_range(id, c as isize, s1.symbols.len() as int);
            lemma_plus(s1, gate);
            lemma_anchored_grows(*not.expr, c as isize, s1, s2);
            lemma_encoded_wf(*not.expr, c as isize, s2);
            lemma_holds_part(s3.clauses, gate, s1.clauses.len() as int, a);
            lemma_encoded_sound(*not.expr, c as isize, s2, a);
            lemma_not_gate(id, c as isize, a);
        },
        Expr::Literal(value) => {
            let t = s.with_clause(unit_clause(id, value));
            assert(clause_holds(t.clauses[s.clauses.len() as int], a));
            lemma_unit_clause(id, value, a);
        },
        Expr::Var(name) => {},
    }
}

/// The assignment after a node was given its identifier: a new variable
/// gets the value of its name, a new auxiliary variable that of its formula.
pub open spec fn value_added(s: CnfModel, e: Expr, a: Seq<bool>, env: Env) -> Seq<bool> {
    match e {
        Expr::Var(name) => if s.names.contains_key(name@) {
            a
        } else {
            a.push(env(name@))
        },
        _ => a.push(e.eval(env)),
    }
}

/// The assignment that gives every variable minted while encoding the node
/// the value of the subformula it stands for.
pub open spec fn extended(e: Expr, id: isize, s: CnfModel, a: Seq<bool>, env: Env) -> Seq<bool>
    decreases e,
{
    match e {
        Expr::And(and) => {
            let (s1, l) = s.gen_var(*and.l);
            let a1 = value_added(s, *and.l, a, env);
            let (s2, r) = s1.gen_var(*and.r);
            let a2 = value_added(s1, *and.r, a1, env);
            let s3 = s2.plus(and_gate(id, l as isize, r as isize));
            let a4 = extended(*and.l, l as isize, s3, a2, env);
            extended(*and.r, r as isize, and.l.encoded(l as isize, s3), a4, env)
        },
        Expr::Or(or) => {
            let (s1, l) = s.gen_var(*or.l);
            let a1 = value_added(s, *or.l, a, env);
            let (s2, r) = s1.gen_var(*or.r);
            let a2 = value_added(s1, *or.r, a1, env);
            let s3 = s2.plus(or_gate(id, l as isize, r as isize));
            let a4 = extended(*or.l, l as isize, s3, a2, env);
            extended(*or.r, r as isize, or.l.encoded(l as isize, s3), a4, env)
        },
        Expr::Not(not) => {
            let (s1, c) = s.gen_var(*not.expr);
            let a1 = value_added(s, *not.expr, a, env);
            extended(*not.expr, c as isize, s1.plus(not_gate(id, c as isize)), a1, env)
        },
        Expr::Literal(_) => a,
        Expr::Var(_) => a,
    }
}

/// The value added with a node's identifier is the node's, and the
/// assignment goes on agreeing with the environment.
pub proof fn lemma_value_added(s: CnfModel, e: Expr, a: Seq<bool>, env: Env)
    requires
        s.wf(),
        s.symbols.len() < isize::MAX,
        a.len() == s.symbols.len(),
        agrees(a, s.names, env),
    ensures
        ({
            let (t, id) = s.gen_var(e);
            let b = value_added(s, e, a, env);
            &&& b.len() == t.symbols.len()
            &&& agrees(b, t.names, env)
            &&& prefix_of(a, b)
            &&& b[id - 1] == e.eval(env)
        }),
{
    let (t, id) = s.gen_var(e);
    let b = value_added(s, e, a, env);
    match e {
        Expr::Var(name) => {
            if s.names.contains_key(name@) {
            } else {
                assert forall|other: Seq<char>| #[trigger] t.names.contains_key(other) implies b[t.names[other] - 1]
                    == env(other) by {
                    if other != name@ {
                        assert(s.names.contains_key(other));
                    }
                }
            }
        },
        _ => {
            assert forall|other: Seq<char>| #[trigger] t.names.contains_key(other) implies b[t.names[other] - 1]
                == env(other) by {
                assert(s.names.contains_key(other));
            }
        },
    }
}

/// Prefixes compose.
pub proof fn lemma_prefix_chain(a: Seq<bool>, b: Seq<bool>, c: Seq<bool>)
    requires
        prefix_of(a, b),
        prefix_of(b, c),
    ensures
        prefix_of(a, c),
{
    assert forall|i: int| 0 <= i < a.len() implies #[trigger] c[i] == a[i] by {
        assert(b[i] == a[i]);
    }
}

/// An assignment that makes the clauses so far hold, agrees with an
/// environment and gives the node's identifier the value of its formula can
/// be extended over the variables minted for the node so that the encoded
/// clauses hold too.
pub proof fn lemma_encoded_complete(e: Expr, id: isize, s: CnfModel, a: Seq<bool>, env: Env)
    requires
        e.fits(id, s),
        e.anchored(id, s),
        a.len() == s.symbols.len(),
        clauses_hold(s.clauses, a),
        agrees(a, s.names, env),
        a[id - 1] == e.eval(env),
    ensures
        extended(e, id, s, a, env).len() == e.encoded(id, s).symbols.len(),
        clauses_hold(e.encoded(id, s).clauses, extended(e, id, s, a, env)),
        agrees(extended(e, id, s, a, env), e.encoded(id, s).names, env),
        prefix_of(a, extended(e, id, s, a, env)),
    decreases e,
{
    match e {
        Expr::And(and) => {
            let (s1, l) = s.gen_var(*and.l);
            let a1 = value_added(s, *and.l, a, env);
            let (s2, r) = s1.gen_var(*and.r);
            let a2 = value_added(s1, *and.r, a1, env);
            let gate = and_gate(id, l as isize, r as isize);
            let s3 = s2.plus(gate);
            let s4 = and.l.encoded(l as isize, s3);
            let a4 = extended(*and.l, l as isize, s3, a2, env);
            let a5 = extended(*and.r, r as isize, s4, a4, env);
            lemma_size_positive(*and.l);
            lemma_size_positive(*and.r);
            lemma_gen_var(s, *and.l);
            lemma_value_added(s, *and.l, a, env);
            lemma_gen_var(s1, *and.r);
            lemma_value_added(s1, *and.r, a1, env);
            lemma_prefix_chain(a, a1, a2);
            lemma_and_gate_in_range(id, l as isize, r as isize, s2.symbols.len() as int);
            lemma_plus(s2, gate);
            lemma_grows_chain(s1, s2, s3);
            lemma_anchored_grows(*and.l, l as isize, s1, s3);
            lemma_anchored_grows(*and.r, r as isize, s2, s3);
            lemma_holds_longer(s.clauses, a, a2);
            lemma_and_gate(id, l as isize, r as isize, a2);
            lemma_holds_concat(s2.clauses, gate, a2);
            lemma_encoded_wf(*and.l, l as isize, s3);
            lemma_encoded_complete(*and.l, l as isize, s3, a2, env);
            lemma_anchored_grows(*and.r, r as isize, s3, s4);
            lemma_encoded_complete(*and.r, r as isize, s4, a4, env);
            lemma_prefix_chain(a, a2, a4);
            lemma_prefix_chain(a, a4, a5);
        },
        Expr::Or(or) => {
            let (s1, l) = s.gen_var(*or.l);
            let a1 = value_added(s, *or.l, a, env);
            let (s2, r) = s1.gen_var(*or.r);
            let a2 = value_added(s1, *or.r, a1, env);
            let gate = or_gate(id, l as isize, r as isize);
            let s3 = s2.plus(gate);
            let s4 = or.l.encoded(l as isize, s3);
            let a4 = extended(*or.l, l as isize, s3, a2, env);
            let a5 = extended(*or.r, r as isize, s4, a4, env);
            lemma_size_positive(*or.l);
            lemma_size_positive(*or.r);
            lemma_gen_var(s, *or.l);
            lemma_value_added(s, *or.l, a, env);
            lemma_gen_var(s1, *or.r);
            lemma_value_added(s1, *or.r, a1, env);
            lemma_prefix_chain(a, a1, a2);
            lemma_or_gate_in_range(id, l as isize, r as isize, s2.symbols.len() as int);
            lemma_plus(s2, gate);
            lemma_grows_chain(s1, s2, s3);
            lemma_anchored_grows(*or.l, l as isize, s1, s3);
            lemma_anchored_grows(*or.r, r as isize, s2, s3);
            lemma_holds_longer(s.clauses, a, a2);
            lemma_or_gate(id, l as isize, r as isize, a2);
            lemma_holds_concat(s2.clauses, gate, a2);
            lemma_encoded_wf(*or.l, l as isize, s3);
            lemma_encoded_complete(*or.l, l as isize, s3, a2, env);
            lemma_anchored_grows(*or.r, r as isize, s3, s4);
            lemma_encoded_complete(*or.r, r as isize, s4, a4, env);
            lemma_prefix_chain(a, a2, a4);
            lemma_prefix_chain(a, a4, a5);
        },
        Expr::Not(not) => {
            let (s1, c) = s.gen_var(*not.expr);
            let a1 = value_added(s, *not.expr, a, env);
            let gate = not_gate(id, c as isize);
            let s2 = s1.plus(gate);
            let a3 = extended(*not.expr, c as isize, s2, a1, env);
            lemma_size_positive(*not.expr);
            lemma_gen_var(s, *not.expr);
            lemma_value_added(s, *not.expr, a, env);
            lemma_not_gate_in_range(id, c as isize, s1.symbols.len() as int);
            lemma_plus(s1, gate);
            lemma_anchored_grows(*not.expr, c as isize, s1, s2);
            lemma_holds_longer(s.clauses, a, a1);
            lemma_not_gate(id, c as isize, a1);
            lemma_holds_concat(s1.clauses, gate, a1);
            lemma_encoded_complete(*not.expr, c as isize, s2, a1, env);
            lemma_prefix_chain(a, a1, a3);
        },
        Expr::Literal(value) => {
            lemma_unit_in_range(s, id, value);
            lemma_unit_clause(id, value, a);
            let gate = seq![unit_clause(id, value)];
            assert(clauses_hold(gate, a)) by {
                assert forall|i: int| 0 <= i < gate.len() implies clause_holds(#[trigger] gate[i], a) by {}
            }
            lemma_holds_concat(s.clauses, gate, a);
        },
        Expr::Var(name) => {},
    }
}

/// Certificate validity: an assignment under which the encoding's clauses
/// hold makes the formula itself true, read through the encoding's name
/// table.
pub proof fn theorem_evidence_satisfies_formula(e: Expr, a: Seq<bool>)
    requires
        e.size() < isize::MAX,
        a.len() == e.tseitin_model().symbols.len(),
        clauses_hold(e.tseitin_model().clauses, a),
    ensures
        e.eval(env_of(e.tseitin_model().names, a)),
{
    let (s0, id) = CnfModel::empty().gen_var(e);
    let s1 = s0.with_clause(unit_clause(id as isize, true));
    let t = e.encoded(id as isize, s1);
    lemma_gen_var(CnfModel::empty(), e);
    lemma_unit_in_range(s0, id as isize, true);
    lemma_anchored_grows(e, id as isize, s0, s1);
    lemma_encoded_wf(e, id as isize, s1);
    lemma_encoded_sound(e, id as isize, s1, a);
    assert(t.clauses[0] == s1.clauses[0]);
    assert(clause_holds(t.clauses[0], a));
    lemma_unit_clause(id as isize, true, a);
}

/// An environment that makes the formula true yields an assignment under
/// which the encoding's clauses hold.
pub proof fn theorem_formula_satisfies_encoding(e: Expr, env: Env)
    requires
        e.size() < isize::MAX,
        e.eval(env),
    ensures
        satisfiable(e.tseitin_model().clauses, e.tseitin_model().symbols.len()),
{
    let (s0, id) = CnfModel::empty().gen_var(e);
    let a0 = Seq::<bool>::empty();
    let a1 = value_added(CnfModel::empty(), e, a0, env);
    let s1 = s0.with_clause(unit_clause(id as isize, true));
    let t = e.encoded(id as isize, s1);
    lemma_gen_var(CnfModel::empty(), e);
    lemma_value_added(CnfModel::empty(), e, a0, env);
    lemma_unit_in_range(s0, id as isize, true);
    lemma_anchored_grows(e, id as isize, s0, s1);
    lemma_unit_clause(id as isize, true, a1);
    let gate = seq![unit_clause(id as isize, true)];
    assert(clauses_hold(gate, a1)) by {
        assert forall|i: int| 0 <= i < gate.len() implies clause_holds(#[trigger] gate[i], a1) by {}
    }
    lemma_holds_concat(s0.clauses, gate, a1);
    lemma_encoded_complete(e, id as isize, s1, a1, env);
    let b = extended(e, id as isize, s1, a1, env);
    assert(b.len() == t.symbols.len() && clauses_hold(t.clauses, b));
}

/// Equisatisfiability: the clause set that encodes a formula is satisfiable
/// exactly when the formula is.
pub proof fn theorem_equisatisfiable(e: Expr)
    requires
        e.size() < isize::MAX,
    ensures
        e.is_satisfiable() <==> satisfiable(e.tseitin_model().clauses, e.tseitin_model().symbols.len()),
{
    let t = e.tseitin_model();
    if e.is_satisfiable() {
        let env = choose|env: Env| #[trigger] e.eval(env);
        theorem_formula_satisfies_encoding(e, env);
    }
    if satisfiable(t.clauses, t.symbols.len()) {
        let a = choose|a: Seq<bool>| a.len() == t.symbols.len() && #[trigger] clauses_hold(t.clauses, a);
        theorem_evidence_satisfies_formula(e, a);
        assert(e.eval(env_of(t.names, a)));
    }
}

/// Giving a node its identifier keeps each named variable under its own
/// name in the table.
pub proof fn lemma_gen_var_names(s: CnfModel, e: Expr)
    requires
        s.wf(),
        s.names_match(),
        s.symbols.len() < isize::MAX,
    ensures
        s.gen_var(e).0.names_match(),
{
    let (t, id) = s.gen_var(e);
    assert forall|name: Seq<char>| #[trigger] t.names.contains_key(name) implies 1 <= t.names[name]
        <= t.symbols.len() && t.symbols[t.names[name] - 1] == name by {
        if s.names.contains_key(name) {
            assert(t.names[name] == s.names[name]);
        }
    }
}

/// Encoding a node keeps each named variable under its own name in the
/// table.
pub proof fn lemma_encoded_names(e: Expr, id: isize, s: CnfModel)
    requires
        e.fits(id, s),
        e.anchored(id, s),
        s.names_match(),
    ensures
        e.encoded(id, s).names_match(),
    decreases e,
{
    match e {
        Expr::And(and) => {
            let (s1, l) = s.gen_var(*and.l);
            let (s2, r) = s1.gen_var(*and.r);
            let gate = and_gate(id, l as isize, r as isize);
            let s3 = s2.plus(gate);
            let s4 = and.l.encoded(l as isize, s3);
            lemma_size_positive(*and.l);
            lemma_size_positive(*and.r);
            lemma_gen_var(s, *and.l);
            lemma_gen_var_names(s, *and.l);
            lemma_gen_var(s1, *and.r);
            lemma_gen_var_names(s1, *and.r);
            lemma_and_gate_in_range(id, l as isize, r as isize, s2.symbols.len() as int);
            lemma_plus(s2, gate);
            lemma_grows_chain(s1, s2, s3);
            lemma_anchored_grows(*and.l, l as isize, s1, s3);
            lemma_anchored_grows(*and.r, r as isize, s2, s3);
            lemma_encoded_wf(*and.l, l as isize, s3);
            lemma_encoded_names(*and.l, l as isize, s3);
            lemma_anchored_grows(*and.r, r as isize, s3, s4);
            lemma_encoded_names(*and.r, r as isize, s4);
        },
        Expr::Or(or) => {
            let (s1, l) = s.gen_var(*or.l);
            let (s2, r) = s1.gen_var(*or.r);
            let gate = or_gate(id, l as isize, r as isize);
            let s3 = s2.plus(gate);
            let s4 = or.l.encoded(l as isize, s3);
            lemma_size_positive(*or.l);
            lemma_size_positive(*or.r);
            lemma_gen_var(s, *or.l);
            lemma_gen_var_names(s, *or.l);
            lemma_gen_var(s1, *or.r);
            lemma_gen_var_names(s1, *or.r);
            lemma_or_gate_in_range(id, l as isize, r as isize, s2.symbols.len() as int);
            lemma_plus(s2, gate);
            lemma_grows_chain(s1, s2, s3);
            lemma_anchored_grows(*or.l, l as isize, s1, s3);
            lemma_anchored_grows(*or.r, r as isize, s2, s3);
            lemma_encoded_wf(*or.l, l as isize, s3);
            lemma_encoded_names(*or.l, l as isize, s3);
            lemma_anchored_grows(*or.r, r as isize, s3, s4);
            lemma_encoded_names(*or.r, r as isize, s4);
        },
        Expr::Not(not) => {
            let (s1, c) = s.gen_var(*not.expr);
            let gate = not_gate(id, c as isize);
            let s2 = s1.plus(gate);
            lemma_size_positive(*not.expr);
            lemma_gen_var(s, *not.expr);
            lemma_gen_var_names(s, *not.expr);
            lemma_not_gate_in_range(id, c as isize, s1.symbols.len() as int);
            lemma_plus(s1, gate);
            lemma_anchored_grows(*not.expr, c as isize, s1, s2);
            lemma_encoded_names(*not.expr, c as isize, s2);
        },
        Expr::Literal(_) => {},
        Expr::Var(name) => {
            let t = s.renamed(id as usize, name@);
            assert forall|other: Seq<char>| #[trigger] t.names.contains_key(other) implies 1 <= t.names[other]
                <= t.symbols.len() && t.symbols[t.names[other] - 1] == other by {
                assert(s.names.contains_key(other));
                assert(s.names.contains_key(name@));
            }
        },
    }
}

/// Identifier invariant: every literal of a formula's encoding is non-zero
/// and lies within the encoding's variable table. Every variable of the
/// formula has an identifier, and the table shows it under its name.
pub proof fn theorem_encoding_in_range(e: Expr)
    requires
        e.size() < isize::MAX,
    ensures
        e.tseitin_model().wf(),
        e.tseitin_model().in_range(),
        e.tseitin_model().names_match(),
        e.named_in(e.tseitin_model().names),
{
    let (s0, id) = CnfModel::empty().gen_var(e);
    let s1 = s0.with_clause(unit_clause(id as isize, true));
    lemma_gen_var(CnfModel::empty(), e);
    lemma_gen_var_names(CnfModel::empty(), e);
    lemma_unit_in_range(s0, id as isize, true);
    lemma_anchored_grows(e, id as isize, s0, s1);
    lemma_encoded_wf(e, id as isize, s1);
    lemma_encoded_names(e, id as isize, s1);
}

/// Searching the encoding of a formula decides the formula: the search
/// finds an assignment exactly when the formula is satisfiable, and the
/// assignment it finds, read through the encoding's name table, makes the
/// formula true.
pub proof fn theorem_search_decides_formula(e: Expr)
    requires
        e.size() < isize::MAX,
    ensures
        search(e.tseitin_model().clauses, all_open(e.tseitin_model().symbols.len())) is Some
            <==> e.is_satisfiable(),
        search(e.tseitin_model().clauses, all_open(e.tseitin_model().symbols.len())) matches Some(a) ==> e.eval(
            env_of(e.tseitin_model().names, a),
        ),
{
    let t = e.tseitin_model();
    theorem_encoding_in_range(e);
    theorem_search_finds_iff_satisfiable(t.clauses, t.symbols.len());
    theorem_equisatisfiable(e);
    match search(t.clauses, all_open(t.symbols.len())) {
        Some(a) => {
            theorem_evidence_satisfies_formula(e, a);
        },
        None => {},
    }
}

} // verus!
