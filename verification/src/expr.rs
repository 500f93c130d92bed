//! Formula trees, their truth under an environment, and their encoding as
//! clauses: each node gets an identifier and the clauses that make the
//! identifier equivalent to the node's operator applied to its children.

use crate::cnf::{CnfModel, CNF};
use crate::tseitin::{
    lemma_and_gate_in_range, lemma_encoded_wf, lemma_gen_var, lemma_not_gate_in_range, lemma_or_gate_in_range,
    lemma_plus, lemma_size_positive, lemma_unit_in_range, theorem_encoding_in_range,
    theorem_search_decides_formula,
};
use vstd::prelude::*;

verus! {

/// A propositional formula. Implication, biconditional, exclusive or, nand
/// and nor are built from these five forms by the constructors below.
#[derive(Debug, PartialEq, Eq)]
pub enum Expr {
    And(And),
    Or(Or),
    Not(Not),
    Literal(bool),
    Var(String),
}

/// A conjunction of two formulas.
#[derive(Clone, Debug, PartialEq, Eq)]
pub struct And {
    pub l: Box<Expr>,
    pub r: Box<Expr>,
}

/// A disjunction of two formulas.
#[derive(Clone, Debug, PartialEq, Eq)]
pub struct Or {
    pub l: Box<Expr>,
    pub r: Box<Expr>,
}

/// The negation of a formula.
#[derive(Clone, Debug, PartialEq, Eq)]
pub struct Not {
    pub expr: Box<Expr>,
}

/// An environment gives each variable name a truth value.
pub type Env = spec_fn(Seq<char>) -> bool;

/// The clauses that tie `id` to the conjunction of `l` and `r`.
pub open spec fn and_gate(id: isize, l: isize, r: isize) -> Seq<Seq<isize>> {
    seq![seq![(-id) as isize, l], seq![(-id) as isize, r], seq![id, (-l) as isize, (-r) as isize]]
}

/// The clauses that tie `id` to the disjunction of `l` and `r`.
pub open spec fn or_gate(id: isize, l: isize, r: isize) -> Seq<Seq<isize>> {
    seq![seq![(-id) as isize, l, r], seq![id, (-l) as isize], seq![id, (-r) as isize]]
}

/// The clauses that tie `id` to the negation of `c`.
pub open spec fn not_gate(id: isize, c: isize) -> Seq<Seq<isize>> {
    seq![seq![(-id) as isize, (-c) as isize], seq![id, c]]
}

/// The clause that forces `id` to a value.
pub open spec fn unit_clause(id: isize, value: bool) -> Seq<isize> {
    seq![if value {
        id
    } else {
        (-id) as isize
    }]
}

/// The environment that a total assignment gives through a name table.
pub open spec fn env_of(names: Map<Seq<char>, usize>, a: Seq<bool>) -> Env {
    |name: Seq<char>| names.contains_key(name) && a[names[name] - 1]
}

impl Expr {
    /// Truth of the formula under an environment.
    pub open spec fn eval(self, env: Env) -> bool
        decreases self,
    {
        match self {
            Expr::And(and) => and.l.eval(env) && and.r.eval(env),
            Expr::Or(or) => or.l.eval(env) || or.r.eval(env),
            Expr::Not(not) => !not.expr.eval(env),
            Expr::Literal(value) => value,
            Expr::Var(name) => env(name@),
        }
    }

    /// Some environment makes the formula true.
    pub open spec fn is_satisfiable(self) -> bool {
        exists|env: Env| #[trigger] self.eval(env)
    }

    /// Number of nodes of the formula tree.
    pub open spec fn size(self) -> nat
        decreases self,
    {
        match self {
            Expr::And(and) => 1 + and.l.size() + and.r.size(),
            Expr::Or(or) => 1 + or.l.size() + or.r.size(),
            Expr::Not(not) => 1 + not.expr.size(),
            Expr::Literal(_) => 1,
            Expr::Var(_) => 1,
        }
    }

    /// The clause set after the node, already given the identifier `id`, was
    /// encoded into `s`: its own clauses first, then those of its children,
    /// left before right. A named variable adds no clause; its name is
    /// written into the table.
    pub open spec fn encoded(self, id: isize, s: CnfModel) -> CnfModel
        decreases self,
    {
        match self {
            Expr::And(and) => {
                let (s1, l) = s.gen_var(*and.l);
                let (s2, r) = s1.gen_var(*and.r);
                let s3 = s2.plus(and_gate(id, l as isize, r as isize));
                and.r.encoded(r as isize, and.l.encoded(l as isize, s3))
            },
            Expr::Or(or) => {
                let (s1, l) = s.gen_var(*or.l);
                let (s2, r) = s1.gen_var(*or.r);
                let s3 = s2.plus(or_gate(id, l as isize, r as isize));
                or.r.encoded(r as isize, or.l.encoded(l as isize, s3))
            },
            Expr::Not(not) => {
                let (s1, c) = s.gen_var(*not.expr);
                let s2 = s1.plus(not_gate(id, c as isize));
                not.expr.encoded(c as isize, s2)
            },
            Expr::Literal(value) => s.with_clause(unit_clause(id, value)),
            Expr::Var(name) => s.renamed(id as usize, name@),
        }
    }

    /// The clause set that encodes the formula: the root's identifier is
    /// forced to true, and every node is tied to its children.
    pub open spec fn tseitin_model(self) -> CnfModel {
        let (s, id) = CnfModel::empty().gen_var(self);
        self.encoded(id as isize, s.with_clause(unit_clause(id as isize, true)))
    }

    /// Every variable of the formula has an identifier in the name table.
    pub open spec fn named_in(self, names: Map<Seq<char>, usize>) -> bool
        decreases self,
    {
        match self {
            Expr::And(and) => and.l.named_in(names) && and.r.named_in(names),
            Expr::Or(or) => or.l.named_in(names) && or.r.named_in(names),
            Expr::Not(not) => not.expr.named_in(names),
            Expr::Literal(_) => true,
            Expr::Var(name) => names.contains_key(name@),
        }
    }

    /// If the node is a named variable, `id` is the identifier of its name.
    pub open spec fn anchored(self, id: isize, s: CnfModel) -> bool {
        match self {
            Expr::Var(name) => s.names.contains_key(name@) && s.names[name@] == id,
            _ => true,
        }
    }

    /// The node with identifier `id` can be encoded into `s` within the
    /// range of the literals' type.
    pub open spec fn fits(self, id: isize, s: CnfModel) -> bool {
        &&& s.wf()
        &&& 1 <= id <= s.symbols.len()
        &&& s.symbols.len() + self.size() <= isize::MAX
    }

    /// The conjunction node of two formulas.
    pub open spec fn conj(l: Expr, r: Expr) -> Expr {
        Expr::And(And { l: Box::new(l), r: Box::new(r) })
    }

    /// The disjunction node of two formulas.
    pub open spec fn disj(l: Expr, r: Expr) -> Expr {
        Expr::Or(Or { l: Box::new(l), r: Box::new(r) })
    }

    /// The negation node of a formula.
    pub open spec fn neg(subexpr: Expr) -> Expr {
        Expr::Not(Not { expr: Box::new(subexpr) })
    }

    /// Encodes the formula as an equisatisfiable clause set by the Tseitin
    /// transformation: the root gets an identifier that a unit clause forces
    /// to true, and every node is tied to its children.
    pub fn tseitin(&self) -> (cnf: CNF)
        requires
            self.size() < isize::MAX,
        ensures
            cnf@ == self.tseitin_model(),
            cnf@.wf(),
            cnf@.names_match(),
            self.named_in(cnf@.names),
    {
        let mut cnf = CNF::new(Vec::new(), Vec::new());
        assert(cnf@ == CnfModel::empty()) by {
            assert(cnf@.symbols =~= CnfModel::empty().symbols);
            assert(cnf@.clauses =~= CnfModel::empty().clauses);
        }
        let id = cnf.gen_var(self) as isize;
        proof {
            lemma_gen_var(CnfModel::empty(), *self);
            lemma_unit_in_range(cnf@, id, true);
        }
        cnf.enforce(id, true);
        proof {
            lemma_encoded_wf(*self, id, cnf@);
            theorem_encoding_in_range(*self);
        }
        self.tseitin_aux(id, &mut cnf);
        cnf
    }

    /// Whether some environment makes the formula true, decided by
    /// searching the formula's encoding.
    pub fn is_sat(&self) -> (sat: bool)
        requires
            self.size() < isize::MAX,
        ensures
            sat == self.is_satisfiable(),
    {
        let mut cnf = self.tseitin();
        proof {
            theorem_search_decides_formula(*self);
        }
        cnf.find_evidence().is_some()
    }

    /// Encodes one node, which already has the identifier `id`, into the
    /// clause set under construction.
    pub fn tseitin_aux(&self, id: isize, cnf: &mut CNF)
        requires
            self.fits(id, old(cnf)@),
        ensures
            final(cnf)@ == self.encoded(id, old(cnf)@),
        decreases *self,
    {
        match self {
            Expr::Var(name) => self.sub_var_name(name.clone(), id as usize, cnf),
            Expr::Literal(value) => cnf.enforce(id, *value),
            Expr::Or(or) => or.tseitin(id, cnf),
            Expr::And(and) => and.tseitin(id, cnf),
            Expr::Not(not) => not.tseitin(id, cnf),
        }
    }

    /// Writes a variable's name into the table at its identifier.
    pub fn sub_var_name(&self, name: String, id: usize, cnf: &mut CNF)
        requires
            1 <= id <= old(cnf)@.symbols.len(),
        ensures
            final(cnf)@ == old(cnf)@.renamed(id, name@),
    {
        cnf.set_symbol_name(id, name);
    }

    /// The conjunction of two formulas.
    pub fn and(l: Expr, r: Expr) -> (e: Expr)
        ensures
            e == Expr::conj(l, r),
    {
        Expr::And(And::new(Box::new(l), Box::new(r)))
    }

    /// The disjunction of two formulas.
    pub fn or(l: Expr, r: Expr) -> (e: Expr)
        ensures
            e == Expr::disj(l, r),
    {
        Expr::Or(Or::new(Box::new(l), Box::new(r)))
    }

    /// The negation of a formula.
    pub fn not(subexpr: Expr) -> (e: Expr)
        ensures
            e == Expr::neg(subexpr),
    {
        Expr::Not(Not::new(Box::new(subexpr)))
    }

    /// Implication: `l` implies `r`.
    pub fn eif(l: Expr, r: Expr) -> (e: Expr)
        ensures
            e == Expr::disj(Expr::neg(l), r),
            forall|env: Env| #[trigger] e.eval(env) == (l.eval(env) ==> r.eval(env)),
    {
        proof {
            reveal_with_fuel(Expr::eval, 4);
        }
        Expr::or(Expr::not(l), r)
    }

    /// Biconditional: `l` and `r` have the same truth value.
    pub fn iff(l: Expr, r: Expr) -> (e: Expr)
        ensures
            e == Expr::conj(Expr::disj(Expr::neg(l), r), Expr::disj(Expr::neg(r), l)),
            forall|env: Env| #[trigger] e.eval(env) == (l.eval(env) == r.eval(env)),
    {
        proof {
            reveal_with_fuel(Expr::eval, 4);
        }
        let l2 = l.duplicate();
        let r2 = r.duplicate();
        Expr::and(Expr::eif(l2, r2), Expr::eif(r, l))
    }

    /// Exclusive or: exactly one of `l` and `r` is true.
    pub fn xor(l: Expr, r: Expr) -> (e: Expr)
        ensures
            e == Expr::conj(Expr::disj(l, r), Expr::neg(Expr::conj(l, r))),
            forall|env: Env| #[trigger] e.eval(env) == (l.eval(env) != r.eval(env)),
    {
        proof {
            reveal_with_fuel(Expr::eval, 4);
        }
        let l2 = l.duplicate();
        let r2 = r.duplicate();
        Expr::and(Expr::or(l2, r2), Expr::not(Expr::and(l, r)))
    }

    /// Nand: `l` and `r` are not both true.
    pub fn nand(l: Expr, r: Expr) -> (e: Expr)
        ensures
            e == Expr::neg(Expr::conj(l, r)),
            forall|env: Env| #[trigger] e.eval(env) == !(l.eval(env) && r.eval(env)),
    {
        proof {
            reveal_with_fuel(Expr::eval, 4);
        }
        Expr::not(Expr::and(l, r))
    }

    /// Nor: neither `l` nor `r` is true.
    pub fn nor(l: Expr, r: Expr) -> (e: Expr)
        ensures
            e == Expr::neg(Expr::disj(l, r)),
            forall|env: Env| #[trigger] e.eval(env) == !(l.eval(env) || r.eval(env)),
    {
        proof {
            reveal_with_fuel(Expr::eval, 4);
        }
        Expr::not(Expr::or(l, r))
    }

    /// An equal formula in storage of its own.
    fn duplicate(&self) -> (copy: Expr)
        ensures
            copy == *self,
        decreases *self,
    {
        match self {
            Expr::And(and) => Expr::and(and.l.duplicate(), and.r.duplicate()),
            Expr::Or(or) => Expr::or(or.l.duplicate(), or.r.duplicate()),
            Expr::Not(not) => Expr::not(not.expr.duplicate()),
            Expr::Literal(value) => Expr::Literal(*value),
            Expr::Var(name) => Expr::Var(name.clone()),
        }
    }
}

impl Clone for Expr {
    fn clone(&self) -> (copy: Expr)
        ensures
            copy == *self,
    {
        self.duplicate()
    }
}

impl And {
    /// The conjunction of the two boxed formulas.
    pub fn new(l: Box<Expr>, r: Box<Expr>) -> (and: And)
        ensures
            and == (And { l, r }),
    {
        And { l, r }
    }

    /// Ties `id` to the conjunction of the two children's identifiers, then
    /// encodes the children.
    pub fn tseitin(&self, id: isize, cnf: &mut CNF)
        requires
            Expr::And(*self).fits(id, old(cnf)@),
        ensures
            final(cnf)@ == Expr::And(*self).encoded(id, old(cnf)@),
        decreases *self,
    {
        let ghost s = cnf@;
        proof {
            lemma_size_positive(*self.l);
            lemma_size_positive(*self.r);
            lemma_gen_var(s, *self.l);
        }
        let l_id = cnf.gen_var(&self.l) as isize;
        let ghost s1 = cnf@;
        proof {
            lemma_gen_var(s1, *self.r);
        }
        let r_id = cnf.gen_var(&self.r) as isize;
        let ghost s2 = cnf@;
        let not_id = -id;
        let not_l = -l_id;
        let not_r = -r_id;
        cnf.append_clause(vec![not_id, l_id]);
        cnf.append_clause(vec![not_id, r_id]);
        cnf.append_clause(vec![id, not_l, not_r]);
        proof {
            assert(cnf@.clauses =~= s2.clauses + and_gate(id, l_id, r_id));
            lemma_and_gate_in_range(id, l_id, r_id, s2.symbols.len() as int);
            lemma_plus(s2, and_gate(id, l_id, r_id));
            lemma_encoded_wf(*self.l, l_id, cnf@);
        }
        self.l.tseitin_aux(l_id, cnf);
        self.r.tseitin_aux(r_id, cnf);
    }
}

impl Or {
    /// The disjunction of the two boxed formulas.
    pub fn new(l: Box<Expr>, r: Box<Expr>) -> (or: Or)
        ensures
            or == (Or { l, r }),
    {
        Or { l, r }
    }

    /// Ties `id` to the disjunction of the two children's identifiers, then
    /// encodes the children.
    pub fn tseitin(&self, id: isize, cnf: &mut CNF)
        requires
            Expr::Or(*self).fits(id, old(cnf)@),
        ensures
            final(cnf)@ == Expr::Or(*self).encoded(id, old(cnf)@),
        decreases *self,
    {
        let ghost s = cnf@;
        proof {
            lemma_size_positive(*self.l);
            lemma_size_positive(*self.r);
            lemma_gen_var(s, *self.l);
        }
        let l_id = cnf.gen_var(&self.l) as isize;
        let ghost s1 = cnf@;
        proof {
            lemma_gen_var(s1, *self.r);
        }
        let r_id = cnf.gen_var(&self.r) as isize;
        let ghost s2 = cnf@;
        let not_id = -id;
        let not_l = -l_id;
        let not_r = -r_id;
        cnf.append_clause(vec![not_id, l_id, r_id]);
        cnf.append_clause(vec![id, not_l]);
        cnf.append_clause(vec![id, not_r]);
        proof {
            assert(cnf@.clauses =~= s2.clauses + or_gate(id, l_id, r_id));
            lemma_or_gate_in_range(id, l_id, r_id, s2.symbols.len() as int);
            lemma_plus(s2, or_gate(id, l_id, r_id));
            lemma_encoded_wf(*self.l, l_id, cnf@);
        }
        self.l.tseitin_aux(l_id, cnf);
        self.r.tseitin_aux(r_id, cnf);
    }
}

impl Not {
    /// The negation of the boxed formula.
    pub fn new(expr: Box<Expr>) -> (not: Not)
        ensures
            not == (Not { expr }),
    {
        Not { expr }
    }

    /// Ties `id` to the negation of the child's identifier, then encodes
    /// the child.
    pub fn tseitin(&self, id: isize, cnf: &mut CNF)
        requires
            Expr::Not(*self).fits(id, old(cnf)@),
        ensures
            final(cnf)@ == Expr::Not(*self).encoded(id, old(cnf)@),
        decreases *self,
    {
        let ghost s = cnf@;
        proof {
            lemma_size_positive(*self.expr);
            lemma_gen_var(s, *self.expr);
        }
        let subexpr_id = cnf.gen_var(&self.expr) as isize;
        let ghost s1 = cnf@;
        let not_id = -id;
        let not_subexpr = -subexpr_id;
        cnf.append_clause(vec![not_id, not_subexpr]);
        cnf.append_clause(vec![id, subexpr_id]);
        proof {
            assert(cnf@.clauses =~= s1.clauses + not_gate(id, subexpr_id));
            lemma_not_gate_in_range(id, subexpr_id, s1.symbols.len() as int);
            lemma_plus(s1, not_gate(id, subexpr_id));
        }
        self.expr.tseitin_aux(subexpr_id, cnf);
    }
}

} // verus!
