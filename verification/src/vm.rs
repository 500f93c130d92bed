//! Postfix code for a stack machine, and the proof that running the code
//! of a formula computes the formula's truth value.

use crate::expr::{Env, Expr};
use vstd::prelude::*;

verus! {

/// An instruction of the stack machine that evaluates a formula.
#[derive(Clone, Debug, PartialEq, Eq)]
pub enum OpCode {
    /// Push the value of a variable.
    Load(String),
    /// Replace the two topmost values by their conjunction.
    And,
    /// Replace the two topmost values by their disjunction.
    Or,
    /// Replace the topmost value by its negation.
    Not,
    /// Push true.
    T,
    /// Push false.
    F,
}

/// An instruction as a mathematical value: a load carries its name's
/// characters.
pub enum Op {
    Load(Seq<char>),
    And,
    Or,
    Not,
    T,
    F,
}

impl View for OpCode {
    type V = Op;

    open spec fn view(&self) -> Op {
        match self {
            OpCode::Load(name) => Op::Load(name@),
            OpCode::And => Op::And,
            OpCode::Or => Op::Or,
            OpCode::Not => Op::Not,
            OpCode::T => Op::T,
            OpCode::F => Op::F,
        }
    }
}

/// The instructions held as executable values, as mathematical ones.
pub open spec fn code_view(codes: Seq<OpCode>) -> Seq<Op> {
    codes.map_values(|code: OpCode| code@)
}

/// The stack after one instruction, or nothing when the stack is too low
/// for it.
pub open spec fn step(op: Op, stack: Seq<bool>, env: Env) -> Option<Seq<bool>> {
    match op {
        Op::Load(name) => Some(stack.push(env(name))),
        Op::T => Some(stack.push(true)),
        Op::F => Some(stack.push(false)),
        Op::Not => if stack.len() >= 1 {
            Some(stack.drop_last().push(!stack.last()))
        } else {
            None
        },
        Op::And => if stack.len() >= 2 {
            let r = stack.last();
            let l = stack.drop_last().last();
            Some(stack.drop_last().drop_last().push(l && r))
        } else {
            None
        },
        Op::Or => if stack.len() >= 2 {
            let r = stack.last();
            let l = stack.drop_last().last();
            Some(stack.drop_last().drop_last().push(l || r))
        } else {
            None
        },
    }
}

/// The stack after the instructions were run in order.
pub open spec fn run(code: Seq<Op>, stack: Seq<bool>, env: Env) -> Option<Seq<bool>>
    decreases code.len(),
{
    if code.len() == 0 {
        Some(stack)
    } else {
        match run(code.drop_last(), stack, env) {
            Some(before) => step(code.last(), before, env),
            None => None,
        }
    }
}

impl Expr {
    /// The formula in postfix order: the code of each operand, then the
    /// operator.
    pub open spec fn compiled(self) -> Seq<Op>
        decreases self,
    {
        match self {
            Expr::Not(not) => not.expr.compiled().push(Op::Not),
            Expr::And(and) => (and.l.compiled() + and.r.compiled()).push(Op::And),
            Expr::Or(or) => (or.l.compiled() + or.r.compiled()).push(Op::Or),
            Expr::Literal(value) => seq![if value {
                Op::T
            } else {
                Op::F
            }],
            Expr::Var(name) => seq![Op::Load(name@)],
        }
    }

    /// Compiles the formula for the stack machine.
    pub fn compile(&self) -> (codes: Vec<OpCode>)
        ensures
            code_view(codes@) == self.compiled(),
    {
        let mut codes = Vec::new();
        self.compile_aux(&mut codes);
        assert(code_view(codes@) =~= self.compiled());
        codes
    }

    fn compile_aux(&self, codes: &mut Vec<OpCode>)
        ensures
            code_view(final(codes)@) == code_view(old(codes)@) + self.compiled(),
        decreases *self,
    {
        let ghost before = code_view(codes@);
        match self {
            Expr::Not(not) => {
                not.expr.compile_aux(codes);
                let ghost operands = code_view(codes@);
                codes.push(OpCode::Not);
                assert(code_view(codes@) =~= operands.push(Op::Not));
                assert(operands.push(Op::Not) =~= before + self.compiled());
            },
            Expr::And(and) => {
                and.l.compile_aux(codes);
                and.r.compile_aux(codes);
                let ghost operands = code_view(codes@);
                codes.push(OpCode::And);
                assert(code_view(codes@) =~= operands.push(Op::And));
                assert(operands =~= before + (and.l.compiled() + and.r.compiled()));
                assert(operands.push(Op::And) =~= before + self.compiled());
            },
            Expr::Or(or) => {
                or.l.compile_aux(codes);
                or.r.compile_aux(codes);
                let ghost operands = code_view(codes@);
                codes.push(OpCode::Or);
                assert(code_view(codes@) =~= operands.push(Op::Or));
                assert(operands =~= before + (or.l.compiled() + or.r.compiled()));
                assert(operands.push(Op::Or) =~= before + self.compiled());
            },
            Expr::Literal(b) => {
                codes.push(
                    if *b {
                        OpCode::T
                    } else {
                        OpCode::F
                    },
                );
                assert(code_view(codes@) =~= before + self.compiled());
            },
            Expr::Var(name) => {
                codes.push(OpCode::Load(name.clone()));
                assert(code_view(codes@) =~= before + self.compiled());
            },
        }
    }
}

/// Running one sequence of instructions after another is running their
/// concatenation.
pub proof fn lemma_run_concat(first: Seq<Op>, second: Seq<Op>, stack: Seq<bool>, env: Env)
    ensures
        run(first + second, stack, env) == match run(first, stack, env) {
            Some(middle) => run(second, middle, env),
            None => None,
        },
    decreases second.len(),
{
    if second.len() == 0 {
        assert(first + second =~= first);
    } else {
        assert((first + second).drop_last() =~= first + second.drop_last());
        lemma_run_concat(first, second.drop_last(), stack, env);
    }
}

/// Running the code of a formula pushes the formula's truth value onto
/// the stack and leaves the rest of the stack alone.
pub proof fn theorem_compiled_evaluates(e: Expr, stack: Seq<bool>, env: Env)
    ensures
        run(e.compiled(), stack, env) == Some(stack.push(e.eval(env))),
    decreases e,
{
    match e {
        Expr::Not(not) => {
            let inner = not.expr.compiled();
            theorem_compiled_evaluates(*not.expr, stack, env);
            assert(e.compiled().drop_last() =~= inner);
            let after = stack.push(not.expr.eval(env));
            assert(after.drop_last() =~= stack);
        },
        Expr::And(and) => {
            let l = and.l.compiled();
            let r = and.r.compiled();
            theorem_compiled_evaluates(*and.l, stack, env);
            let mid = stack.push(and.l.eval(env));
            theorem_compiled_evaluates(*and.r, mid, env);
            lemma_run_concat(l, r, stack, env);
            assert(e.compiled().drop_last() =~= l + r);
            let after = mid.push(and.r.eval(env));
            assert(after.drop_last() =~= mid);
            assert(mid.drop_last() =~= stack);
        },
        Expr::Or(or) => {
            let l = or.l.compiled();
            let r = or.r.compiled();
            theorem_compiled_evaluates(*or.l, stack, env);
            let mid = stack.push(or.l.eval(env));
            theorem_compiled_evaluates(*or.r, mid, env);
            lemma_run_concat(l, r, stack, env);
            assert(e.compiled().drop_last() =~= l + r);
            let after = mid.push(or.r.eval(env));
            assert(after.drop_last() =~= mid);
            assert(mid.drop_last() =~= stack);
        },
        Expr::Literal(value) => {
            assert(e.compiled().drop_last() =~= Seq::<Op>::empty());
            reveal_with_fuel(run, 2);
        },
        Expr::Var(name) => {
            assert(e.compiled().drop_last() =~= Seq::<Op>::empty());
            reveal_with_fuel(run, 2);
        },
    }
}

} // verus!
