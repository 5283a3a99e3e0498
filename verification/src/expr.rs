//! The expression model: a tagged tree of rational leaves and binary
//! arithmetic nodes. Subtrees are shared through `Arc`, never copied, and
//! never mutated after construction.
//!
//! The meaning of an expression is the spec function [`expr_val`], an exact
//! fraction. A well-formed expression ([`expr_wf`]) has well-formed leaves
//! and never divides by a subtree whose value is zero.

use vstd::prelude::*;
use vstd::multiset::Multiset;
use std::sync::Arc;
use crate::rational::{Rational, val_eq, val_add, val_sub, val_mul, val_div, val_zero,
    add_raw, sub_raw, mul_raw, div_result, opt_v,
    lemma_val_eq_trans, lemma_val_eq_nonzero, lemma_val_add_congr, lemma_val_sub_congr,
    lemma_val_mul_congr, lemma_val_div_congr};

verus! {

/// An operation node: one of the four operators, each owning its two
/// operand expressions. Order matters for `Sub` and `Div`.
pub enum Op {
    Add(Expr, Expr),
    Sub(Expr, Expr),
    Mul(Expr, Expr),
    Div(Expr, Expr),
}

/// An expression: a rational leaf, or an operation node shared through
/// a reference-counted pointer so that overlapping search results reuse
/// subtrees instead of duplicating them.
pub enum Expr {
    Number(Rational),
    Operation(Arc<Op>),
}

/// The exact value of an operation node.
pub open spec fn op_val(op: Op) -> (int, int)
    decreases op,
{
    match op {
        Op::Add(a, b) => val_add(expr_val(a), expr_val(b)),
        Op::Sub(a, b) => val_sub(expr_val(a), expr_val(b)),
        Op::Mul(a, b) => val_mul(expr_val(a), expr_val(b)),
        Op::Div(a, b) => val_div(expr_val(a), expr_val(b)),
    }
}

/// The exact value of an expression, as an exact fraction.
pub open spec fn expr_val(e: Expr) -> (int, int)
    decreases e,
{
    match e {
        Expr::Number(r) => r.v(),
        Expr::Operation(op) => op_val(*op),
    }
}

/// Well-formedness of an operation node: both operands are well formed,
/// and a `Div` node's right operand never has value zero.
pub open spec fn op_wf(op: Op) -> bool
    decreases op,
{
    match op {
        Op::Add(a, b) => expr_wf(a) && expr_wf(b),
        Op::Sub(a, b) => expr_wf(a) && expr_wf(b),
        Op::Mul(a, b) => expr_wf(a) && expr_wf(b),
        Op::Div(a, b) => expr_wf(a) && expr_wf(b) && !val_eq(expr_val(b), val_zero()),
    }
}

/// Well-formedness of an expression: every leaf is a well-formed rational
/// and no division by zero occurs anywhere in the tree.
pub open spec fn expr_wf(e: Expr) -> bool
    decreases e,
{
    match e {
        Expr::Number(r) => r.wf(),
        Expr::Operation(op) => op_wf(*op),
    }
}

/// The multiset of leaves of an operation node.
pub open spec fn op_leaves(op: Op) -> Multiset<Expr>
    decreases op,
{
    match op {
        Op::Add(a, b) => leaves(a).add(leaves(b)),
        Op::Sub(a, b) => leaves(a).add(leaves(b)),
        Op::Mul(a, b) => leaves(a).add(leaves(b)),
        Op::Div(a, b) => leaves(a).add(leaves(b)),
    }
}

/// The multiset of leaves of an expression: each `Number` node, counted
/// with multiplicity. An expression uses every element of a deck exactly
/// once iff its leaves equal the deck's multiset.
pub open spec fn leaves(e: Expr) -> Multiset<Expr>
    decreases e,
{
    match e {
        Expr::Number(_) => Multiset::empty().insert(e),
        Expr::Operation(op) => op_leaves(*op),
    }
}

/// What evaluating an operation node yields: the checked operation on the
/// operands' evaluations, `None` as soon as one step does not fit in
/// 64 bits.
pub open spec fn op_calc_spec(op: Op) -> Option<(int, int)>
    decreases op,
{
    match op {
        Op::Add(a, b) => match (expr_calc_spec(a), expr_calc_spec(b)) {
            (Some(x), Some(y)) => add_raw(x, y),
            _ => None,
        },
        Op::Sub(a, b) => match (expr_calc_spec(a), expr_calc_spec(b)) {
            (Some(x), Some(y)) => sub_raw(x, y),
            _ => None,
        },
        Op::Mul(a, b) => match (expr_calc_spec(a), expr_calc_spec(b)) {
            (Some(x), Some(y)) => mul_raw(x, y),
            _ => None,
        },
        Op::Div(a, b) => match (expr_calc_spec(a), expr_calc_spec(b)) {
            (Some(x), Some(y)) => div_result(x, y),
            _ => None,
        },
    }
}

/// What evaluating an expression yields: a leaf's own fraction, an
/// operation node's checked evaluation.
pub open spec fn expr_calc_spec(e: Expr) -> Option<(int, int)>
    decreases e,
{
    match e {
        Expr::Number(r) => Some(r.v()),
        Expr::Operation(op) => op_calc_spec(*op),
    }
}

/// Division safety of an operation node: no `Div` node anywhere below it
/// divides by a subtree whose value is zero.
pub open spec fn op_div_safe(op: Op) -> bool
    decreases op,
{
    match op {
        Op::Add(a, b) => div_safe(a) && div_safe(b),
        Op::Sub(a, b) => div_safe(a) && div_safe(b),
        Op::Mul(a, b) => div_safe(a) && div_safe(b),
        Op::Div(a, b) => div_safe(a) && div_safe(b) && !val_eq(expr_val(b), val_zero()),
    }
}

/// Division safety of an expression: no `Div` node anywhere in the tree
/// divides by a subtree whose value is zero.
pub open spec fn div_safe(e: Expr) -> bool
    decreases e,
{
    match e {
        Expr::Number(_) => true,
        Expr::Operation(op) => op_div_safe(*op),
    }
}

/// Every well-formed expression is division-safe: no expression the search
/// engines hand out ever divides by a value of zero.
pub proof fn lemma_wf_div_safe(e: Expr)
    requires
        expr_wf(e),
    ensures
        div_safe(e),
    decreases e,
{
    match e {
        Expr::Number(_) => {},
        Expr::Operation(op) => {
            match *op {
                Op::Add(a, b) => {
                    lemma_wf_div_safe(a);
                    lemma_wf_div_safe(b);
                },
                Op::Sub(a, b) => {
                    lemma_wf_div_safe(a);
                    lemma_wf_div_safe(b);
                },
                Op::Mul(a, b) => {
                    lemma_wf_div_safe(a);
                    lemma_wf_div_safe(b);
                },
                Op::Div(a, b) => {
                    lemma_wf_div_safe(a);
                    lemma_wf_div_safe(b);
                },
            }
        },
    }
}

/// A well-formed expression's value has a nonzero denominator.
pub proof fn lemma_wf_denom(e: Expr)
    requires
        expr_wf(e),
    ensures
        expr_val(e).1 != 0,
    decreases e,
{
    match e {
        Expr::Number(r) => {},
        Expr::Operation(op) => {
            match *op {
                Op::Add(a, b) => {
                    lemma_wf_denom(a);
                    lemma_wf_denom(b);
                    assert(expr_val(a).1 * expr_val(b).1 != 0) by (nonlinear_arith)
                        requires
                            expr_val(a).1 != 0,
                            expr_val(b).1 != 0,
                    ;
                },
                Op::Sub(a, b) => {
                    lemma_wf_denom(a);
                    lemma_wf_denom(b);
                    assert(expr_val(a).1 * expr_val(b).1 != 0) by (nonlinear_arith)
                        requires
                            expr_val(a).1 != 0,
                            expr_val(b).1 != 0,
                    ;
                },
                Op::Mul(a, b) => {
                    lemma_wf_denom(a);
                    lemma_wf_denom(b);
                    assert(expr_val(a).1 * expr_val(b).1 != 0) by (nonlinear_arith)
                        requires
                            expr_val(a).1 != 0,
                            expr_val(b).1 != 0,
                    ;
                },
                Op::Div(a, b) => {
                    lemma_wf_denom(a);
                    lemma_wf_denom(b);
                    assert(expr_val(b).0 != 0);
                    assert(expr_val(a).1 * expr_val(b).0 != 0) by (nonlinear_arith)
                        requires
                            expr_val(a).1 != 0,
                            expr_val(b).0 != 0,
                    ;
                },
            }
        },
    }
}

/// Relies on std's `Clone` for `Arc`: the clone shares the same node.
#[verifier::external_body]
fn arc_clone(a: &Arc<Op>) -> (r: Arc<Op>)
    ensures
        r == *a,
{
    a.clone()
}

impl Clone for Expr {
    /// Clones share operation nodes instead of copying the tree.
    fn clone(&self) -> (res: Self)
        ensures
            res == *self,
    {
        match self {
            Expr::Number(r) => Expr::Number(*r),
            Expr::Operation(op) => Expr::Operation(arc_clone(op)),
        }
    }
}

impl Op {
    /// Evaluates the node exactly, or reports `None` when an intermediate
    /// value does not fit in 64 bits.
    pub fn calc(&self) -> (r: Option<Rational>)
        requires
            op_wf(*self),
        ensures
            r matches Some(v) ==> v.wf() && val_eq(v.v(), op_val(*self)),
            opt_v(r) == op_calc_spec(*self),
        decreases *self,
    {
        match self {
            Op::Add(a, b) => {
                match (a.calc(), b.calc()) {
                    (Some(x), Some(y)) => {
                        let s = x.checked_add(&y);
                        proof {
                            if s is Some {
                                lemma_calc_op(expr_val(*a), expr_val(*b), x, y,
                                    s->Some_0, 0);
                            }
                        }
                        s
                    },
                    _ => None,
                }
            },
            Op::Sub(a, b) => {
                match (a.calc(), b.calc()) {
                    (Some(x), Some(y)) => {
                        let s = x.checked_sub(&y);
                        proof {
                            if s is Some {
                                lemma_calc_op(expr_val(*a), expr_val(*b), x, y,
                                    s->Some_0, 1);
                            }
                        }
                        s
                    },
                    _ => None,
                }
            },
            Op::Mul(a, b) => {
                match (a.calc(), b.calc()) {
                    (Some(x), Some(y)) => {
                        let s = x.checked_mul(&y);
                        proof {
                            if s is Some {
                                lemma_calc_op(expr_val(*a), expr_val(*b), x, y,
                                    s->Some_0, 2);
                            }
                        }
                        s
                    },
                    _ => None,
                }
            },
            Op::Div(a, b) => {
                match (a.calc(), b.calc()) {
                    (Some(x), Some(y)) => {
                        proof {
                            lemma_wf_denom(*b);
                            lemma_val_eq_nonzero(y.v(), expr_val(*b));
                        }
                        let s = x.div_exact(&y);
                        proof {
                            if s is Some {
                                lemma_calc_op(expr_val(*a), expr_val(*b), x, y,
                                    s->Some_0, 3);
                            }
                        }
                        s
                    },
                    _ => None,
                }
            },
        }
    }
}

/// The combined step used by `calc`: an exact operation on evaluated
/// operands denotes the operation on the operands' expressions.
pub(crate) proof fn lemma_calc_op(ea: (int, int), eb: (int, int), x: Rational, y: Rational, s: Rational, kind: int)
    requires
        x.wf(),
        y.wf(),
        val_eq(x.v(), ea),
        val_eq(y.v(), eb),
        kind == 0 ==> val_eq(s.v(), val_add(x.v(), y.v())),
        kind == 1 ==> val_eq(s.v(), val_sub(x.v(), y.v())),
        kind == 2 ==> val_eq(s.v(), val_mul(x.v(), y.v())),
        kind == 3 ==> val_eq(s.v(), val_div(x.v(), y.v())),
        0 <= kind <= 3,
        kind == 3 ==> y.numer != 0,
    ensures
        kind == 0 ==> val_eq(s.v(), val_add(ea, eb)),
        kind == 1 ==> val_eq(s.v(), val_sub(ea, eb)),
        kind == 2 ==> val_eq(s.v(), val_mul(ea, eb)),
        kind == 3 ==> val_eq(s.v(), val_div(ea, eb)),
{
    if kind == 0 {
        lemma_val_add_congr(x.v(), ea, y.v(), eb);
        assert(val_add(x.v(), y.v()).1 != 0) by (nonlinear_arith)
            requires
                x.denom > 0,
                y.denom > 0,
        ;
        lemma_val_eq_trans(s.v(), val_add(x.v(), y.v()), val_add(ea, eb));
    } else if kind == 1 {
        lemma_val_sub_congr(x.v(), ea, y.v(), eb);
        assert(val_sub(x.v(), y.v()).1 != 0) by (nonlinear_arith)
            requires
                x.denom > 0,
                y.denom > 0,
        ;
        lemma_val_eq_trans(s.v(), val_sub(x.v(), y.v()), val_sub(ea, eb));
    } else if kind == 2 {
        lemma_val_mul_congr(x.v(), ea, y.v(), eb);
        assert(val_mul(x.v(), y.v()).1 != 0) by (nonlinear_arith)
            requires
                x.denom > 0,
                y.denom > 0,
        ;
        lemma_val_eq_trans(s.v(), val_mul(x.v(), y.v()), val_mul(ea, eb));
    } else {
        lemma_val_div_congr(x.v(), ea, y.v(), eb);
        assert(val_div(x.v(), y.v()).1 != 0) by (nonlinear_arith)
            requires
                x.denom > 0,
                y.denom > 0,
                y.numer != 0,
        ;
        lemma_val_eq_trans(s.v(), val_div(x.v(), y.v()), val_div(ea, eb));
    }
}

impl Expr {
    /// Wraps an operation node into a shared expression.
    pub fn from(op: Op) -> (r: Expr)
        ensures
            r is Operation,
            *(r->Operation_0) == op,
    {
        Expr::Operation(Arc::new(op))
    }

    /// Evaluates the expression exactly, or reports `None` when an
    /// intermediate value does not fit in 64 bits. A leaf always evaluates.
    pub fn calc(&self) -> (r: Option<Rational>)
        requires
            expr_wf(*self),
        ensures
            r matches Some(v) ==> v.wf() && val_eq(v.v(), expr_val(*self)),
            opt_v(r) == expr_calc_spec(*self),
            self is Number ==> r is Some,
        decreases *self,
    {
        match self {
            Expr::Number(r) => Some(*r),
            Expr::Operation(op) => (**op).calc(),
        }
    }
}

} // verus!
