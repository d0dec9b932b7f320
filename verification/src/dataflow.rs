//! What instructions compute, as expressions over their inputs.
//!
//! Running instructions on a stack of expressions instead of numbers shows
//! which inputs each result is made of and in which order. A program runs
//! for one element `i`: in a loop body written element by element,
//! `VarIndexed { base }` stands for element `i` of the block at `base`, and
//! `StoreResult { slot }` writes the value on top of the stack as element
//! `i` of `slot`.
use crate::rpn::RpnOp;
use vstd::prelude::*;

verus! {

/// A value computed by instructions.
pub enum Expr {
    /// The constant `1`.
    One,
    /// The constant `0`.
    Zero,
    /// Input variable `id`.
    Var(u32),
    /// Pool constant `id`.
    Const(u32),
    /// Element `index` of the block at `base`.
    Elem(u32, u32),
    /// `bml(a, b) = 2^a - log2(b)`.
    Bml(Box<Expr>, Box<Expr>),
    /// `a + b`.
    Add(Box<Expr>, Box<Expr>),
    /// `a * b`.
    Mul(Box<Expr>, Box<Expr>),
}

/// `bml(a, b)`.
pub open spec fn e_bml(a: Expr, b: Expr) -> Expr {
    Expr::Bml(Box::new(a), Box::new(b))
}

/// `a + b`.
pub open spec fn e_add(a: Expr, b: Expr) -> Expr {
    Expr::Add(Box::new(a), Box::new(b))
}

/// `a * b`.
pub open spec fn e_mul(a: Expr, b: Expr) -> Expr {
    Expr::Mul(Box::new(a), Box::new(b))
}

/// The stack after `op` runs on `s` (top last) for element `i`, or `None`
/// when it finds too few values or is a `Loop`.
pub open spec fn expr_step(op: RpnOp, i: u32, s: Seq<Expr>) -> Option<Seq<Expr>> {
    match op {
        RpnOp::One => Some(s.push(Expr::One)),
        RpnOp::Zero => Some(s.push(Expr::Zero)),
        RpnOp::Var(v) => Some(s.push(Expr::Var(v))),
        RpnOp::Const(c) => Some(s.push(Expr::Const(c))),
        RpnOp::VarIndexed { base } => Some(s.push(Expr::Elem(base, i))),
        RpnOp::Bml => if s.len() >= 2 {
            Some(s.subrange(0, s.len() - 2).push(e_bml(s[s.len() - 2], s[s.len() - 1])))
        } else {
            None
        },
        RpnOp::FAdd => if s.len() >= 2 {
            Some(s.subrange(0, s.len() - 2).push(e_add(s[s.len() - 2], s[s.len() - 1])))
        } else {
            None
        },
        RpnOp::FMul => if s.len() >= 2 {
            Some(s.subrange(0, s.len() - 2).push(e_mul(s[s.len() - 2], s[s.len() - 1])))
        } else {
            None
        },
        RpnOp::Dup => if s.len() >= 1 {
            Some(s.push(s.last()))
        } else {
            None
        },
        RpnOp::Pick { depth } => if depth < s.len() {
            Some(s.push(s[s.len() - 1 - depth]))
        } else {
            None
        },
        RpnOp::Drop => if s.len() >= 1 {
            Some(s.drop_last())
        } else {
            None
        },
        RpnOp::Swap => if s.len() >= 2 {
            Some(s.subrange(0, s.len() - 2).push(s[s.len() - 1]).push(s[s.len() - 2]))
        } else {
            None
        },
        RpnOp::StoreResult { .. } => if s.len() >= 1 {
            Some(s.drop_last())
        } else {
            None
        },
        RpnOp::Loop { .. } => None,
    }
}

/// What `op` writes when it runs on `s` for element `i`: for
/// `StoreResult { slot }`, the top of the stack as element `i` of `slot`.
pub open spec fn expr_stores(op: RpnOp, s: Seq<Expr>) -> Seq<(u32, Expr)> {
    match op {
        RpnOp::StoreResult { slot } => seq![(slot, s.last())],
        _ => Seq::empty(),
    }
}

/// The stack and the writes, in order, after `ops` run on `s` for
/// element `i`; `None` when an instruction finds too few values.
pub open spec fn expr_run(ops: Seq<RpnOp>, i: u32, s: Seq<Expr>) -> Option<(Seq<Expr>, Seq<(u32, Expr)>)>
    decreases ops.len(),
{
    if ops.len() == 0 {
        Some((s, Seq::empty()))
    } else {
        match expr_run(ops.drop_last(), i, s) {
            None => None,
            Some((s1, w)) => match expr_step(ops.last(), i, s1) {
                None => None,
                Some(s2) => Some((s2, w + expr_stores(ops.last(), s1))),
            },
        }
    }
}

/// `log2(0) = -inf` written with `bml` alone:
/// `bml(1, bml(bml(1, 0), 1)) = 2 - log2(2^(2 - log2(0))) = -inf`.
pub open spec fn e_log2_zero() -> Expr {
    e_bml(Expr::One, e_bml(e_bml(Expr::One, Expr::Zero), Expr::One))
}

/// `-y` written with `bml` alone: `bml(log2(0), 2^y) = 0 - y`, where
/// `2^y = bml(y, 1)`.
pub open spec fn e_neg(y: Expr) -> Expr {
    e_bml(e_log2_zero(), e_bml(y, Expr::One))
}

} // verus!
