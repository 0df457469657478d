//! What the operators of L1S and the instructions of the IR compute, on
//! integers. The IR builder and the optimiser are held to these.
use vstd::prelude::*;
use crate::ssa::ast::BinaryOp;
use crate::ssa::ir::{InstrView, VReg};

verus! {

/// 1 for true, 0 for false.
pub open spec fn truth(b: bool) -> int {
    if b { 1 } else { 0 }
}

/// The size of an integer.
pub open spec fn magnitude(x: int) -> int {
    if x < 0 { -x } else { x }
}

/// Integer division rounding toward zero (0 when dividing by zero).
pub open spec fn quotient(x: int, y: int) -> int {
    if y == 0 || x == 0 {
        0
    } else {
        let q = magnitude(x) / magnitude(y);
        if (x < 0) != (y < 0) { -q } else { q }
    }
}

/// What a binary operator of L1S gives on the values of its operands;
/// truth values are 1 and 0, and any value other than 0 counts as true.
pub open spec fn l1s_binop(op: BinaryOp, x: int, y: int) -> int {
    match op {
        BinaryOp::Add => x + y,
        BinaryOp::Sub => x - y,
        BinaryOp::Mul => x * y,
        BinaryOp::Div => quotient(x, y),
        BinaryOp::Eq => truth(x == y),
        BinaryOp::Neq => truth(x != y),
        BinaryOp::Lt => truth(x < y),
        BinaryOp::Gt => truth(x > y),
        BinaryOp::Le => truth(x <= y),
        BinaryOp::Ge => truth(x >= y),
        BinaryOp::And => truth(x != 0 && y != 0),
        BinaryOp::Or => truth(x != 0 || y != 0),
    }
}

/// The value an instruction writes to its register, given the values
/// `env` holds for the registers it reads: arithmetic exact, comparisons,
/// `Not`, `And` and `Or` as 1 or 0. `None` for instructions whose value
/// does not come from registers alone (memory, calls, phis).
pub open spec fn ir_value(i: InstrView, env: Map<VReg, int>) -> Option<int> {
    match i {
        InstrView::Const(_, v, _) => Some(v as int),
        InstrView::Copy(_, a) => Some(env[a]),
        InstrView::Add(_, a, b) => Some(env[a] + env[b]),
        InstrView::Sub(_, a, b) => Some(env[a] - env[b]),
        InstrView::Mul(_, a, b) => Some(env[a] * env[b]),
        InstrView::Div(_, a, b) => Some(quotient(env[a], env[b])),
        InstrView::Eq(_, a, b) => Some(truth(env[a] == env[b])),
        InstrView::Neq(_, a, b) => Some(truth(env[a] != env[b])),
        InstrView::Lt(_, a, b) => Some(truth(env[a] < env[b])),
        InstrView::Gt(_, a, b) => Some(truth(env[a] > env[b])),
        InstrView::Le(_, a, b) => Some(truth(env[a] <= env[b])),
        InstrView::Ge(_, a, b) => Some(truth(env[a] >= env[b])),
        InstrView::Not(_, a) => Some(truth(env[a] == 0)),
        InstrView::Neg(_, a) => Some(-env[a]),
        InstrView::And(_, a, b) => Some(truth(env[a] != 0 && env[b] != 0)),
        InstrView::Or(_, a, b) => Some(truth(env[a] != 0 || env[b] != 0)),
        _ => None,
    }
}

} // verus!
