//! The operation capability: the closed set of node operations, each a
//! stateless forward/backward pair.
//!
//! `forward` evaluates a derived node from its operand values; `backward`
//! turns the gradient accumulated at a node into the two contributions that
//! flow to its operands (the local partial derivative times the upstream
//! gradient).  Both current operations are binary.  The traversal engine in
//! [`crate::var`] is agnostic to which operation a node holds: it only goes
//! through the [`Op`] dispatcher.

use crate::scalar::{lemma_wrapping_add, wrap};
use vstd::prelude::*;

verus! {

/// The addition operation: `forward(a, b) = a + b`, and an upstream gradient
/// `g` contributes `g` to each operand.
pub struct AddOp;

/// The multiplication operation: `forward(a, b) = a * b`, and an upstream
/// gradient `g` contributes `b * g` to the first operand and `a * g` to the
/// second.
pub struct MulOp;

/// The closed set of operations a derived node can hold, dispatched by
/// `match`.  Both variants are binary.
#[derive(Clone, Copy, PartialEq, Eq, Structural, Debug)]
pub enum Op {
    Add,
    Mul,
}

impl AddOp {
    /// The value of an addition node, from its operand values.
    pub fn forward(&self, a: i64, b: i64) -> (r: i64)
        ensures
            r == wrap(a + b),
    {
        proof {
            lemma_wrapping_add(a, b);
        }
        a.wrapping_add(b)
    }

    /// The gradient contributions an addition node with accumulated gradient
    /// `grad` sends to its two operands, in operand order.
    pub fn backward(&self, grad: i64) -> (r: (i64, i64))
        ensures
            r.0 == grad,
            r.1 == grad,
    {
        (grad, grad)
    }
}

impl MulOp {
    /// The value of a multiplication node, from its operand values.
    pub fn forward(&self, a: i64, b: i64) -> (r: i64)
        ensures
            r == wrap(a * b),
    {
        a.wrapping_mul(b)
    }

    /// The gradient contributions a multiplication node with accumulated
    /// gradient `grad` sends to its two operands, in operand order: the
    /// partial derivative with respect to each operand is the other
    /// operand's value.
    pub fn backward(&self, grad: i64, a: i64, b: i64) -> (r: (i64, i64))
        ensures
            r.0 == wrap(b * grad),
            r.1 == wrap(a * grad),
    {
        (b.wrapping_mul(grad), a.wrapping_mul(grad))
    }
}

impl Op {
    /// Every current operation takes exactly two operands.
    pub open spec fn arity(self) -> nat {
        2
    }

    /// The value of a derived node, as a function of its operand values.
    pub open spec fn forward_spec(self, a: int, b: int) -> i64 {
        match self {
            Op::Add => wrap(a + b),
            Op::Mul => wrap(a * b),
        }
    }

    /// The contribution an upstream gradient `grad` sends to the first
    /// operand, given both operand values.
    pub open spec fn backward_spec_0(self, grad: i64, a: i64, b: i64) -> i64 {
        match self {
            Op::Add => grad,
            Op::Mul => wrap(b * grad),
        }
    }

    /// The contribution an upstream gradient `grad` sends to the second
    /// operand, given both operand values.
    pub open spec fn backward_spec_1(self, grad: i64, a: i64, b: i64) -> i64 {
        match self {
            Op::Add => grad,
            Op::Mul => wrap(a * grad),
        }
    }

    /// Forward evaluation, dispatched to the operation's own definition.
    pub fn forward(self, a: i64, b: i64) -> (r: i64)
        ensures
            r == self.forward_spec(a as int, b as int),
    {
        match self {
            Op::Add => AddOp.forward(a, b),
            Op::Mul => MulOp.forward(a, b),
        }
    }

    /// Gradient distribution, dispatched to the operation's own definition:
    /// returns the contributions to the two operands, in operand order.
    pub fn backward(self, grad: i64, a: i64, b: i64) -> (r: (i64, i64))
        ensures
            r.0 == self.backward_spec_0(grad, a, b),
            r.1 == self.backward_spec_1(grad, a, b),
    {
        match self {
            Op::Add => AddOp.backward(grad),
            Op::Mul => MulOp.backward(grad, a, b),
        }
    }
}

} // verus!
