//! Nodes of the computation tape.

use vstd::prelude::*;

use crate::types::tensor::{Tensor, TensorModel};

verus! {

/// The operation that produced a node from its operands.
#[derive(Clone, Copy)]
pub enum Operation<T> {
    Add,
    Mul,
    Pow(T),
    Tanh,
    Exp,
    Leaf,
}

impl<T> Operation<T> {
    /// The node is an input rather than the result of an operation.
    pub open spec fn is_leaf(self) -> bool {
        self is Leaf
    }
}

/// A node of the tape.
pub struct Node<T> {
    pub tensor: Tensor<T>,
    pub grad: Tensor<T>,
    pub op: Operation<T>,
    pub deps: [usize; 2],
}

impl<T> Node<T> {
    /// A node with the given tensor, gradient, operation and operands.
    pub fn new(tensor: Tensor<T>, grad: Tensor<T>, op: Operation<T>, deps: [usize; 2]) -> (n: Self)
        ensures
            n == (Node { tensor, grad, op, deps }),
    {
        Self { tensor, grad, op, deps }
    }

    /// The node read over the buffers `s`.
    pub open spec fn model(self, s: Seq<Seq<T>>) -> NodeModel<T> {
        NodeModel { tensor: self.tensor.model(s), grad: self.grad.model(s), op: self.op, deps: self.deps }
    }

    /// The tensor and the gradient of the node are buffers of `s`.
    pub open spec fn lives_in(self, s: Seq<Seq<T>>) -> bool {
        self.tensor.lives_in(s) && self.grad.lives_in(s)
    }
}

/// The mathematical content of a node: its tensor and gradient as read over
/// the store, its operation and its operands.
pub struct NodeModel<T> {
    pub tensor: TensorModel<T>,
    pub grad: TensorModel<T>,
    pub op: Operation<T>,
    pub deps: [usize; 2],
}

impl<T> NodeModel<T> {
    /// The tensor and the gradient of the node are well formed.
    pub open spec fn wf(self) -> bool {
        self.tensor.wf() && self.grad.wf()
    }
}

} // verus!
