//! Tensors, the computation tape, and the values recorded on it.

pub mod node;
pub mod properties;
pub mod shape;
pub mod tape;
pub mod tensor;
pub mod value;

use vstd::prelude::*;

verus! {

/// The operation that produced a scalar node from its operands.
#[derive(Clone, Copy)]
pub enum Operation<T> {
    Add,
    Mul,
    Pow(T),
    Tanh,
    Exp,
    Leaf,
}

/// A node of a scalar tape.
#[derive(Clone, Copy)]
pub struct Node<T> {
    pub data: T,
    pub grad: T,
    pub op: Operation<T>,
    pub deps: [usize; 2],
}

/// A tape of scalar values. Gradients start out as `zero`.
pub struct Tape<T> {
    nodes: Vec<Node<T>>,
    zero: T,
}

/// A handle on a node of a scalar tape.
#[derive(Clone, Copy)]
pub struct Value {
    pub idx: usize,
}

/// `new` is `old` with one more node holding `data`, `op` and `deps`, and a
/// gradient of `zero`.
pub open spec fn recorded<T>(
    old: Seq<Node<T>>,
    new: Seq<Node<T>>,
    data: T,
    op: Operation<T>,
    deps: [usize; 2],
    zero: T,
) -> bool {
    new == old.push(Node { data, grad: zero, op, deps })
}

impl<T> Tape<T> {
    /// The nodes, in the order they were recorded.
    pub closed spec fn nodes(&self) -> Seq<Node<T>> {
        self.nodes@
    }

    /// The value that fresh gradients hold.
    pub closed spec fn zero(&self) -> T {
        self.zero
    }

    /// An empty tape whose gradients start out as `zero`.
    pub fn new(zero: T) -> (t: Self)
        ensures
            t.nodes() == Seq::<Node<T>>::empty(),
            t.zero() == zero,
    {
        Self { nodes: Vec::new(), zero }
    }

    /// The number of nodes recorded so far.
    pub fn index(&self) -> (n: usize)
        ensures
            n == self.nodes().len(),
    {
        self.nodes.len()
    }

    /// Forget every node from `idx` on.
    pub fn truncate(&mut self, idx: usize)
        ensures
            final(self).zero() == old(self).zero(),
            final(self).nodes() == (if idx < old(self).nodes().len() {
                old(self).nodes().take(idx as int)
            } else {
                old(self).nodes()
            }),
    {
        self.nodes.truncate(idx);
    }
}

impl<T: Copy> Tape<T> {
    /// Record a leaf holding `data`.
    pub fn value(&mut self, data: T) -> (v: Value)
        ensures
            final(self).zero() == old(self).zero(),
            v.idx == old(self).nodes().len(),
            recorded(old(self).nodes(), final(self).nodes(), data, Operation::Leaf, [0, 0], old(self).zero()),
    {
        Value::push(self, data, Operation::Leaf, [0, 0])
    }
}

impl Value {
    /// Record a node computed by `op` from the nodes in `deps`, with a zero gradient.
    pub fn push<T: Copy>(tape: &mut Tape<T>, data: T, op: Operation<T>, deps: [usize; 2]) -> (v: Value)
        ensures
            final(tape).zero() == old(tape).zero(),
            v.idx == old(tape).nodes().len(),
            recorded(old(tape).nodes(), final(tape).nodes(), data, op, deps, old(tape).zero()),
    {
        tape.nodes.push(Node { data, grad: tape.zero, op, deps });
        Value { idx: tape.nodes.len() - 1 }
    }

    /// The value held by the node.
    pub fn data<T: Copy>(&self, tape: &Tape<T>) -> (d: T)
        requires
            self.idx < tape.nodes().len(),
        ensures
            d == tape.nodes()[self.idx as int].data,
    {
        tape.nodes[self.idx].data
    }

    /// Replace the value held by the node.
    pub fn set_data<T: Copy>(&self, tape: &mut Tape<T>, data: T)
        requires
            self.idx < old(tape).nodes().len(),
        ensures
            final(tape).zero() == old(tape).zero(),
            final(tape).nodes() == old(tape).nodes().update(
                self.idx as int,
                Node { data, ..old(tape).nodes()[self.idx as int] },
            ),
    {
        let n = tape.nodes[self.idx];
        tape.nodes.set(self.idx, Node { data, ..n });
    }

    /// The accumulated gradient of the node.
    pub fn grad<T: Copy>(&self, tape: &Tape<T>) -> (g: T)
        requires
            self.idx < tape.nodes().len(),
        ensures
            g == tape.nodes()[self.idx as int].grad,
    {
        tape.nodes[self.idx].grad
    }

    /// Raise to the power `exponent`; `powf(x, e)` computes `x` to the power `e`.
    pub fn pow<T: Copy, P: Fn(T, T) -> T>(&self, tape: &mut Tape<T>, exponent: T, powf: P) -> (v: Value)
        requires
            self.idx < old(tape).nodes().len(),
            powf.requires((old(tape).nodes()[self.idx as int].data, exponent)),
        ensures
            final(tape).zero() == old(tape).zero(),
            v.idx == old(tape).nodes().len(),
            exists|d: T| {
                &&& #[trigger] powf.ensures((old(tape).nodes()[self.idx as int].data, exponent), d)
                &&& recorded(old(tape).nodes(), final(tape).nodes(), d, Operation::Pow(exponent), [self.idx, 0], old(tape).zero())
            },
    {
        let d = powf(self.data(tape), exponent);
        Value::push(tape, d, Operation::Pow(exponent), [self.idx, 0])
    }

    /// The exponential; `exp` computes it.
    pub fn exp<T: Copy, E: Fn(T) -> T>(&self, tape: &mut Tape<T>, exp: E) -> (v: Value)
        requires
            self.idx < old(tape).nodes().len(),
            exp.requires((old(tape).nodes()[self.idx as int].data,)),
        ensures
            final(tape).zero() == old(tape).zero(),
            v.idx == old(tape).nodes().len(),
            exists|d: T| {
                &&& #[trigger] exp.ensures((old(tape).nodes()[self.idx as int].data,), d)
                &&& recorded(old(tape).nodes(), final(tape).nodes(), d, Operation::Exp, [self.idx, 0], old(tape).zero())
            },
    {
        let d = exp(self.data(tape));
        Value::push(tape, d, Operation::Exp, [self.idx, 0])
    }

    /// The hyperbolic tangent, computed by `tanh` as `(exp(2x) - 1) / (exp(2x) + 1)`.
    pub fn tanh<T: Copy, H: Fn(T) -> T>(&self, tape: &mut Tape<T>, tanh: H) -> (v: Value)
        requires
            self.idx < old(tape).nodes().len(),
            tanh.requires((old(tape).nodes()[self.idx as int].data,)),
        ensures
            final(tape).zero() == old(tape).zero(),
            v.idx == old(tape).nodes().len(),
            exists|d: T| {
                &&& #[trigger] tanh.ensures((old(tape).nodes()[self.idx as int].data,), d)
                &&& recorded(old(tape).nodes(), final(tape).nodes(), d, Operation::Tanh, [self.idx, 0], old(tape).zero())
            },
    {
        let d = tanh(self.data(tape));
        Value::push(tape, d, Operation::Tanh, [self.idx, 0])
    }

    /// The sum; `plus` adds two values.
    pub fn add<T: Copy, A: Fn(T, T) -> T>(&self, tape: &mut Tape<T>, other: &Value, plus: A) -> (v: Value)
        requires
            self.idx < old(tape).nodes().len(),
            other.idx < old(tape).nodes().len(),
            plus.requires((old(tape).nodes()[self.idx as int].data, old(tape).nodes()[other.idx as int].data)),
        ensures
            final(tape).zero() == old(tape).zero(),
            v.idx == old(tape).nodes().len(),
            exists|d: T| {
                &&& #[trigger] plus.ensures((old(tape).nodes()[self.idx as int].data, old(tape).nodes()[other.idx as int].data), d)
                &&& recorded(old(tape).nodes(), final(tape).nodes(), d, Operation::Add, [self.idx, other.idx], old(tape).zero())
            },
    {
        let d = plus(self.data(tape), other.data(tape));
        Value::push(tape, d, Operation::Add, [self.idx, other.idx])
    }

    /// The product; `times` multiplies two values.
    pub fn mul<T: Copy, M: Fn(T, T) -> T>(&self, tape: &mut Tape<T>, other: &Value, times: M) -> (v: Value)
        requires
            self.idx < old(tape).nodes().len(),
            other.idx < old(tape).nodes().len(),
            times.requires((old(tape).nodes()[self.idx as int].data, old(tape).nodes()[other.idx as int].data)),
        ensures
            final(tape).zero() == old(tape).zero(),
            v.idx == old(tape).nodes().len(),
            exists|d: T| {
                &&& #[trigger] times.ensures((old(tape).nodes()[self.idx as int].data, old(tape).nodes()[other.idx as int].data), d)
                &&& recorded(old(tape).nodes(), final(tape).nodes(), d, Operation::Mul, [self.idx, other.idx], old(tape).zero())
            },
    {
        let d = times(self.data(tape), other.data(tape));
        Value::push(tape, d, Operation::Mul, [self.idx, other.idx])
    }

    /// Negate by multiplying with a leaf holding `neg_one`.
    pub fn neg<T: Copy, M: Fn(T, T) -> T>(&self, tape: &mut Tape<T>, neg_one: T, mul: M) -> (v: Value)
        requires
            self.idx < old(tape).nodes().len(),
            mul.requires((old(tape).nodes()[self.idx as int].data, neg_one)),
        ensures
            final(tape).zero() == old(tape).zero(),
            v.idx == old(tape).nodes().len() + 1,
            exists|d: T| {
                &&& #[trigger] mul.ensures((old(tape).nodes()[self.idx as int].data, neg_one), d)
                &&& final(tape).nodes() == old(tape).nodes().push(
                    Node { data: neg_one, grad: old(tape).zero(), op: Operation::Leaf, deps: [0, 0] },
                ).push(
                    Node {
                        data: d,
                        grad: old(tape).zero(),
                        op: Operation::Mul,
                        deps: [self.idx, old(tape).nodes().len() as usize],
                    },
                )
            },
    {
        let neg_one = tape.value(neg_one);
        self.mul(tape, &neg_one, mul)
    }

    /// Subtract by adding the negation of `other`.
    pub fn sub<T: Copy, M: Fn(T, T) -> T, A: Fn(T, T) -> T>(
        &self,
        tape: &mut Tape<T>,
        other: &Value,
        neg_one: T,
        mul: M,
        add: A,
    ) -> (v: Value)
        requires
            self.idx < old(tape).nodes().len(),
            other.idx < old(tape).nodes().len(),
            mul.requires((old(tape).nodes()[other.idx as int].data, neg_one)),
            forall|y: T| #[trigger] add.requires((old(tape).nodes()[self.idx as int].data, y)),
        ensures
            final(tape).zero() == old(tape).zero(),
            v.idx == old(tape).nodes().len() + 2,
            exists|n: T, d: T| {
                &&& #[trigger] mul.ensures((old(tape).nodes()[other.idx as int].data, neg_one), n)
                &&& #[trigger] add.ensures((old(tape).nodes()[self.idx as int].data, n), d)
                &&& final(tape).nodes() == old(tape).nodes().push(
                    Node { data: neg_one, grad: old(tape).zero(), op: Operation::Leaf, deps: [0, 0] },
                ).push(
                    Node {
                        data: n,
                        grad: old(tape).zero(),
                        op: Operation::Mul,
                        deps: [other.idx, old(tape).nodes().len() as usize],
                    },
                ).push(
                    Node {
                        data: d,
                        grad: old(tape).zero(),
                        op: Operation::Add,
                        deps: [self.idx, (old(tape).nodes().len() + 1) as usize],
                    },
                )
            },
    {
        let ghost n0 = tape.nodes();
        let negated = other.neg(tape, neg_one, mul);
        assert(tape.nodes()[self.idx as int] == n0[self.idx as int]);
        self.add(tape, &negated, add)
    }

    /// Divide by multiplying with `other` raised to the power `neg_one`.
    pub fn div<T: Copy, P: Fn(T, T) -> T, M: Fn(T, T) -> T>(
        &self,
        tape: &mut Tape<T>,
        other: &Value,
        neg_one: T,
        powf: P,
        mul: M,
    ) -> (v: Value)
        requires
            self.idx < old(tape).nodes().len(),
            other.idx < old(tape).nodes().len(),
            powf.requires((old(tape).nodes()[other.idx as int].data, neg_one)),
            forall|y: T| #[trigger] mul.requires((old(tape).nodes()[self.idx as int].data, y)),
        ensures
            final(tape).zero() == old(tape).zero(),
            v.idx == old(tape).nodes().len() + 1,
            exists|p: T, d: T| {
                &&& #[trigger] powf.ensures((old(tape).nodes()[other.idx as int].data, neg_one), p)
                &&& #[trigger] mul.ensures((old(tape).nodes()[self.idx as int].data, p), d)
                &&& final(tape).nodes() == old(tape).nodes().push(
                    Node {
                        data: p,
                        grad: old(tape).zero(),
                        op: Operation::Pow(neg_one),
                        deps: [other.idx, 0],
                    },
                ).push(
                    Node {
                        data: d,
                        grad: old(tape).zero(),
                        op: Operation::Mul,
                        deps: [self.idx, old(tape).nodes().len() as usize],
                    },
                )
            },
    {
        let ghost n0 = tape.nodes();
        let inverse = other.pow(tape, neg_one, powf);
        assert(tape.nodes()[self.idx as int] == n0[self.idx as int]);
        self.mul(tape, &inverse, mul)
    }
}

} // verus!
