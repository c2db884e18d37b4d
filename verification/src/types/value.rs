//! Operations on values: each computes the tensor of a new node from the
//! tensors of its operands and records the node on the tape. The arithmetic
//! on single elements is handed in as closures.

use vstd::prelude::*;

use crate::types::shape::{suffix_products_fit, MAX_DIMS};
use crate::types::node::{Node, NodeModel, Operation};
use crate::types::tape::{extended, lemma_tape_grew, pushed, Tape};
use crate::types::tensor::{grown, lemma_grown_trans, mapped, powered, product, scalar_model, storage_mapped, zipped, Tensor, TensorModel};

verus! {

/// A handle on a node of a tape.
#[derive(Clone, Copy)]
pub struct Value {
    pub idx: usize,
}

impl Value {
    /// Record a node computed by `op` from the nodes in `deps`, with a zero
    /// gradient; `tensor` is a tensor over the tape's store.
    pub fn push<T: Copy>(tape: &mut Tape<T>, tensor: Tensor<T>, op: Operation<T>, deps: [usize; 2]) -> (v: Value)
        requires
            old(tape).wf(),
            tensor.wf_in(old(tape).store@),
            suffix_products_fit(tensor@.dims),
        ensures
            final(tape).wf(),
            final(tape).zero() == old(tape).zero(),
            grown(old(tape).store@, final(tape).store@),
            v.idx == old(tape).nodes().len(),
            pushed(old(tape).nodes(), final(tape).nodes(), tensor.model(old(tape).store@), op, deps, old(tape).zero()),
    {
        let ghost t0 = *tape;
        let zero = tape.zero_element();
        let grad = tensor.zeros_like(&mut tape.store, zero);
        proof {
            lemma_tape_grew(t0, *tape);
        }
        tape.push_node(Node { tensor, grad, op, deps });
        let v = Value { idx: tape.index() - 1 };
        assert(tape.nodes().take(v.idx as int) =~= old(tape).nodes());
        v
    }

    /// The tensor of the node.
    pub fn tensor<T>(&self, tape: &Tape<T>) -> (t: Tensor<T>)
        requires
            self.idx < tape.nodes().len(),
        ensures
            t == tape.nodes@[self.idx as int].tensor,
            t.model(tape.store@) == tape.nodes()[self.idx as int].tensor,
    {
        tape.node(self.idx).tensor
    }

    /// Replace the tensor of the node by `tensor`, a tensor over the tape's store.
    pub fn set_tensor<T: Copy>(&self, tape: &mut Tape<T>, tensor: Tensor<T>)
        requires
            old(tape).wf(),
            self.idx < old(tape).nodes().len(),
            tensor.wf_in(old(tape).store@),
        ensures
            final(tape).wf(),
            final(tape).zero() == old(tape).zero(),
            final(tape).store@ == old(tape).store@,
            final(tape).nodes() == old(tape).nodes().update(
                self.idx as int,
                NodeModel { tensor: tensor.model(old(tape).store@), ..old(tape).nodes()[self.idx as int] },
            ),
    {
        let n = tape.node(self.idx);
        assert(old(tape).nodes@[self.idx as int].lives_in(old(tape).store@));
        let node = Node { tensor, grad: n.grad, op: n.op, deps: n.deps };
        tape.set_node(self.idx, node);
    }

    /// The accumulated gradient of the node.
    pub fn grad<T>(&self, tape: &Tape<T>) -> (g: Tensor<T>)
        requires
            self.idx < tape.nodes().len(),
        ensures
            g == tape.nodes@[self.idx as int].grad,
            g.model(tape.store@) == tape.nodes()[self.idx as int].grad,
    {
        tape.node(self.idx).grad
    }

    /// Replace the gradient of the node by `grad`, a tensor over the tape's store.
    pub fn set_grad<T: Copy>(&self, tape: &mut Tape<T>, grad: Tensor<T>)
        requires
            old(tape).wf(),
            self.idx < old(tape).nodes().len(),
            grad.wf_in(old(tape).store@),
        ensures
            final(tape).wf(),
            final(tape).zero() == old(tape).zero(),
            final(tape).store@ == old(tape).store@,
            final(tape).nodes() == old(tape).nodes().update(
                self.idx as int,
                NodeModel { grad: grad.model(old(tape).store@), ..old(tape).nodes()[self.idx as int] },
            ),
    {
        let n = tape.node(self.idx);
        assert(old(tape).nodes@[self.idx as int].lives_in(old(tape).store@));
        let node = Node { tensor: n.tensor, grad, op: n.op, deps: n.deps };
        tape.set_node(self.idx, node);
    }
}


/// `new` is `old` with two more nodes: a leaf holding the scalar `x`, then a
/// node computed by `op` from `deps`.
pub open spec fn extended_with_scalar<T>(
    old: Seq<NodeModel<T>>,
    new: Seq<NodeModel<T>>,
    x: T,
    op: Operation<T>,
    deps: [usize; 2],
    zero: T,
) -> bool {
    &&& new.len() == old.len() + 2
    &&& extended(old, new.take(old.len() + 1int), Operation::Leaf, [0, 0], zero)
    &&& new[old.len() as int].tensor == scalar_model(x)
    &&& extended(new.take(old.len() + 1int), new, op, deps, zero)
}

/// The tensor of node `i`.
pub open spec fn tensor_at<T>(nodes: Seq<NodeModel<T>>, i: int) -> TensorModel<T> {
    nodes[i].tensor
}

impl Value {
    /// Raise to the power `exponent`; `pow(x, e)` computes `x` to the power `e`.
    pub fn pow<T: Copy, F: Fn(T, T) -> T + Copy>(&self, tape: &mut Tape<T>, exponent: T, pow: F) -> (v: Value)
        requires
            old(tape).wf(),
            self.idx < old(tape).nodes().len(),
            suffix_products_fit(tensor_at(old(tape).nodes(), self.idx as int).dims),
            forall|x: T| #[trigger] pow.requires((x, exponent)),
        ensures
            final(tape).wf(),
            final(tape).zero() == old(tape).zero(),
            grown(old(tape).store@, final(tape).store@),
            v.idx == old(tape).nodes().len(),
            extended(old(tape).nodes(), final(tape).nodes(), Operation::Pow(exponent), [self.idx, 0], old(tape).zero()),
            powered(pow, exponent, tensor_at(old(tape).nodes(), self.idx as int), tensor_at(final(tape).nodes(), v.idx as int)),
    {
        let x = self.tensor(tape);
        proof {
            assert(old(tape).nodes@[self.idx as int].lives_in(old(tape).store@));
        }
        let ghost t0 = *tape;
        let data = x.pow(&mut tape.store, exponent, pow);
        proof {
            lemma_tape_grew(t0, *tape);
        }
        let ghost s1 = tape.store@;
        let v = Value::push(tape, data, Operation::Pow(exponent), [self.idx, 0]);
        proof {
            lemma_grown_trans(old(tape).store@, s1, tape.store@);
        }
        v
    }

    /// The exponential; `exp` computes the exponential of one element.
    pub fn exp<T: Copy, F: Fn(T) -> T>(&self, tape: &mut Tape<T>, exp: F) -> (v: Value)
        requires
            old(tape).wf(),
            self.idx < old(tape).nodes().len(),
            suffix_products_fit(tensor_at(old(tape).nodes(), self.idx as int).dims),
            forall|x: T| #[trigger] exp.requires((x,)),
        ensures
            final(tape).wf(),
            final(tape).zero() == old(tape).zero(),
            grown(old(tape).store@, final(tape).store@),
            v.idx == old(tape).nodes().len(),
            extended(old(tape).nodes(), final(tape).nodes(), Operation::Exp, [self.idx, 0], old(tape).zero()),
            storage_mapped(exp, tensor_at(old(tape).nodes(), self.idx as int), tensor_at(final(tape).nodes(), v.idx as int)),
    {
        let x = self.tensor(tape);
        proof {
            assert(old(tape).nodes@[self.idx as int].lives_in(old(tape).store@));
        }
        let ghost t0 = *tape;
        let data = x.exp(&mut tape.store, exp);
        proof {
            lemma_tape_grew(t0, *tape);
        }
        let ghost s1 = tape.store@;
        let v = Value::push(tape, data, Operation::Exp, [self.idx, 0]);
        proof {
            lemma_grown_trans(old(tape).store@, s1, tape.store@);
        }
        v
    }

    /// The hyperbolic tangent, computed elementwise by `tanh` as
    /// `(exp(2x) - 1) / (exp(2x) + 1)`; the new tensor is row-major.
    pub fn tanh<T: Copy, F: Fn(T) -> T>(&self, tape: &mut Tape<T>, tanh: F) -> (v: Value)
        requires
            old(tape).wf(),
            self.idx < old(tape).nodes().len(),
            suffix_products_fit(tensor_at(old(tape).nodes(), self.idx as int).dims),
            forall|x: T| #[trigger] tanh.requires((x,)),
        ensures
            final(tape).wf(),
            final(tape).zero() == old(tape).zero(),
            grown(old(tape).store@, final(tape).store@),
            v.idx == old(tape).nodes().len(),
            extended(old(tape).nodes(), final(tape).nodes(), Operation::Tanh, [self.idx, 0], old(tape).zero()),
            mapped(tanh, tensor_at(old(tape).nodes(), self.idx as int), tensor_at(final(tape).nodes(), v.idx as int)),
    {
        let x = self.tensor(tape);
        proof {
            assert(old(tape).nodes@[self.idx as int].lives_in(old(tape).store@));
        }
        let ghost t0 = *tape;
        let data = x.map(&mut tape.store, tanh);
        proof {
            lemma_tape_grew(t0, *tape);
        }
        let ghost s1 = tape.store@;
        let v = Value::push(tape, data, Operation::Tanh, [self.idx, 0]);
        proof {
            lemma_grown_trans(old(tape).store@, s1, tape.store@);
        }
        v
    }

    /// The elementwise sum of two values of equal dims; `add` adds two elements.
    pub fn add<T: Copy, F: Fn(T, T) -> T>(&self, tape: &mut Tape<T>, other: &Value, add: F) -> (v: Value)
        requires
            old(tape).wf(),
            self.idx < old(tape).nodes().len(),
            other.idx < old(tape).nodes().len(),
            tensor_at(old(tape).nodes(), self.idx as int).dims == tensor_at(old(tape).nodes(), other.idx as int).dims,
            suffix_products_fit(tensor_at(old(tape).nodes(), self.idx as int).dims),
            forall|x: T, y: T| #[trigger] add.requires((x, y)),
        ensures
            final(tape).wf(),
            final(tape).zero() == old(tape).zero(),
            grown(old(tape).store@, final(tape).store@),
            v.idx == old(tape).nodes().len(),
            extended(old(tape).nodes(), final(tape).nodes(), Operation::Add, [self.idx, other.idx], old(tape).zero()),
            zipped(
                add,
                tensor_at(old(tape).nodes(), self.idx as int),
                tensor_at(old(tape).nodes(), other.idx as int),
                tensor_at(final(tape).nodes(), v.idx as int),
            ),
    {
        let x = self.tensor(tape);
        let y = other.tensor(tape);
        proof {
            assert(old(tape).nodes@[self.idx as int].lives_in(old(tape).store@));
            assert(old(tape).nodes@[other.idx as int].lives_in(old(tape).store@));
        }
        let ghost t0 = *tape;
        let data = x.zip_with(&mut tape.store, &y, add);
        proof {
            lemma_tape_grew(t0, *tape);
        }
        let ghost s1 = tape.store@;
        let v = Value::push(tape, data, Operation::Add, [self.idx, other.idx]);
        proof {
            lemma_grown_trans(old(tape).store@, s1, tape.store@);
        }
        v
    }

    /// The matrix product of two values; `mul_add(acc, a, b)` adds `a * b` to `acc`.
    pub fn mul<T: Copy, F: Fn(T, T, T) -> T>(
        &self,
        tape: &mut Tape<T>,
        other: &Value,
        mul_add: F,
    ) -> (v: Value)
        requires
            old(tape).wf(),
            self.idx < old(tape).nodes().len(),
            other.idx < old(tape).nodes().len(),
            tensor_at(old(tape).nodes(), self.idx as int).is_matrix(),
            tensor_at(old(tape).nodes(), other.idx as int).is_matrix(),
            tensor_at(old(tape).nodes(), self.idx as int).dims[4] == tensor_at(old(tape).nodes(), other.idx as int).dims[3],
            tensor_at(old(tape).nodes(), self.idx as int).dims[3] * tensor_at(old(tape).nodes(), other.idx as int).dims[4] <= usize::MAX,
            forall|c: T, a: T, b: T| #[trigger] mul_add.requires((c, a, b)),
        ensures
            final(tape).wf(),
            final(tape).zero() == old(tape).zero(),
            grown(old(tape).store@, final(tape).store@),
            v.idx == old(tape).nodes().len(),
            extended(old(tape).nodes(), final(tape).nodes(), Operation::Mul, [self.idx, other.idx], old(tape).zero()),
            product(
                mul_add,
                old(tape).zero(),
                tensor_at(old(tape).nodes(), self.idx as int),
                tensor_at(old(tape).nodes(), other.idx as int),
                tensor_at(final(tape).nodes(), v.idx as int),
            ),
    {
        let x = self.tensor(tape);
        let y = other.tensor(tape);
        proof {
            assert(old(tape).nodes@[self.idx as int].lives_in(old(tape).store@));
            assert(old(tape).nodes@[other.idx as int].lives_in(old(tape).store@));
        }
        let ghost t0 = *tape;
        let zero = tape.zero_element();
        let data = x.matmul(&mut tape.store, &y, zero, mul_add);
        proof {
            lemma_tape_grew(t0, *tape);
        }
        let ghost s1 = tape.store@;
        let v = Value::push(tape, data, Operation::Mul, [self.idx, other.idx]);
        proof {
            lemma_grown_trans(old(tape).store@, s1, tape.store@);
        }
        v
    }

    /// Add the scalar `other`, which is recorded as a leaf first; the value must
    /// hold a single element.
    pub fn add_f32<T: Copy, F: Fn(T, T) -> T>(&self, tape: &mut Tape<T>, other: T, add: F) -> (v: Value)
        requires
            old(tape).wf(),
            self.idx < old(tape).nodes().len(),
            tensor_at(old(tape).nodes(), self.idx as int).dims == seq![1usize, 1, 1, 1, 1],
            forall|x: T, y: T| #[trigger] add.requires((x, y)),
        ensures
            final(tape).wf(),
            final(tape).zero() == old(tape).zero(),
            grown(old(tape).store@, final(tape).store@),
            v.idx == old(tape).nodes().len() + 1,
            extended_with_scalar(
                old(tape).nodes(),
                final(tape).nodes(),
                other,
                Operation::Add,
                [self.idx, old(tape).nodes().len() as usize],
                old(tape).zero(),
            ),
            zipped(add, tensor_at(old(tape).nodes(), self.idx as int), scalar_model(other), tensor_at(final(tape).nodes(), v.idx as int)),
    {
        let ghost n0 = old(tape).nodes();
        let scalar = tape.scalar(other);
        let ghost n1 = tape.nodes();
        let ghost s1 = tape.store@;
        proof {
            assert(n1[self.idx as int] == n0[self.idx as int]);
            assert(tape.nodes@[self.idx as int].lives_in(s1));
            assert(tape.nodes@[scalar.idx as int].lives_in(s1));
        }
        let x = self.tensor(tape);
        let y = scalar.tensor(tape);
        let ghost t1 = *tape;
        let data = x.zip_with(&mut tape.store, &y, add);
        proof {
            lemma_tape_grew(t1, *tape);
        }
        let ghost s2 = tape.store@;
        let v = Value::push(tape, data, Operation::Add, [self.idx, scalar.idx]);
        proof {
            lemma_grown_trans(old(tape).store@, s1, s2);
            lemma_grown_trans(old(tape).store@, s2, tape.store@);
        }
        assert(tape.nodes().take(n0.len() + 1int) == n1);
        v
    }

    /// Multiply by the scalar `other`, which is recorded as a leaf first; the
    /// value must be a matrix with one column.
    pub fn mul_f32<T: Copy, F: Fn(T, T, T) -> T>(
        &self,
        tape: &mut Tape<T>,
        other: T,
        mul_add: F,
    ) -> (v: Value)
        requires
            old(tape).wf(),
            self.idx < old(tape).nodes().len(),
            tensor_at(old(tape).nodes(), self.idx as int).is_matrix(),
            tensor_at(old(tape).nodes(), self.idx as int).dims[4] == 1,
            forall|c: T, a: T, b: T| #[trigger] mul_add.requires((c, a, b)),
        ensures
            final(tape).wf(),
            final(tape).zero() == old(tape).zero(),
            grown(old(tape).store@, final(tape).store@),
            v.idx == old(tape).nodes().len() + 1,
            extended_with_scalar(
                old(tape).nodes(),
                final(tape).nodes(),
                other,
                Operation::Mul,
                [self.idx, old(tape).nodes().len() as usize],
                old(tape).zero(),
            ),
            product(mul_add, old(tape).zero(), tensor_at(old(tape).nodes(), self.idx as int), scalar_model(other), tensor_at(final(tape).nodes(), v.idx as int)),
    {
        let ghost n0 = old(tape).nodes();
        let scalar = tape.scalar(other);
        let ghost n1 = tape.nodes();
        let ghost s1 = tape.store@;
        proof {
            assert(n1[self.idx as int] == n0[self.idx as int]);
            assert(tape.nodes@[self.idx as int].lives_in(s1));
            assert(tape.nodes@[scalar.idx as int].lives_in(s1));
            assert(tensor_at(n0, self.idx as int).dims[3] <= usize::MAX);
        }
        let x = self.tensor(tape);
        let y = scalar.tensor(tape);
        let zero = tape.zero_element();
        let ghost t1 = *tape;
        let data = x.matmul(&mut tape.store, &y, zero, mul_add);
        proof {
            lemma_tape_grew(t1, *tape);
        }
        let ghost s2 = tape.store@;
        let v = Value::push(tape, data, Operation::Mul, [self.idx, scalar.idx]);
        proof {
            lemma_grown_trans(old(tape).store@, s1, s2);
            lemma_grown_trans(old(tape).store@, s2, tape.store@);
        }
        assert(tape.nodes().take(n0.len() + 1int) == n1);
        v
    }

    /// Negate by multiplying with the scalar `neg_one`, which is recorded as a
    /// leaf first; the value must be a matrix with one column.
    pub fn neg<T: Copy, F: Fn(T, T, T) -> T>(
        &self,
        tape: &mut Tape<T>,
        neg_one: T,
        mul_add: F,
    ) -> (v: Value)
        requires
            old(tape).wf(),
            self.idx < old(tape).nodes().len(),
            tensor_at(old(tape).nodes(), self.idx as int).is_matrix(),
            tensor_at(old(tape).nodes(), self.idx as int).dims[4] == 1,
            forall|c: T, a: T, b: T| #[trigger] mul_add.requires((c, a, b)),
        ensures
            final(tape).wf(),
            final(tape).zero() == old(tape).zero(),
            grown(old(tape).store@, final(tape).store@),
            v.idx == old(tape).nodes().len() + 1,
            extended_with_scalar(
                old(tape).nodes(),
                final(tape).nodes(),
                neg_one,
                Operation::Mul,
                [self.idx, old(tape).nodes().len() as usize],
                old(tape).zero(),
            ),
            product(mul_add, old(tape).zero(), tensor_at(old(tape).nodes(), self.idx as int), scalar_model(neg_one), tensor_at(final(tape).nodes(), v.idx as int)),
    {
        let ghost n0 = old(tape).nodes();
        let neg_one = tape.scalar(neg_one);
        let ghost n1 = tape.nodes();
        let ghost s1 = tape.store@;
        proof {
            assert(n1[self.idx as int] == n0[self.idx as int]);
            assert(n1[neg_one.idx as int].wf());
            assert(tensor_at(n0, self.idx as int).dims[3] <= usize::MAX);
        }
        let v = self.mul(tape, &neg_one, mul_add);
        proof {
            lemma_grown_trans(old(tape).store@, s1, tape.store@);
        }
        assert(tape.nodes().take(n0.len() + 1int) == n1);
        v
    }

    /// Subtract the scalar `other`: the leaf recorded first holds `negate(other)`,
    /// which is then added; the value must hold a single element.
    pub fn sub_f32<T: Copy, N: Fn(T) -> T, F: Fn(T, T) -> T>(
        &self,
        tape: &mut Tape<T>,
        other: T,
        negate: N,
        add: F,
    ) -> (v: Value)
        requires
            old(tape).wf(),
            self.idx < old(tape).nodes().len(),
            tensor_at(old(tape).nodes(), self.idx as int).dims == seq![1usize, 1, 1, 1, 1],
            negate.requires((other,)),
            forall|x: T, y: T| #[trigger] add.requires((x, y)),
        ensures
            final(tape).wf(),
            final(tape).zero() == old(tape).zero(),
            grown(old(tape).store@, final(tape).store@),
            v.idx == old(tape).nodes().len() + 1,
            exists|neg: T| {
                &&& negate.ensures((other,), neg)
                &&& extended_with_scalar(
                    old(tape).nodes(),
                    final(tape).nodes(),
                    neg,
                    Operation::Add,
                    [self.idx, old(tape).nodes().len() as usize],
                    old(tape).zero(),
                )
                &&& zipped(add, tensor_at(old(tape).nodes(), self.idx as int), scalar_model(neg), tensor_at(final(tape).nodes(), v.idx as int))
            },
    {
        let neg = negate(other);
        self.add_f32(tape, neg, add)
    }

    /// Divide by the scalar `other`: the leaf recorded first holds
    /// `recip(other)`, which then multiplies the value; the value must be a
    /// matrix with one column.
    pub fn div_f32<T: Copy, R: Fn(T) -> T, F: Fn(T, T, T) -> T>(
        &self,
        tape: &mut Tape<T>,
        other: T,
        recip: R,
        mul_add: F,
    ) -> (v: Value)
        requires
            old(tape).wf(),
            self.idx < old(tape).nodes().len(),
            tensor_at(old(tape).nodes(), self.idx as int).is_matrix(),
            tensor_at(old(tape).nodes(), self.idx as int).dims[4] == 1,
            recip.requires((other,)),
            forall|c: T, a: T, b: T| #[trigger] mul_add.requires((c, a, b)),
        ensures
            final(tape).wf(),
            final(tape).zero() == old(tape).zero(),
            grown(old(tape).store@, final(tape).store@),
            v.idx == old(tape).nodes().len() + 1,
            exists|inv: T| {
                &&& recip.ensures((other,), inv)
                &&& extended_with_scalar(
                    old(tape).nodes(),
                    final(tape).nodes(),
                    inv,
                    Operation::Mul,
                    [self.idx, old(tape).nodes().len() as usize],
                    old(tape).zero(),
                )
                &&& product(mul_add, old(tape).zero(), tensor_at(old(tape).nodes(), self.idx as int), scalar_model(inv), tensor_at(final(tape).nodes(), v.idx as int))
            },
    {
        let inv = recip(other);
        self.mul_f32(tape, inv, mul_add)
    }

    /// Subtract `other` by adding its negation: `other` is multiplied by a leaf
    /// holding `neg_one`, and the product is added to the value.
    pub fn sub<T: Copy, M: Fn(T, T, T) -> T, F: Fn(T, T) -> T>(
        &self,
        tape: &mut Tape<T>,
        other: &Value,
        neg_one: T,
        mul_add: M,
        add: F,
    ) -> (v: Value)
        requires
            old(tape).wf(),
            self.idx < old(tape).nodes().len(),
            other.idx < old(tape).nodes().len(),
            tensor_at(old(tape).nodes(), other.idx as int).is_matrix(),
            tensor_at(old(tape).nodes(), other.idx as int).dims[4] == 1,
            tensor_at(old(tape).nodes(), self.idx as int).dims == seq![1usize, 1, 1, tensor_at(old(tape).nodes(), other.idx as int).dims[3], 1],
            forall|c: T, a: T, b: T| #[trigger] mul_add.requires((c, a, b)),
            forall|x: T, y: T| #[trigger] add.requires((x, y)),
        ensures
            final(tape).wf(),
            final(tape).zero() == old(tape).zero(),
            grown(old(tape).store@, final(tape).store@),
            v.idx == old(tape).nodes().len() + 2,
            final(tape).nodes().len() == old(tape).nodes().len() + 3,
            extended_with_scalar(
                old(tape).nodes(),
                final(tape).nodes().take(old(tape).nodes().len() + 2int),
                neg_one,
                Operation::Mul,
                [other.idx, old(tape).nodes().len() as usize],
                old(tape).zero(),
            ),
            product(mul_add, old(tape).zero(), tensor_at(old(tape).nodes(), other.idx as int), scalar_model(neg_one), tensor_at(final(tape).nodes(), old(tape).nodes().len() + 1int)),
            extended(final(tape).nodes().take(old(tape).nodes().len() + 2int), final(tape).nodes(), Operation::Add, [self.idx, (old(tape).nodes().len() + 1int) as usize], old(tape).zero()),
            zipped(add, tensor_at(old(tape).nodes(), self.idx as int), tensor_at(final(tape).nodes(), old(tape).nodes().len() + 1int), tensor_at(final(tape).nodes(), v.idx as int)),
    {
        let ghost n0 = old(tape).nodes();
        let negated = other.neg(tape, neg_one, mul_add);
        let ghost n2 = tape.nodes();
        proof {
            assert(n2.take(n0.len() as int) == n0) by {
                assert(n2.take(n0.len() + 1int).take(n0.len() as int) =~= n2.take(n0.len() as int));
            }
            assert(n2[self.idx as int] == n0[self.idx as int]) by {
                assert(n2.take(n0.len() as int)[self.idx as int] == n2[self.idx as int]);
            }
            assert(n2[negated.idx as int].wf());
            lemma_fit_matrix_column(tensor_at(n2, negated.idx as int));
        }
        let ghost sm = tape.store@;
        let v = self.add(tape, &negated, add);
        proof {
            lemma_grown_trans(old(tape).store@, sm, tape.store@);
        }
        assert(tape.nodes().take(n0.len() + 2int) == n2);
        v
    }

    /// Divide by `other`: `other` is raised to the power `neg_one` by `pow`,
    /// then the value is multiplied by that power.
    pub fn div<T: Copy, P: Fn(T, T) -> T + Copy, M: Fn(T, T, T) -> T>(
        &self,
        tape: &mut Tape<T>,
        other: &Value,
        neg_one: T,
        pow: P,
        mul_add: M,
    ) -> (v: Value)
        requires
            old(tape).wf(),
            self.idx < old(tape).nodes().len(),
            other.idx < old(tape).nodes().len(),
            suffix_products_fit(tensor_at(old(tape).nodes(), other.idx as int).dims),
            tensor_at(old(tape).nodes(), self.idx as int).is_matrix(),
            tensor_at(old(tape).nodes(), other.idx as int).is_matrix(),
            tensor_at(old(tape).nodes(), self.idx as int).dims[4] == tensor_at(old(tape).nodes(), other.idx as int).dims[3],
            tensor_at(old(tape).nodes(), self.idx as int).dims[3] * tensor_at(old(tape).nodes(), other.idx as int).dims[4] <= usize::MAX,
            forall|x: T| #[trigger] pow.requires((x, neg_one)),
            forall|c: T, a: T, b: T| #[trigger] mul_add.requires((c, a, b)),
        ensures
            final(tape).wf(),
            final(tape).zero() == old(tape).zero(),
            grown(old(tape).store@, final(tape).store@),
            v.idx == old(tape).nodes().len() + 1,
            final(tape).nodes().len() == old(tape).nodes().len() + 2,
            extended(old(tape).nodes(), final(tape).nodes().take(old(tape).nodes().len() + 1int), Operation::Pow(neg_one), [other.idx, 0], old(tape).zero()),
            powered(pow, neg_one, tensor_at(old(tape).nodes(), other.idx as int), tensor_at(final(tape).nodes(), old(tape).nodes().len() as int)),
            extended(final(tape).nodes().take(old(tape).nodes().len() + 1int), final(tape).nodes(), Operation::Mul, [self.idx, old(tape).nodes().len() as usize], old(tape).zero()),
            product(mul_add, old(tape).zero(), tensor_at(old(tape).nodes(), self.idx as int), tensor_at(final(tape).nodes(), old(tape).nodes().len() as int), tensor_at(final(tape).nodes(), v.idx as int)),
    {
        let ghost n0 = old(tape).nodes();
        let inverse = other.pow(tape, neg_one, pow);
        let ghost n1 = tape.nodes();
        proof {
            assert(n1[self.idx as int] == n0[self.idx as int]) by {
                assert(n1.take(n0.len() as int)[self.idx as int] == n1[self.idx as int]);
            }
        }
        let ghost sm = tape.store@;
        let v = self.mul(tape, &inverse, mul_add);
        proof {
            lemma_grown_trans(old(tape).store@, sm, tape.store@);
        }
        assert(tape.nodes().take(n0.len() + 1int) == n1);
        v
    }
}

/// A matrix-shaped tensor with one column has dims whose suffix products fit.
proof fn lemma_fit_matrix_column<T>(m: TensorModel<T>)
    requires
        m.wf(),
        m.dims == seq![1usize, 1, 1, m.dims[3], 1],
    ensures
        suffix_products_fit(m.dims),
{
    let d = m.dims;
    assert(crate::types::shape::prod_from(d, 5) == 1);
    assert(crate::types::shape::prod_from(d, 4) == 1);
    let p4 = crate::types::shape::prod_from(d, 4);
    assert(crate::types::shape::prod_from(d, 3) == d[3] * p4);
    assert(d[3] * p4 == d[3]) by (nonlinear_arith)
        requires
            p4 == 1,
    ;
    assert(crate::types::shape::prod_from(d, 2) == d[3]);
    assert(crate::types::shape::prod_from(d, 1) == d[3]);
    assert(crate::types::shape::prod_from(d, 0) == d[3]);
}

} // verus!
