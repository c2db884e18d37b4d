//! The computation tape: every value computed in a forward pass is a node
//! holding its tensor, its accumulated gradient, the operation that produced
//! it and the indices of its operands.

use vstd::prelude::*;

use crate::types::shape::{contiguous_strides, suffix_products_fit};
use crate::types::node::{Node, NodeModel, Operation};
use crate::types::tensor::{grown, lemma_grown_trans, scalar_model, Store, Tensor, TensorModel};
use crate::types::value::Value;

verus! {

/// `g` is a row-major tensor of the same shape as `t`, filled with `x`.
pub open spec fn filled_like<T>(g: TensorModel<T>, t: TensorModel<T>, x: T) -> bool {
    &&& g.wf()
    &&& g.dims == t.dims
    &&& g.strides == contiguous_strides(t.dims)
    &&& g.ndim == t.ndim
    &&& forall|k: int| 0 <= k < g.data.len() ==> #[trigger] g.data[k] == x
}

/// The tape of a forward pass: the nodes, the element that fresh gradients
/// are filled with, and the store that holds the buffers of their tensors.
pub struct Tape<T> {
    pub nodes: Vec<Node<T>>,
    pub zero: T,
    pub store: Store<T>,
}

/// The nodes `nodes` read over the buffers `s`.
pub open spec fn models<T>(nodes: Seq<Node<T>>, s: Seq<Seq<T>>) -> Seq<NodeModel<T>> {
    Seq::new(nodes.len(), |i: int| nodes[i].model(s))
}

/// Buffers added to a store leave the nodes over it as they were.
pub proof fn lemma_store_grew<T>(nodes: Seq<Node<T>>, s1: Seq<Seq<T>>, s2: Seq<Seq<T>>)
    requires
        s2.len() >= s1.len(),
        forall|i: int| 0 <= i < s1.len() ==> #[trigger] s2[i] == s1[i],
        forall|j: int| 0 <= j < nodes.len() ==> #[trigger] nodes[j].lives_in(s1),
    ensures
        models(nodes, s2) == models(nodes, s1),
        forall|j: int| 0 <= j < nodes.len() ==> #[trigger] nodes[j].lives_in(s2),
{
    assert forall|j: int| 0 <= j < nodes.len() implies #[trigger] models(nodes, s2)[j] == models(nodes, s1)[j] by {
        assert(nodes[j].lives_in(s1));
        assert(s2[nodes[j].tensor@.id as int] == s1[nodes[j].tensor@.id as int]);
        assert(s2[nodes[j].grad@.id as int] == s1[nodes[j].grad@.id as int]);
    }
    assert(models(nodes, s2) =~= models(nodes, s1));
    assert forall|j: int| 0 <= j < nodes.len() implies #[trigger] nodes[j].lives_in(s2) by {
        assert(nodes[j].lives_in(s1));
    }
}

/// Adding buffers to the store of a well formed tape keeps it well formed
/// and leaves its nodes as they were.
pub proof fn lemma_tape_grew<T>(before: Tape<T>, after: Tape<T>)
    requires
        before.wf(),
        after.nodes@ == before.nodes@,
        grown(before.store@, after.store@),
    ensures
        after.wf(),
        after.nodes() == before.nodes(),
{
    lemma_store_grew(before.nodes@, before.store@, after.store@);
    assert forall|i: int| 0 <= i < after.nodes@.len() implies #[trigger] after.nodes@[i].lives_in(after.store@)
        && after.nodes@[i].model(after.store@).wf() by {
        assert(before.nodes@[i].lives_in(before.store@));
        assert(models(before.nodes@, after.store@)[i] == models(before.nodes@, before.store@)[i]);
    }
}

impl<T> Tape<T> {
    /// The nodes, in the order they were recorded, read over the store.
    pub open spec fn nodes(&self) -> Seq<NodeModel<T>> {
        models(self.nodes@, self.store@)
    }

    /// The element that fresh gradients are filled with.
    pub open spec fn zero(&self) -> T {
        self.zero
    }

    /// Every node lives in the store and holds well formed tensors.
    pub open spec fn wf(&self) -> bool {
        forall|i: int|
            0 <= i < self.nodes@.len() ==> #[trigger] self.nodes@[i].lives_in(self.store@)
                && self.nodes@[i].model(self.store@).wf()
    }

    /// An empty tape whose gradients start out as `zero`.
    pub fn new(zero: T) -> (t: Self)
        ensures
            t.nodes() == Seq::<NodeModel<T>>::empty(),
            t.store@ == Seq::<Seq<T>>::empty(),
            t.zero() == zero,
            t.wf(),
    {
        let t = Self { nodes: Vec::new(), zero, store: Store::new() };
        assert(t.nodes() =~= Seq::<NodeModel<T>>::empty());
        t
    }

    /// The number of nodes recorded so far.
    pub fn index(&self) -> (n: usize)
        ensures
            n == self.nodes().len(),
    {
        self.nodes.len()
    }

    /// Forget every node from `idx` on.
    pub fn truncate(&mut self, idx: usize)
        requires
            old(self).wf(),
        ensures
            final(self).wf(),
            final(self).zero() == old(self).zero(),
            final(self).store@ == old(self).store@,
            final(self).nodes() == (if idx < old(self).nodes().len() {
                old(self).nodes().take(idx as int)
            } else {
                old(self).nodes()
            }),
    {
        self.nodes.truncate(idx);
        proof {
            if idx < old(self).nodes().len() {
                assert(self.nodes() =~= old(self).nodes().take(idx as int));
            } else {
                assert(self.nodes() =~= old(self).nodes());
            }
            assert forall|i: int| 0 <= i < self.nodes@.len() implies #[trigger] self.nodes@[i].lives_in(self.store@)
                && self.nodes@[i].model(self.store@).wf() by {
                assert(self.nodes@[i] == old(self).nodes@[i]);
            }
        }
    }

    /// The node at `i`.
    pub fn node(&self, i: usize) -> (n: &Node<T>)
        requires
            i < self.nodes().len(),
        ensures
            *n == self.nodes@[i as int],
            n.model(self.store@) == self.nodes()[i as int],
    {
        &self.nodes[i]
    }
}

/// `new` is `old` with one more node at the end, holding `tensor`, `op` and
/// `deps`, and a gradient of `zero`s shaped like `tensor`.
pub open spec fn pushed<T>(
    old: Seq<NodeModel<T>>,
    new: Seq<NodeModel<T>>,
    tensor: TensorModel<T>,
    op: Operation<T>,
    deps: [usize; 2],
    zero: T,
) -> bool {
    &&& new.len() == old.len() + 1
    &&& new.take(old.len() as int) == old
    &&& new[old.len() as int].tensor == tensor
    &&& new[old.len() as int].op == op
    &&& new[old.len() as int].deps == deps
    &&& filled_like(new[old.len() as int].grad, tensor, zero)
}

/// `new` is `old` with one more node computed by `op` from `deps`, with a
/// gradient of `zero`s.
pub open spec fn extended<T>(
    old: Seq<NodeModel<T>>,
    new: Seq<NodeModel<T>>,
    op: Operation<T>,
    deps: [usize; 2],
    zero: T,
) -> bool {
    pushed(old, new, new[old.len() as int].tensor, op, deps, zero)
}

/// Every node was computed from nodes recorded before it, so walking the
/// tape backwards visits a node only after every node computed from it.
pub open spec fn in_order<T>(nodes: Seq<NodeModel<T>>) -> bool {
    forall|i: int|
        0 <= i < nodes.len() && !(#[trigger] nodes[i]).op.is_leaf() ==> nodes[i].deps[0] < i
            && nodes[i].deps[1] < i
}

/// Recording a leaf, or a node computed from nodes already on the tape, keeps
/// the tape in order.
pub proof fn lemma_pushed_keeps_order<T>(
    old: Seq<NodeModel<T>>,
    new: Seq<NodeModel<T>>,
    tensor: TensorModel<T>,
    op: Operation<T>,
    deps: [usize; 2],
    zero: T,
)
    requires
        in_order(old),
        pushed(old, new, tensor, op, deps, zero),
        op.is_leaf() || (deps[0] < old.len() && deps[1] < old.len()),
    ensures
        in_order(new),
{
    assert forall|i: int|
        0 <= i < new.len() && !(#[trigger] new[i]).op.is_leaf() implies new[i].deps[0] < i
            && new[i].deps[1] < i by {
        if i < old.len() {
            assert(new[i] == new.take(old.len() as int)[i]);
        }
    }
}

/// `after` records the same operations on the same operands as `before`.
pub open spec fn same_graph<T>(before: Seq<NodeModel<T>>, after: Seq<NodeModel<T>>) -> bool {
    &&& after.len() == before.len()
    &&& forall|j: int|
        0 <= j < before.len() ==> (#[trigger] after[j]).op == before[j].op && after[j].deps
            == before[j].deps
}

/// Changing tensors or gradients without changing the operations keeps the
/// tape in order.
pub proof fn lemma_same_graph_keeps_order<T>(before: Seq<NodeModel<T>>, after: Seq<NodeModel<T>>)
    requires
        in_order(before),
        same_graph(before, after),
    ensures
        in_order(after),
{
    assert forall|i: int|
        0 <= i < after.len() && !(#[trigger] after[i]).op.is_leaf() implies after[i].deps[0] < i
            && after[i].deps[1] < i by {
        assert(!before[i].op.is_leaf());
    }
}

/// Forgetting the nodes from some index on keeps the tape in order.
pub proof fn lemma_truncated_keeps_order<T>(nodes: Seq<NodeModel<T>>, idx: int)
    requires
        in_order(nodes),
        0 <= idx <= nodes.len(),
    ensures
        in_order(nodes.take(idx)),
{
    assert forall|i: int|
        0 <= i < nodes.take(idx).len() && !(#[trigger] nodes.take(idx)[i]).op.is_leaf() implies nodes.take(idx)[i].deps[0] < i
            && nodes.take(idx)[i].deps[1] < i by {
        assert(nodes.take(idx)[i] == nodes[i]);
    }
}

impl<T: Copy> Tape<T> {
    /// Record `node` at the end of the tape.
    pub(crate) fn push_node(&mut self, node: Node<T>)
        requires
            old(self).wf(),
            node.lives_in(old(self).store@),
            node.model(old(self).store@).wf(),
        ensures
            final(self).wf(),
            final(self).zero() == old(self).zero(),
            final(self).store@ == old(self).store@,
            final(self).nodes@ == old(self).nodes@.push(node),
            final(self).nodes() == old(self).nodes().push(node.model(old(self).store@)),
    {
        self.nodes.push(node);
        assert(self.nodes() =~= old(self).nodes().push(node.model(old(self).store@)));
        assert forall|i: int| 0 <= i < self.nodes@.len() implies #[trigger] self.nodes@[i].lives_in(self.store@)
            && self.nodes@[i].model(self.store@).wf() by {
            if i < old(self).nodes@.len() {
                assert(self.nodes@[i] == old(self).nodes@[i]);
                assert(old(self).nodes@[i].lives_in(old(self).store@));
            }
        }
    }

    /// Replace the node at `i`.
    pub(crate) fn set_node(&mut self, i: usize, node: Node<T>)
        requires
            old(self).wf(),
            i < old(self).nodes().len(),
            node.lives_in(old(self).store@),
            node.model(old(self).store@).wf(),
        ensures
            final(self).wf(),
            final(self).zero() == old(self).zero(),
            final(self).store@ == old(self).store@,
            final(self).nodes@ == old(self).nodes@.update(i as int, node),
            final(self).nodes() == old(self).nodes().update(i as int, node.model(old(self).store@)),
    {
        self.nodes.set(i, node);
        assert(self.nodes() =~= old(self).nodes().update(i as int, node.model(old(self).store@)));
        assert forall|j: int| 0 <= j < self.nodes@.len() implies #[trigger] self.nodes@[j].lives_in(self.store@)
            && self.nodes@[j].model(self.store@).wf() by {
            if j != i {
                assert(self.nodes@[j] == old(self).nodes@[j]);
                assert(old(self).nodes@[j].lives_in(old(self).store@));
            }
        }
    }

    /// The element that fresh gradients are filled with.
    pub fn zero_element(&self) -> (z: T)
        ensures
            z == self.zero(),
    {
        self.zero
    }

    /// Record a zero-dimensional leaf holding `x`, in a new buffer of the store.
    pub fn scalar(&mut self, x: T) -> (v: Value)
        requires
            old(self).wf(),
        ensures
            final(self).wf(),
            final(self).zero() == old(self).zero(),
            grown(old(self).store@, final(self).store@),
            v.idx == old(self).nodes().len(),
            pushed(old(self).nodes(), final(self).nodes(), scalar_model(x), Operation::Leaf, [0, 0], old(self).zero()),
    {
        let ghost t0 = *self;
        let t = Tensor::scalar(&mut self.store, x);
        proof {
            lemma_tape_grew(t0, *self);
        }
        let ghost s1 = self.store@;
        let v = self.value(t);
        proof {
            lemma_grown_trans(old(self).store@, s1, self.store@);
        }
        v
    }

    /// Record a leaf holding `tensor`, a tensor over the tape's store.
    pub fn value(&mut self, tensor: Tensor<T>) -> (v: Value)
        requires
            old(self).wf(),
            tensor.wf_in(old(self).store@),
            suffix_products_fit(tensor@.dims),
        ensures
            final(self).wf(),
            final(self).zero() == old(self).zero(),
            grown(old(self).store@, final(self).store@),
            v.idx == old(self).nodes().len(),
            pushed(old(self).nodes(), final(self).nodes(), tensor.model(old(self).store@), Operation::Leaf, [0, 0], old(self).zero()),
    {
        Value::push(self, tensor, Operation::Leaf, [0, 0])
    }
}

} // verus!
