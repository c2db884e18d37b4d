//! Fully connected layers with a `tanh` activation, and models that chain them.

use vstd::prelude::*;

use crate::autograd::zero_grad;
use crate::types::shape::{products_fit, same_dims, suffix_products_fit, MAX_DIMS};
use crate::types::node::{NodeModel, Operation};
use crate::types::tape::{extended, filled_like, Tape};
use crate::types::value::Value;
use crate::types::tensor::{grown, lemma_grown_trans, mapped, product, zipped, Tensor};
use crate::types::value::tensor_at;

verus! {

/// A layer computing `tanh(biases + weights * input)`.
pub struct Layer {
    pub biases: Value,
    pub weights: Value,
}

/// A chain of layers whose parameters are the first `param_idx` nodes of the tape.
pub struct Model {
    pub layers: Vec<Layer>,
    pub param_idx: usize,
}

/// The values that training adjusts.
pub trait Params {
    /// The parameters, in the order they were recorded.
    fn params(&self) -> Vec<Value>;
}

/// `layer` can be applied to an input of dims `d`: its weights are a matrix
/// whose columns match the rows of the input, and its biases have the dims of
/// the product.
pub open spec fn layer_accepts<T>(nodes: Seq<NodeModel<T>>, layer: Layer, d: Seq<usize>) -> bool {
    let w = tensor_at(nodes, layer.weights.idx as int).dims;
    let b = tensor_at(nodes, layer.biases.idx as int).dims;
    &&& layer.weights.idx < nodes.len()
    &&& layer.biases.idx < nodes.len()
    &&& w[0] == 1 && w[1] == 1 && w[2] == 1
    &&& d.len() == 5 && d[0] == 1 && d[1] == 1 && d[2] == 1
    &&& w[4] == d[3]
    &&& w[3] * d[4] <= usize::MAX
    &&& b == seq![1usize, 1, 1, w[3], d[4]]
    &&& suffix_products_fit(b)
}

/// The dims of the output of `layer` for an input of dims `d`.
pub open spec fn layer_out<T>(nodes: Seq<NodeModel<T>>, layer: Layer, d: Seq<usize>) -> Seq<usize> {
    seq![1usize, 1, 1, tensor_at(nodes, layer.weights.idx as int).dims[3], d[4]]
}

/// Nodes `base`, `base + 1` and `base + 2` record `layer` applied to node
/// `input`: the product of the weights with the input, the biases added to
/// it, and the `tanh` of the sum.
pub open spec fn layer_applied<T, A, MA, H>(
    add: A,
    mul_add: MA,
    tanh: H,
    zero: T,
    nodes: Seq<NodeModel<T>>,
    layer: Layer,
    input: int,
    base: int,
) -> bool where A: Fn(T, T) -> T, MA: Fn(T, T, T) -> T, H: Fn(T) -> T {
    &&& 0 <= input < base
    &&& base + 3 <= nodes.len()
    &&& layer.weights.idx < base
    &&& layer.biases.idx < base
    &&& nodes[base].op == Operation::<T>::Mul
    &&& nodes[base].deps == [layer.weights.idx, input as usize]
    &&& product(mul_add, zero, tensor_at(nodes, layer.weights.idx as int), tensor_at(nodes, input), tensor_at(nodes, base))
    &&& nodes[base + 1].op == Operation::<T>::Add
    &&& nodes[base + 1].deps == [layer.biases.idx, base as usize]
    &&& zipped(add, tensor_at(nodes, layer.biases.idx as int), tensor_at(nodes, base), tensor_at(nodes, base + 1))
    &&& nodes[base + 2].op == Operation::<T>::Tanh
    &&& nodes[base + 2].deps == [(base + 1) as usize, 0]
    &&& mapped(tanh, tensor_at(nodes, base + 1), tensor_at(nodes, base + 2))
    &&& filled_like(nodes[base].grad, tensor_at(nodes, base), zero)
    &&& filled_like(nodes[base + 1].grad, tensor_at(nodes, base + 1), zero)
    &&& filled_like(nodes[base + 2].grad, tensor_at(nodes, base + 2), zero)
}

/// The dims after the first `k` layers, for an input of dims `d`.
pub open spec fn dims_after<T>(nodes: Seq<NodeModel<T>>, layers: Seq<Layer>, k: int, d: Seq<usize>) -> Seq<usize>
    decreases k,
{
    if k <= 0 {
        d
    } else {
        layer_out(nodes, layers[k - 1], dims_after(nodes, layers, k - 1, d))
    }
}

/// Every layer accepts what the layers before it produce from dims `d`.
pub open spec fn forward_ready<T>(nodes: Seq<NodeModel<T>>, layers: Seq<Layer>, d: Seq<usize>) -> bool {
    forall|k: int| 0 <= k < layers.len() ==> #[trigger] layer_accepts(nodes, layers[k], dims_after(nodes, layers, k, d))
}

/// The node that layer `l` reads when a forward pass from node `input` starts
/// recording at `base`: the input for the first layer, the output of the
/// previous layer otherwise.
pub open spec fn layer_input(input: int, base: int, l: int) -> int {
    if l == 0 {
        input
    } else {
        base + 3 * l - 1
    }
}

/// What a layer accepts depends only on nodes that stay in place.
proof fn lemma_layer_prefix<T>(n0: Seq<NodeModel<T>>, n1: Seq<NodeModel<T>>, layer: Layer, d: Seq<usize>)
    requires
        n1.len() >= n0.len(),
        n1.take(n0.len() as int) == n0,
        layer.weights.idx < n0.len(),
        layer.biases.idx < n0.len(),
    ensures
        layer_accepts(n1, layer, d) == layer_accepts(n0, layer, d),
        layer_out(n1, layer, d) == layer_out(n0, layer, d),
{
    assert(n1.take(n0.len() as int)[layer.weights.idx as int] == n1[layer.weights.idx as int]);
    assert(n1.take(n0.len() as int)[layer.biases.idx as int] == n1[layer.biases.idx as int]);
}

proof fn lemma_dims_after_prefix<T>(n0: Seq<NodeModel<T>>, n1: Seq<NodeModel<T>>, layers: Seq<Layer>, k: int, d: Seq<usize>)
    requires
        n1.len() >= n0.len(),
        n1.take(n0.len() as int) == n0,
        k <= layers.len(),
        forall|l: int| 0 <= l < layers.len() ==> (#[trigger] layers[l]).weights.idx < n0.len() && layers[l].biases.idx < n0.len(),
    ensures
        dims_after(n1, layers, k, d) == dims_after(n0, layers, k, d),
    decreases k,
{
    if k > 0 {
        lemma_dims_after_prefix(n0, n1, layers, k - 1, d);
        lemma_layer_prefix(n0, n1, layers[k - 1], dims_after(n0, layers, k - 1, d));
    }
}

/// A recorded layer stays recorded as the tape grows.
proof fn lemma_layer_applied_prefix<T, A, MA, H>(
    add: A,
    mul_add: MA,
    tanh: H,
    zero: T,
    n0: Seq<NodeModel<T>>,
    n1: Seq<NodeModel<T>>,
    layer: Layer,
    input: int,
    base: int,
)
    where
        A: Fn(T, T) -> T,
        MA: Fn(T, T, T) -> T,
        H: Fn(T) -> T,
    requires
        n1.len() >= n0.len(),
        n1.take(n0.len() as int) == n0,
        layer_applied(add, mul_add, tanh, zero, n0, layer, input, base),
    ensures
        layer_applied(add, mul_add, tanh, zero, n1, layer, input, base),
{
    assert forall|j: int| 0 <= j < n0.len() implies n1[j] == n0[j] by {
        assert(n1.take(n0.len() as int)[j] == n1[j]);
    }
}

/// Whether `layer` accepts an input of dims `d`.
fn layer_accepts_dims<T>(tape: &Tape<T>, layer: &Layer, d: &[usize; MAX_DIMS]) -> (r: bool)
    ensures
        r == layer_accepts(tape.nodes(), *layer, d@),
{
    let len = tape.index();
    if !(layer.weights.idx < len && layer.biases.idx < len) {
        return false;
    }
    let w = tape.node(layer.weights.idx).tensor.dims();
    let b = tape.node(layer.biases.idx).tensor.dims();
    let out = [1, 1, 1, w[3], d[4]];
    assert(out@ =~= seq![1usize, 1, 1, w[3], d[4]]);
    w[0] == 1 && w[1] == 1 && w[2] == 1 && d[0] == 1 && d[1] == 1 && d[2] == 1 && w[4] == d[3]
        && w[3].checked_mul(d[4]).is_some() && same_dims(&b, &out) && products_fit(&b)
}

impl Model {
    /// Whether `forward` can run on `input`: every layer accepts what the
    /// layers before it produce.
    pub fn accepts<T>(&self, tape: &Tape<T>, input: Value) -> (r: bool)
        ensures
            r == (input.idx < tape.nodes().len() && forward_ready(
                tape.nodes(),
                self.layers@,
                tensor_at(tape.nodes(), input.idx as int).dims,
            )),
    {
        if input.idx >= tape.index() {
            return false;
        }
        let ghost nodes = tape.nodes();
        let ghost layers = self.layers@;
        let mut d = tape.node(input.idx).tensor.dims();
        let ghost d0 = d@;
        let mut l: usize = 0;
        while l < self.layers.len()
            invariant
                nodes == tape.nodes(),
                layers == self.layers@,
                input.idx < nodes.len(),
                d0 == tensor_at(nodes, input.idx as int).dims,
                l <= layers.len(),
                d@ == dims_after(nodes, layers, l as int, d0),
                forall|k: int| 0 <= k < l ==> #[trigger] layer_accepts(nodes, layers[k], dims_after(nodes, layers, k, d0)),
            decreases layers.len() - l,
        {
            let layer = &self.layers[l];
            if !layer_accepts_dims(tape, layer, &d) {
                assert(!layer_accepts(nodes, layers[l as int], dims_after(nodes, layers, l as int, d0)));
                return false;
            }
            let w = tape.node(layer.weights.idx).tensor.dims();
            let next = [1, 1, 1, w[3], d[4]];
            assert(next@ =~= layer_out(nodes, layers[l as int], d@));
            d = next;
            l += 1;
        }
        true
    }

    /// A model whose parameters are all the nodes recorded so far.
    pub fn new<T>(tape: &Tape<T>, layers: Vec<Layer>) -> (m: Self)
        ensures
            m.layers@ == layers@,
            m.param_idx == tape.nodes().len(),
    {
        // keep track which nodes in the tape belong to the model
        let param_idx = tape.index();
        Self { layers, param_idx }
    }

    /// Apply the layers in order to `input`.
    pub fn forward<T: Copy, A, MA, H>(&self, tape: &mut Tape<T>, input: Value, add: A, mul_add: MA, tanh: H) -> (out: Value)
        where
            A: Fn(T, T) -> T + Copy,
            MA: Fn(T, T, T) -> T + Copy,
            H: Fn(T) -> T + Copy,
        requires
            old(tape).wf(),
            input.idx < old(tape).nodes().len(),
            forall|l: int| 0 <= l < self.layers@.len() ==> (#[trigger] self.layers@[l]).weights.idx < old(tape).nodes().len()
                && self.layers@[l].biases.idx < old(tape).nodes().len(),
            forward_ready(old(tape).nodes(), self.layers@, tensor_at(old(tape).nodes(), input.idx as int).dims),
            forall|x: T, y: T| #[trigger] add.requires((x, y)),
            forall|c: T, x: T, y: T| #[trigger] mul_add.requires((c, x, y)),
            forall|x: T| #[trigger] tanh.requires((x,)),
        ensures
            final(tape).wf(),
            final(tape).zero() == old(tape).zero(),
            grown(old(tape).store@, final(tape).store@),
            final(tape).nodes().len() == old(tape).nodes().len() + 3 * self.layers@.len(),
            final(tape).nodes().take(old(tape).nodes().len() as int) == old(tape).nodes(),
            out.idx == layer_input(input.idx as int, old(tape).nodes().len() as int, self.layers@.len() as int),
            forall|l: int| 0 <= l < self.layers@.len() ==> #[trigger] layer_applied(
                add,
                mul_add,
                tanh,
                old(tape).zero(),
                final(tape).nodes(),
                self.layers@[l],
                layer_input(input.idx as int, old(tape).nodes().len() as int, l),
                old(tape).nodes().len() + 3 * l,
            ),
            tensor_at(final(tape).nodes(), out.idx as int).dims == dims_after(
                old(tape).nodes(),
                self.layers@,
                self.layers@.len() as int,
                tensor_at(old(tape).nodes(), input.idx as int).dims,
            ),
    {
        let ghost n0 = tape.nodes();
        let ghost d0 = tensor_at(n0, input.idx as int).dims;
        let mut output = input;
        let mut l: usize = 0;
        while l < self.layers.len()
            invariant
                tape.wf(),
                tape.zero() == old(tape).zero(),
                grown(old(tape).store@, tape.store@),
                n0 == old(tape).nodes(),
                d0 == tensor_at(n0, input.idx as int).dims,
                input.idx < n0.len(),
                l <= self.layers@.len(),
                tape.nodes().len() == n0.len() + 3 * l,
                tape.nodes().take(n0.len() as int) == n0,
                output.idx == layer_input(input.idx as int, n0.len() as int, l as int),
                tensor_at(tape.nodes(), output.idx as int).dims == dims_after(n0, self.layers@, l as int, d0),
                forall|k: int| 0 <= k < self.layers@.len() ==> (#[trigger] self.layers@[k]).weights.idx < n0.len()
                    && self.layers@[k].biases.idx < n0.len(),
                forward_ready(n0, self.layers@, d0),
                forall|k: int| 0 <= k < l ==> #[trigger] layer_applied(
                    add,
                    mul_add,
                    tanh,
                    old(tape).zero(),
                    tape.nodes(),
                    self.layers@[k],
                    layer_input(input.idx as int, n0.len() as int, k),
                    n0.len() + 3 * k,
                ),
                forall|x: T, y: T| #[trigger] add.requires((x, y)),
                forall|c: T, x: T, y: T| #[trigger] mul_add.requires((c, x, y)),
                forall|x: T| #[trigger] tanh.requires((x,)),
            decreases self.layers@.len() - l,
        {
            let ghost cur = tape.nodes();
            let layer = &self.layers[l];
            proof {
                assert(layer_accepts(n0, *layer, dims_after(n0, self.layers@, l as int, d0)));
                lemma_layer_prefix(n0, cur, *layer, dims_after(n0, self.layers@, l as int, d0));
            }
            let ghost sp = tape.store@;
            output = layer.forward(tape, &output, add, mul_add, tanh);
            proof {
                lemma_grown_trans(old(tape).store@, sp, tape.store@);
                let nxt = tape.nodes();
                assert(nxt.take(n0.len() as int) =~= n0) by {
                    assert forall|j: int| 0 <= j < n0.len() implies nxt[j] == n0[j] by {
                        assert(nxt.take(cur.len() as int)[j] == nxt[j]);
                        assert(cur.take(n0.len() as int)[j] == cur[j]);
                    }
                }
                assert forall|k: int| 0 <= k < l + 1 implies #[trigger] layer_applied(
                    add,
                    mul_add,
                    tanh,
                    old(tape).zero(),
                    nxt,
                    self.layers@[k],
                    layer_input(input.idx as int, n0.len() as int, k),
                    n0.len() + 3 * k,
                ) by {
                    if k < l {
                        lemma_layer_applied_prefix(add, mul_add, tanh, old(tape).zero(), cur, nxt, self.layers@[k],
                            layer_input(input.idx as int, n0.len() as int, k), n0.len() + 3 * k);
                    }
                }
                lemma_layer_prefix(n0, cur, *layer, dims_after(n0, self.layers@, l as int, d0));
            }
            l += 1;
        }
        output
    }

    /// Drop every node recorded after the parameters, and reset all gradients.
    pub fn truncate<T: Copy>(&self, tape: &mut Tape<T>)
        requires
            old(tape).wf(),
            forall|j: int|
                0 <= j < old(tape).nodes().len() && j < self.param_idx ==> suffix_products_fit(
                    #[trigger] old(tape).nodes()[j].tensor.dims,
                ),
        ensures
            final(tape).wf(),
            final(tape).zero() == old(tape).zero(),
            grown(old(tape).store@, final(tape).store@),
            final(tape).nodes().len() == (if self.param_idx < old(tape).nodes().len() {
                self.param_idx as int
            } else {
                old(tape).nodes().len() as int
            }),
            forall|j: int|
                0 <= j < final(tape).nodes().len() ==> {
                    &&& (#[trigger] final(tape).nodes()[j]).tensor == old(tape).nodes()[j].tensor
                    &&& final(tape).nodes()[j].op == old(tape).nodes()[j].op
                    &&& final(tape).nodes()[j].deps == old(tape).nodes()[j].deps
                    &&& filled_like(final(tape).nodes()[j].grad, old(tape).nodes()[j].tensor, old(tape).zero())
                },
    {
        tape.truncate(self.param_idx);
        zero_grad(tape);
    }
}

/// The parameters of `layers`, layer by layer: biases, then weights.
pub open spec fn layers_params(layers: Seq<Layer>) -> Seq<Value>
    decreases layers.len(),
{
    if layers.len() == 0 {
        Seq::empty()
    } else {
        layers_params(layers.drop_last()) + seq![layers.last().biases, layers.last().weights]
    }
}

impl Params for Layer {
    fn params(&self) -> (p: Vec<Value>)
        ensures
            p@ == seq![self.biases, self.weights],
    {
        let mut p = Vec::new();
        p.push(self.biases);
        p.push(self.weights);
        p
    }
}

impl Params for Model {
    fn params(&self) -> (p: Vec<Value>)
        ensures
            p@ == layers_params(self.layers@),
    {
        let mut p: Vec<Value> = Vec::new();
        let mut l: usize = 0;
        while l < self.layers.len()
            invariant
                l <= self.layers@.len(),
                p@ == layers_params(self.layers@.take(l as int)),
            decreases self.layers@.len() - l,
        {
            let mut lp = self.layers[l].params();
            proof {
                assert(self.layers@.take(l + 1int).drop_last() =~= self.layers@.take(l as int));
            }
            p.append(&mut lp);
            l += 1;
        }
        assert(self.layers@.take(self.layers@.len() as int) =~= self.layers@);
        p
    }
}

impl Layer {
    /// Record the biases, then the weights, as leaves of the tape; the biases
    /// are an `n_out` by 1 matrix and the weights an `n_out` by `n_in` matrix.
    pub fn new<T: Copy>(
        tape: &mut Tape<T>,
        n_out: usize,
        n_in: usize,
        biases: Tensor<T>,
        weights: Tensor<T>,
    ) -> (l: Self)
        requires
            old(tape).wf(),
            biases.wf_in(old(tape).store@),
            weights.wf_in(old(tape).store@),
            biases@.shape() == seq![n_out, 1usize],
            weights@.shape() == seq![n_out, n_in],
            suffix_products_fit(biases@.dims),
            suffix_products_fit(weights@.dims),
        ensures
            final(tape).wf(),
            final(tape).zero() == old(tape).zero(),
            grown(old(tape).store@, final(tape).store@),
            final(tape).nodes().len() == old(tape).nodes().len() + 2,
            l.biases.idx == old(tape).nodes().len(),
            l.weights.idx == old(tape).nodes().len() + 1,
            extended(old(tape).nodes(), final(tape).nodes().take(old(tape).nodes().len() + 1int), Operation::Leaf, [0, 0], old(tape).zero()),
            final(tape).nodes()[l.biases.idx as int].tensor == biases.model(old(tape).store@),
            extended(final(tape).nodes().take(old(tape).nodes().len() + 1int), final(tape).nodes(), Operation::Leaf, [0, 0], old(tape).zero()),
            final(tape).nodes()[l.weights.idx as int].tensor == weights.model(old(tape).store@),
    {
        let ghost n0 = tape.nodes();
        let ghost s0 = tape.store@;
        let biases = tape.value(biases);
        let ghost n1 = tape.nodes();
        let ghost s1 = tape.store@;
        assert(weights.model(s1) == weights.model(s0));
        let weights = tape.value(weights);
        proof {
            lemma_grown_trans(s0, s1, tape.store@);
        }
        assert(tape.nodes().take(n0.len() + 1int) == n1);
        Self { biases, weights }
    }

    /// `tanh(biases + weights * input)`, recorded as a product, a sum and a `tanh`.
    pub fn forward<T: Copy, A, MA, H>(&self, tape: &mut Tape<T>, input: &Value, add: A, mul_add: MA, tanh: H) -> (out: Value)
        where
            A: Fn(T, T) -> T,
            MA: Fn(T, T, T) -> T,
            H: Fn(T) -> T,
        requires
            old(tape).wf(),
            input.idx < old(tape).nodes().len(),
            layer_accepts(old(tape).nodes(), *self, tensor_at(old(tape).nodes(), input.idx as int).dims),
            forall|x: T, y: T| #[trigger] add.requires((x, y)),
            forall|c: T, x: T, y: T| #[trigger] mul_add.requires((c, x, y)),
            forall|x: T| #[trigger] tanh.requires((x,)),
        ensures
            final(tape).wf(),
            final(tape).zero() == old(tape).zero(),
            grown(old(tape).store@, final(tape).store@),
            final(tape).nodes().len() == old(tape).nodes().len() + 3,
            final(tape).nodes().take(old(tape).nodes().len() as int) == old(tape).nodes(),
            out.idx == old(tape).nodes().len() + 2,
            layer_applied(add, mul_add, tanh, old(tape).zero(), final(tape).nodes(), *self, input.idx as int, old(tape).nodes().len() as int),
            tensor_at(final(tape).nodes(), out.idx as int).dims == layer_out(old(tape).nodes(), *self, tensor_at(old(tape).nodes(), input.idx as int).dims),
    {
        let ghost n0 = tape.nodes();
        let ghost s0 = tape.store@;
        let m = self.weights.mul(tape, input, mul_add);
        let ghost n1 = tape.nodes();
        let ghost s1 = tape.store@;
        proof {
            assert(n1[self.biases.idx as int] == n0[self.biases.idx as int]) by {
                assert(n1.take(n0.len() as int)[self.biases.idx as int] == n1[self.biases.idx as int]);
            }
            assert(n1[self.weights.idx as int] == n0[self.weights.idx as int]) by {
                assert(n1.take(n0.len() as int)[self.weights.idx as int] == n1[self.weights.idx as int]);
            }
            assert(n1[input.idx as int] == n0[input.idx as int]) by {
                assert(n1.take(n0.len() as int)[input.idx as int] == n1[input.idx as int]);
            }
        }
        let s = self.biases.add(tape, &m, add);
        let ghost n2 = tape.nodes();
        let ghost s2 = tape.store@;
        proof {
            assert(n2.take(n1.len() as int) == n1);
            assert(n2[m.idx as int] == n1[m.idx as int]) by {
                assert(n2.take(n1.len() as int)[m.idx as int] == n2[m.idx as int]);
            }
        }
        let out = s.tanh(tape, tanh);
        let ghost n3 = tape.nodes();
        proof {
            lemma_grown_trans(s0, s1, s2);
            lemma_grown_trans(s0, s2, tape.store@);
            assert(n3.take(n2.len() as int) == n2);
            assert forall|j: int| 0 <= j < n2.len() implies n3[j] == n2[j] by {
                assert(n3.take(n2.len() as int)[j] == n3[j]);
            }
            assert forall|j: int| 0 <= j < n1.len() implies n2[j] == n1[j] by {
                assert(n2.take(n1.len() as int)[j] == n2[j]);
            }
            assert forall|j: int| 0 <= j < n0.len() implies n1[j] == n0[j] by {
                assert(n1.take(n0.len() as int)[j] == n1[j]);
            }
            assert(n3.take(n0.len() as int) =~= n0);
        }
        out
    }
}

} // verus!
