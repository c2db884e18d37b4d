//! Reverse-mode differentiation over a tape: gradients flow from a root node
//! back to the operands of every node, from the last node to the first.

use vstd::prelude::*;

use crate::types::shape::{products_fit, same_dims, suffix_products_fit, swapped, MAX_DIMS};
use crate::types::node::{Node, NodeModel, Operation};
use crate::types::tape::{filled_like, lemma_tape_grew, same_graph, Tape};
use crate::types::value::Value;
use crate::types::tensor::{grown, lemma_grown_trans, product, transposed, zipped, Tensor, TensorModel};

verus! {

/// `r` is row-major and holds `f(e, a[k], b[k])` for the elements of `a` and `b`
/// in row-major order.
pub open spec fn zipped_with<T, F: Fn(T, T, T) -> T>(
    f: F,
    e: T,
    a: TensorModel<T>,
    b: TensorModel<T>,
    r: TensorModel<T>,
) -> bool {
    &&& r.wf()
    &&& r.dims == a.dims
    &&& r.strides == crate::types::shape::contiguous_strides(a.dims)
    &&& r.ndim == crate::types::tensor::max_ndim(a.ndim, b.ndim)
    &&& r.data.len() == a.numel()
    &&& forall|k: int|
        0 <= k < r.data.len() ==> #[trigger] f.ensures(
            (e, a.elements()[k], b.elements()[k]),
            r.data[k],
        )
}

/// `after` is `before` with `part` added by `add` to the gradient of node `c`.
pub open spec fn grad_added<T, F: Fn(T, T) -> T>(
    add: F,
    before: Seq<NodeModel<T>>,
    c: int,
    part: TensorModel<T>,
    after: Seq<NodeModel<T>>,
) -> bool {
    &&& 0 <= c < before.len()
    &&& after.len() == before.len()
    &&& forall|j: int| 0 <= j < before.len() && j != c ==> #[trigger] after[j] == before[j]
    &&& after[c].tensor == before[c].tensor
    &&& after[c].op == before[c].op
    &&& after[c].deps == before[c].deps
    &&& zipped(add, before[c].grad, part, after[c].grad)
}

/// The dims of the gradient node `j` holds once the gradient of `root` is seeded.
pub open spec fn grad_dims<T>(nodes: Seq<NodeModel<T>>, root: int, j: int) -> Seq<usize> {
    if j == root {
        nodes[j].tensor.dims
    } else {
        nodes[j].grad.dims
    }
}

/// Propagating the gradient of node `i` to its operands cannot fail: the
/// operands exist and all tensors involved have matching dims.
pub open spec fn step_ready<T>(nodes: Seq<NodeModel<T>>, root: int, i: int) -> bool {
    let n = nodes[i];
    let g = grad_dims(nodes, root, i);
    let a = n.deps[0] as int;
    let b = n.deps[1] as int;
    match n.op {
        Operation::Leaf => true,
        Operation::Add => {
            &&& a < nodes.len()
            &&& b < nodes.len()
            &&& grad_dims(nodes, root, a) == g
            &&& grad_dims(nodes, root, b) == g
            &&& suffix_products_fit(g)
        },
        Operation::Mul => {
            let da = nodes[a].tensor.dims;
            let db = nodes[b].tensor.dims;
            &&& a < nodes.len()
            &&& b < nodes.len()
            &&& g[0] == 1 && g[1] == 1 && g[2] == 1
            &&& da[0] == 1 && da[1] == 1 && da[2] == 1
            &&& db[0] == 1 && db[1] == 1 && db[2] == 1
            &&& g[4] == db[4]
            &&& g[3] == da[3]
            &&& g[3] * db[3] <= usize::MAX
            &&& da[4] * g[4] <= usize::MAX
            &&& grad_dims(nodes, root, a) == seq![1usize, 1, 1, g[3], db[3]]
            &&& grad_dims(nodes, root, b) == seq![1usize, 1, 1, da[4], g[4]]
        },
        Operation::Tanh | Operation::Exp => {
            &&& a < nodes.len()
            &&& n.tensor.dims == g
            &&& grad_dims(nodes, root, a) == g
            &&& suffix_products_fit(g)
        },
        Operation::Pow(_) => {
            &&& a < nodes.len()
            &&& nodes[a].tensor.dims == g
            &&& grad_dims(nodes, root, a) == g
            &&& suffix_products_fit(g)
        },
    }
}

/// A sum can propagate its gradient whenever its operands exist and their
/// gradients have the dims of its own, whose suffix products fit; this holds
/// in particular for a value added to itself, whose one operand is fed twice.
pub proof fn lemma_sum_ready<T>(nodes: Seq<NodeModel<T>>, root: int, i: int)
    requires
        0 <= i < nodes.len(),
        nodes[i].op == Operation::<T>::Add,
        nodes[i].deps[0] < nodes.len(),
        nodes[i].deps[1] < nodes.len(),
        grad_dims(nodes, root, nodes[i].deps[0] as int) == grad_dims(nodes, root, i),
        grad_dims(nodes, root, nodes[i].deps[1] as int) == grad_dims(nodes, root, i),
        suffix_products_fit(grad_dims(nodes, root, i)),
    ensures
        step_ready(nodes, root, i),
{
}

/// `after` is `before` once the gradient of node `i` has been propagated to
/// its operands.
pub open spec fn backward_step<T, A, M, MA, TG, PG>(
    add: A,
    mul: M,
    mul_add: MA,
    tanh_grad: TG,
    pow_grad: PG,
    zero: T,
    before: Seq<NodeModel<T>>,
    i: int,
    after: Seq<NodeModel<T>>,
) -> bool where
    A: Fn(T, T) -> T,
    M: Fn(T, T) -> T,
    MA: Fn(T, T, T) -> T,
    TG: Fn(T, T) -> T,
    PG: Fn(T, T, T) -> T,
 {
    let n = before[i];
    let g = n.grad;
    let a = n.deps[0] as int;
    let b = n.deps[1] as int;
    match n.op {
        Operation::Leaf => after == before,
        Operation::Add => exists|mid: Seq<NodeModel<T>>|
            #[trigger] grad_added(add, before, a, g, mid) && grad_added(add, mid, b, mid[i].grad, after),
        Operation::Mul => exists|ga: TensorModel<T>, gb: TensorModel<T>, mid: Seq<NodeModel<T>>|
            #![trigger grad_added(add, before, a, ga, mid), product(mul_add, zero, transposed(before[a].tensor), g, gb)]
            {
                &&& product(mul_add, zero, g, transposed(before[b].tensor), ga)
                &&& product(mul_add, zero, transposed(before[a].tensor), g, gb)
                &&& grad_added(add, before, a, ga, mid)
                &&& grad_added(add, mid, b, gb, after)
            },
        Operation::Tanh => exists|local: TensorModel<T>|
            #[trigger] zipped(tanh_grad, n.tensor, g, local) && grad_added(add, before, a, local, after),
        Operation::Pow(e) => exists|local: TensorModel<T>|
            #[trigger] zipped_with(pow_grad, e, before[a].tensor, g, local) && grad_added(add, before, a, local, after),
        Operation::Exp => exists|local: TensorModel<T>|
            #[trigger] zipped(mul, n.tensor, g, local) && grad_added(add, before, a, local, after),
    }
}

/// Gradients flowing back do not change the tensors, operations or operands
/// of the nodes, nor the dims of their gradients.
pub open spec fn same_layout<T>(before: Seq<NodeModel<T>>, after: Seq<NodeModel<T>>) -> bool {
    &&& after.len() == before.len()
    &&& forall|j: int|
        0 <= j < before.len() ==> {
            &&& (#[trigger] after[j]).tensor == before[j].tensor
            &&& after[j].op == before[j].op
            &&& after[j].deps == before[j].deps
            &&& after[j].grad.dims == before[j].grad.dims
            &&& (before[j].wf() ==> after[j].wf())
        }
}

proof fn lemma_grad_added_layout<T, F: Fn(T, T) -> T>(
    add: F,
    before: Seq<NodeModel<T>>,
    c: int,
    part: TensorModel<T>,
    after: Seq<NodeModel<T>>,
)
    requires
        grad_added(add, before, c, part, after),
    ensures
        same_layout(before, after),
{
}

proof fn lemma_same_layout_trans<T>(s1: Seq<NodeModel<T>>, s2: Seq<NodeModel<T>>, s3: Seq<NodeModel<T>>)
    requires
        same_layout(s1, s2),
        same_layout(s2, s3),
    ensures
        same_layout(s1, s3),
{
    assert forall|j: int| 0 <= j < s1.len() implies {
        &&& (#[trigger] s3[j]).tensor == s1[j].tensor
        &&& s3[j].op == s1[j].op
        &&& s3[j].deps == s1[j].deps
        &&& s3[j].grad.dims == s1[j].grad.dims
        &&& (s1[j].wf() ==> s3[j].wf())
    } by {
        assert(s2[j].tensor == s1[j].tensor);
    }
}

/// One step of back-propagation keeps the layout of the tape.
pub proof fn lemma_step_keeps_layout<T, A, M, MA, TG, PG>(
    add: A,
    mul: M,
    mul_add: MA,
    tanh_grad: TG,
    pow_grad: PG,
    zero: T,
    before: Seq<NodeModel<T>>,
    i: int,
    after: Seq<NodeModel<T>>,
)
    where
        A: Fn(T, T) -> T,
        M: Fn(T, T) -> T,
        MA: Fn(T, T, T) -> T,
        TG: Fn(T, T) -> T,
        PG: Fn(T, T, T) -> T,
    requires
        0 <= i < before.len(),
        backward_step(add, mul, mul_add, tanh_grad, pow_grad, zero, before, i, after),
    ensures
        same_layout(before, after),
{
    let n = before[i];
    let g = n.grad;
    let a = n.deps[0] as int;
    let b = n.deps[1] as int;
    match n.op {
        Operation::Leaf => {},
        Operation::Add => {
            let mid = choose|mid: Seq<NodeModel<T>>|
                #[trigger] grad_added(add, before, a, g, mid) && grad_added(add, mid, b, mid[i].grad, after);
            lemma_grad_added_layout(add, before, a, g, mid);
            lemma_grad_added_layout(add, mid, b, mid[i].grad, after);
            lemma_same_layout_trans(before, mid, after);
        },
        Operation::Mul => {
            let (ga, gb, mid) = choose|ga: TensorModel<T>, gb: TensorModel<T>, mid: Seq<NodeModel<T>>|
                #![trigger grad_added(add, before, a, ga, mid), product(mul_add, zero, transposed(before[a].tensor), g, gb)]
                {
                    &&& product(mul_add, zero, g, transposed(before[b].tensor), ga)
                    &&& product(mul_add, zero, transposed(before[a].tensor), g, gb)
                    &&& grad_added(add, before, a, ga, mid)
                    &&& grad_added(add, mid, b, gb, after)
                };
            lemma_grad_added_layout(add, before, a, ga, mid);
            lemma_grad_added_layout(add, mid, b, gb, after);
            lemma_same_layout_trans(before, mid, after);
        },
        Operation::Tanh => {
            let local = choose|local: TensorModel<T>|
                #[trigger] zipped(tanh_grad, n.tensor, g, local) && grad_added(add, before, a, local, after);
            lemma_grad_added_layout(add, before, a, local, after);
        },
        Operation::Pow(e) => {
            let local = choose|local: TensorModel<T>|
                #[trigger] zipped_with(pow_grad, e, before[a].tensor, g, local) && grad_added(add, before, a, local, after);
            lemma_grad_added_layout(add, before, a, local, after);
        },
        Operation::Exp => {
            let local = choose|local: TensorModel<T>|
                #[trigger] zipped(mul, n.tensor, g, local) && grad_added(add, before, a, local, after);
            lemma_grad_added_layout(add, before, a, local, after);
        },
    }
}

/// The gradient of `c` with `part` added to it.
fn add_to_grad<T: Copy, A: Fn(T, T) -> T + Copy>(tape: &mut Tape<T>, c: usize, part: &Tensor<T>, add: A)
    requires
        old(tape).wf(),
        c < old(tape).nodes().len(),
        part.wf_in(old(tape).store@),
        old(tape).nodes()[c as int].grad.dims == part@.dims,
        suffix_products_fit(part@.dims),
        forall|x: T, y: T| #[trigger] add.requires((x, y)),
    ensures
        final(tape).wf(),
        final(tape).zero() == old(tape).zero(),
        grown(old(tape).store@, final(tape).store@),
        grad_added(add, old(tape).nodes(), c as int, part.model(old(tape).store@), final(tape).nodes()),
{
    let child = Value { idx: c };
    proof {
        assert(old(tape).nodes@[c as int].lives_in(old(tape).store@));
    }
    let g = child.grad(tape);
    let ghost t0 = *tape;
    let sum = g.zip_with(&mut tape.store, part, add);
    proof {
        lemma_tape_grew(t0, *tape);
    }
    child.set_grad(tape, sum);
}

/// Propagate the gradient of node `i` to the gradients of its operands.
/// The scalar arithmetic is handed in: `add` and `mul` add and multiply two
/// elements, `mul_add(acc, a, b)` adds `a * b` to `acc`, `tanh_grad(t, g)` is
/// `(1 - t * t) * g`, and `pow_grad(e, x, g)` is `x^(e - 1) * e * g`.
pub fn backward_node<T: Copy, A, M, MA, TG, PG>(
    tape: &mut Tape<T>,
    i: usize,
    add: A,
    mul: M,
    mul_add: MA,
    tanh_grad: TG,
    pow_grad: PG,
)
    where
        A: Fn(T, T) -> T + Copy,
        M: Fn(T, T) -> T + Copy,
        MA: Fn(T, T, T) -> T + Copy,
        TG: Fn(T, T) -> T + Copy,
        PG: Fn(T, T, T) -> T + Copy,
    requires
        old(tape).wf(),
        i < old(tape).nodes().len(),
        step_ready(old(tape).nodes(), -1, i as int),
        forall|x: T, y: T| #[trigger] add.requires((x, y)),
        forall|x: T, y: T| #[trigger] mul.requires((x, y)),
        forall|c: T, x: T, y: T| #[trigger] mul_add.requires((c, x, y)),
        forall|x: T, y: T| #[trigger] tanh_grad.requires((x, y)),
        forall|e: T, x: T, y: T| #[trigger] pow_grad.requires((e, x, y)),
    ensures
        final(tape).wf(),
        final(tape).zero() == old(tape).zero(),
        grown(old(tape).store@, final(tape).store@),
        backward_step(add, mul, mul_add, tanh_grad, pow_grad, old(tape).zero(), old(tape).nodes(), i as int, final(tape).nodes()),
{
    let ghost before = tape.nodes();
    let ghost s0 = tape.store@;
    let node = tape.node(i);
    let op = node.op;
    let deps = node.deps;
    let me = Value { idx: i };
    proof {
        assert(tape.nodes@[i as int].lives_in(s0));
    }
    match op {
        Operation::Add => {
            let g = me.grad(tape);
            add_to_grad(tape, deps[0], &g, add);
            let ghost mid = tape.nodes();
            let ghost s1 = tape.store@;
            proof {
                assert(mid[i as int].grad.dims == before[i as int].grad.dims);
                assert(tape.nodes@[i as int].lives_in(s1));
            }
            let g = me.grad(tape);
            add_to_grad(tape, deps[1], &g, add);
            proof {
                let a = deps[0] as int;
                let b = deps[1] as int;
                lemma_grown_trans(s0, s1, tape.store@);
                assert(grad_added(add, before, a, before[i as int].grad, mid));
                assert(grad_added(add, mid, b, mid[i as int].grad, tape.nodes()));
            }
        },
        Operation::Mul => {
            let a = Value { idx: deps[0] };
            let b = Value { idx: deps[1] };
            proof {
                assert(tape.nodes@[deps[0] as int].lives_in(s0));
                assert(tape.nodes@[deps[1] as int].lives_in(s0));
            }
            let g = me.grad(tape);
            // out = a @ b, so da = grad @ b^T, db = a^T @ grad
            let bt = b.tensor(tape).transpose(-2, -1);
            let at = a.tensor(tape).transpose(-2, -1);
            proof {
                assert(bt.model(s0) == transposed(before[deps[1] as int].tensor));
                assert(at.model(s0) == transposed(before[deps[0] as int].tensor));
            }
            let zero = tape.zero_element();
            let ghost t0 = *tape;
            let grad_a = g.matmul(&mut tape.store, &bt, zero, mul_add);
            proof {
                lemma_tape_grew(t0, *tape);
            }
            let ghost s1 = tape.store@;
            let ghost t1 = *tape;
            let grad_b = at.matmul(&mut tape.store, &g, zero, mul_add);
            proof {
                lemma_tape_grew(t1, *tape);
                lemma_grown_trans(s0, s1, tape.store@);
            }
            let ghost s2 = tape.store@;
            let ghost ga = grad_a.model(s2);
            let ghost gb = grad_b.model(s2);
            proof {
                assert(grad_a.model(s2) == grad_a.model(s1));
            }
            add_to_grad(tape, deps[0], &grad_a, add);
            let ghost mid = tape.nodes();
            let ghost s3 = tape.store@;
            proof {
                assert(mid[deps[1] as int].grad.dims == before[deps[1] as int].grad.dims);
                assert(grad_b.model(s3) == gb);
            }
            add_to_grad(tape, deps[1], &grad_b, add);
            proof {
                lemma_grown_trans(s0, s2, s3);
                lemma_grown_trans(s0, s3, tape.store@);
                let ai = deps[0] as int;
                let bi = deps[1] as int;
                let gm = before[i as int].grad;
                assert(product(mul_add, tape.zero(), gm, transposed(before[bi].tensor), ga));
                assert(product(mul_add, tape.zero(), transposed(before[ai].tensor), gm, gb));
                assert(grad_added(add, before, ai, ga, mid));
                assert(grad_added(add, mid, bi, gb, tape.nodes()));
            }
        },
        Operation::Tanh => {
            let g = me.grad(tape);
            let t = me.tensor(tape);
            let ghost t0 = *tape;
            let local = t.zip_with(&mut tape.store, &g, tanh_grad);
            proof {
                lemma_tape_grew(t0, *tape);
            }
            let ghost s1 = tape.store@;
            let ghost lm = local.model(s1);
            add_to_grad(tape, deps[0], &local, add);
            proof {
                lemma_grown_trans(s0, s1, tape.store@);
                assert(zipped(tanh_grad, before[i as int].tensor, before[i as int].grad, lm));
                assert(grad_added(add, before, deps[0] as int, lm, tape.nodes()));
            }
        },
        Operation::Pow(e) => {
            let g = me.grad(tape);
            let x = Value { idx: deps[0] };
            proof {
                assert(tape.nodes@[deps[0] as int].lives_in(s0));
            }
            let f = |u: T, v: T| -> (r: T)
                requires
                    pow_grad.requires((e, u, v)),
                ensures
                    pow_grad.ensures((e, u, v), r),
                { pow_grad(e, u, v) };
            let xt = x.tensor(tape);
            let ghost t0 = *tape;
            let local = xt.zip_with(&mut tape.store, &g, f);
            proof {
                lemma_tape_grew(t0, *tape);
            }
            let ghost s1 = tape.store@;
            let ghost lm = local.model(s1);
            add_to_grad(tape, deps[0], &local, add);
            proof {
                lemma_grown_trans(s0, s1, tape.store@);
                let xm = before[deps[0] as int].tensor;
                let gm = before[i as int].grad;
                assert forall|k: int| 0 <= k < lm.data.len() implies #[trigger] pow_grad.ensures(
                    (e, xm.elements()[k], gm.elements()[k]),
                    lm.data[k],
                ) by {
                    assert(f.ensures((xm.elements()[k], gm.elements()[k]), lm.data[k]));
                }
                assert(zipped_with(pow_grad, e, xm, gm, lm));
                assert(grad_added(add, before, deps[0] as int, lm, tape.nodes()));
            }
        },
        Operation::Exp => {
            let g = me.grad(tape);
            let t = me.tensor(tape);
            let ghost t0 = *tape;
            let local = t.zip_with(&mut tape.store, &g, mul);
            proof {
                lemma_tape_grew(t0, *tape);
            }
            let ghost s1 = tape.store@;
            let ghost lm = local.model(s1);
            add_to_grad(tape, deps[0], &local, add);
            proof {
                lemma_grown_trans(s0, s1, tape.store@);
                assert(zipped(mul, before[i as int].tensor, before[i as int].grad, lm));
                assert(grad_added(add, before, deps[0] as int, lm, tape.nodes()));
            }
        },
        Operation::Leaf => {},
    }
}

/// The gradient of `root` is seeded with `one`s: `seeded` is `start` with the
/// gradient of `root` replaced by a tensor of `one`s shaped like its tensor.
pub open spec fn seeded<T>(start: Seq<NodeModel<T>>, seeded: Seq<NodeModel<T>>, root: int, one: T) -> bool {
    &&& 0 <= root < start.len()
    &&& seeded.len() == start.len()
    &&& forall|j: int| 0 <= j < start.len() && j != root ==> #[trigger] seeded[j] == start[j]
    &&& seeded[root].tensor == start[root].tensor
    &&& seeded[root].op == start[root].op
    &&& seeded[root].deps == start[root].deps
    &&& filled_like(seeded[root].grad, start[root].tensor, one)
}

/// In the sequence of tape states `states`, node `j` is processed going from
/// `states[j + 1]` to `states[j]`.
pub open spec fn step_at<T, A, M, MA, TG, PG>(
    add: A,
    mul: M,
    mul_add: MA,
    tanh_grad: TG,
    pow_grad: PG,
    zero: T,
    states: Seq<Seq<NodeModel<T>>>,
    j: int,
) -> bool where
    A: Fn(T, T) -> T,
    M: Fn(T, T) -> T,
    MA: Fn(T, T, T) -> T,
    TG: Fn(T, T) -> T,
    PG: Fn(T, T, T) -> T,
 {
    backward_step(add, mul, mul_add, tanh_grad, pow_grad, zero, states[j + 1], j, states[j])
}

/// `states` records a backward pass from `root` over the tape `start`: the
/// gradient of `root` is seeded with `one`s, then nodes `root`, `root - 1`,
/// ..., `0` propagate their gradients in turn, ending in `states[0]`.
pub open spec fn backward_run<T, A, M, MA, TG, PG>(
    add: A,
    mul: M,
    mul_add: MA,
    tanh_grad: TG,
    pow_grad: PG,
    zero: T,
    one: T,
    start: Seq<NodeModel<T>>,
    root: int,
    states: Seq<Seq<NodeModel<T>>>,
) -> bool where
    A: Fn(T, T) -> T,
    M: Fn(T, T) -> T,
    MA: Fn(T, T, T) -> T,
    TG: Fn(T, T) -> T,
    PG: Fn(T, T, T) -> T,
 {
    &&& states.len() == root + 2
    &&& seeded(start, states[root + 1], root, one)
    &&& forall|j: int|
        0 <= j <= root ==> #[trigger] step_at(add, mul, mul_add, tanh_grad, pow_grad, zero, states, j)
}

/// Readiness depends only on the layout of the tape.
proof fn lemma_ready_kept<T>(s1: Seq<NodeModel<T>>, s2: Seq<NodeModel<T>>, j: int)
    requires
        same_layout(s1, s2),
        0 <= j < s1.len(),
        step_ready(s1, -1, j),
    ensures
        step_ready(s2, -1, j),
{
    let n = s1[j];
    assert(s2[j].op == n.op && s2[j].deps == n.deps && s2[j].tensor == n.tensor);
    let a = n.deps[0] as int;
    let b = n.deps[1] as int;
    if a < s1.len() {
        assert(s2[a].tensor == s1[a].tensor);
    }
    if b < s1.len() {
        assert(s2[b].tensor == s1[b].tensor);
    }
}

/// Seeding the gradient of `root` makes the readiness measured against `root`
/// plain readiness.
proof fn lemma_ready_seeded<T>(start: Seq<NodeModel<T>>, s0: Seq<NodeModel<T>>, root: int, one: T, j: int)
    requires
        seeded(start, s0, root, one),
        0 <= j < start.len(),
        step_ready(start, root, j),
    ensures
        step_ready(s0, -1, j),
{
    assert forall|x: int| 0 <= x < start.len() implies grad_dims(start, root, x) == grad_dims(
        s0,
        -1,
        x,
    ) && #[trigger] s0[x].tensor == start[x].tensor by {
        if x != root {
            assert(s0[x] == start[x]);
        }
    }
    let n = start[j];
    let a = n.deps[0] as int;
    let b = n.deps[1] as int;
    if j != root {
        assert(s0[j] == start[j]);
    }
    if a < start.len() {
        assert(s0[a].tensor == start[a].tensor);
    }
    if b < start.len() {
        assert(s0[b].tensor == start[b].tensor);
    }
}

/// The dims of the gradient that node `j` holds once the gradient of `root` is seeded.
fn seeded_grad_dims<T>(tape: &Tape<T>, root: usize, j: usize) -> (d: [usize; MAX_DIMS])
    requires
        j < tape.nodes().len(),
    ensures
        d@ == grad_dims(tape.nodes(), root as int, j as int),
{
    let n = tape.node(j);
    if j == root {
        n.tensor.dims()
    } else {
        n.grad.dims()
    }
}

/// Whether node `i` can propagate its gradient once the gradient of `root` is seeded.
fn node_ready<T>(tape: &Tape<T>, root: usize, i: usize) -> (r: bool)
    requires
        i < tape.nodes().len(),
    ensures
        r == step_ready(tape.nodes(), root as int, i as int),
{
    let len = tape.index();
    let n = tape.node(i);
    let g = seeded_grad_dims(tape, root, i);
    let a = n.deps[0];
    let b = n.deps[1];
    match n.op {
        Operation::Leaf => true,
        Operation::Add => {
            a < len && b < len && same_dims(&seeded_grad_dims(tape, root, a), &g) && same_dims(
                &seeded_grad_dims(tape, root, b),
                &g,
            ) && products_fit(&g)
        },
        Operation::Mul => {
            if !(a < len && b < len) {
                return false;
            }
            let da = tape.node(a).tensor.dims();
            let db = tape.node(b).tensor.dims();
            let ga_dims = [1, 1, 1, g[3], db[3]];
            let gb_dims = [1, 1, 1, da[4], g[4]];
            assert(ga_dims@ =~= seq![1usize, 1, 1, g[3], db[3]]);
            assert(gb_dims@ =~= seq![1usize, 1, 1, da[4], g[4]]);
            g[0] == 1 && g[1] == 1 && g[2] == 1 && da[0] == 1 && da[1] == 1 && da[2] == 1 && db[0]
                == 1 && db[1] == 1 && db[2] == 1 && g[4] == db[4] && g[3] == da[3] && g[3].checked_mul(
                db[3],
            ).is_some() && da[4].checked_mul(g[4]).is_some() && same_dims(
                &seeded_grad_dims(tape, root, a),
                &ga_dims,
            ) && same_dims(&seeded_grad_dims(tape, root, b), &gb_dims)
        },
        Operation::Tanh => {
            a < len && same_dims(&n.tensor.dims(), &g) && same_dims(
                &seeded_grad_dims(tape, root, a),
                &g,
            ) && products_fit(&g)
        },
        Operation::Exp => {
            a < len && same_dims(&n.tensor.dims(), &g) && same_dims(
                &seeded_grad_dims(tape, root, a),
                &g,
            ) && products_fit(&g)
        },
        Operation::Pow(_) => {
            a < len && same_dims(&tape.node(a).tensor.dims(), &g) && same_dims(
                &seeded_grad_dims(tape, root, a),
                &g,
            ) && products_fit(&g)
        },
    }
}

/// Whether `backward` can run from `root`: `root` is a node of the tape whose
/// tensor's dims have suffix products that fit, and every node up to it can
/// propagate its gradient.
pub fn ready_for_backward<T>(tape: &Tape<T>, root: usize) -> (r: bool)
    ensures
        r == (root < tape.nodes().len() && suffix_products_fit(
            tape.nodes()[root as int].tensor.dims,
        ) && forall|j: int| 0 <= j <= root ==> #[trigger] step_ready(tape.nodes(), root as int, j)),
{
    if root >= tape.index() {
        return false;
    }
    if !products_fit(&tape.node(root).tensor.dims()) {
        return false;
    }
    let mut j: usize = 0;
    while j <= root
        invariant
            j <= root + 1,
            root < tape.nodes().len(),
            root < usize::MAX,
            forall|k: int| 0 <= k < j ==> #[trigger] step_ready(tape.nodes(), root as int, k),
        decreases root + 1 - j,
    {
        if !node_ready(tape, root, j) {
            return false;
        }
        j += 1;
    }
    true
}

/// Back-propagate from `root`: seed its gradient with `one`s, then propagate
/// the gradient of every node from `root` down to `0` to its operands.
pub fn backward<T: Copy, A, M, MA, TG, PG>(
    tape: &mut Tape<T>,
    root: usize,
    one: T,
    add: A,
    mul: M,
    mul_add: MA,
    tanh_grad: TG,
    pow_grad: PG,
)
    where
        A: Fn(T, T) -> T + Copy,
        M: Fn(T, T) -> T + Copy,
        MA: Fn(T, T, T) -> T + Copy,
        TG: Fn(T, T) -> T + Copy,
        PG: Fn(T, T, T) -> T + Copy,
    requires
        old(tape).wf(),
        root < old(tape).nodes().len(),
        suffix_products_fit(old(tape).nodes()[root as int].tensor.dims),
        forall|j: int| 0 <= j <= root ==> #[trigger] step_ready(old(tape).nodes(), root as int, j),
        forall|x: T, y: T| #[trigger] add.requires((x, y)),
        forall|x: T, y: T| #[trigger] mul.requires((x, y)),
        forall|c: T, x: T, y: T| #[trigger] mul_add.requires((c, x, y)),
        forall|x: T, y: T| #[trigger] tanh_grad.requires((x, y)),
        forall|e: T, x: T, y: T| #[trigger] pow_grad.requires((e, x, y)),
    ensures
        final(tape).wf(),
        final(tape).zero() == old(tape).zero(),
        grown(old(tape).store@, final(tape).store@),
        exists|states: Seq<Seq<NodeModel<T>>>|
            #[trigger] backward_run(add, mul, mul_add, tanh_grad, pow_grad, old(tape).zero(), one, old(tape).nodes(), root as int, states)
            && states[0] == final(tape).nodes(),
        same_graph(old(tape).nodes(), final(tape).nodes()),
        forall|j: int|
            0 <= j < old(tape).nodes().len() ==> (#[trigger] final(tape).nodes()[j]).tensor
                == old(tape).nodes()[j].tensor,
{
    let ghost start = tape.nodes();
    let len = tape.index();
    let r = Value { idx: root };
    proof {
        assert(tape.nodes@[root as int].lives_in(tape.store@));
    }
    let rt = r.tensor(tape);
    let ghost t0 = *tape;
    let ones = rt.ones_like(&mut tape.store, one);
    proof {
        lemma_tape_grew(t0, *tape);
    }
    r.set_grad(tape, ones);
    let ghost s0 = tape.nodes();
    proof {
        assert(seeded(start, s0, root as int, one));
        assert forall|j: int| 0 <= j <= root implies #[trigger] step_ready(s0, -1, j) by {
            lemma_ready_seeded(start, s0, root as int, one, j);
        }
        assert(same_layout(s0, s0));
    }
    let ghost mut states: Seq<Seq<NodeModel<T>>> = Seq::new((root + 2) as nat, |k: int| s0);
    let mut i: usize = root + 1;
    while i > 0
        invariant
            tape.wf(),
            tape.zero() == old(tape).zero(),
            grown(old(tape).store@, tape.store@),
            i <= root + 1,
            root < start.len(),
            start == old(tape).nodes(),
            states.len() == root + 2,
            states[root + 1] == s0,
            seeded(start, s0, root as int, one),
            states[i as int] == tape.nodes(),
            same_layout(s0, tape.nodes()),
            forall|j: int| 0 <= j <= root ==> #[trigger] step_ready(s0, -1, j),
            forall|j: int|
                i <= j <= root ==> #[trigger] step_at(
                    add,
                    mul,
                    mul_add,
                    tanh_grad,
                    pow_grad,
                    old(tape).zero(),
                    states,
                    j,
                ),
            forall|x: T, y: T| #[trigger] add.requires((x, y)),
            forall|x: T, y: T| #[trigger] mul.requires((x, y)),
            forall|c: T, x: T, y: T| #[trigger] mul_add.requires((c, x, y)),
            forall|x: T, y: T| #[trigger] tanh_grad.requires((x, y)),
            forall|e: T, x: T, y: T| #[trigger] pow_grad.requires((e, x, y)),
        decreases i,
    {
        i -= 1;
        let ghost prev = tape.nodes();
        proof {
            assert(step_ready(s0, -1, i as int));
            lemma_ready_kept(s0, prev, i as int);
        }
        let ghost sp = tape.store@;
        backward_node(tape, i, add, mul, mul_add, tanh_grad, pow_grad);
        proof {
            lemma_grown_trans(old(tape).store@, sp, tape.store@);
            lemma_step_keeps_layout(add, mul, mul_add, tanh_grad, pow_grad, old(tape).zero(), prev, i as int, tape.nodes());
            lemma_same_layout_trans(s0, prev, tape.nodes());
            let old_states = states;
            states = states.update(i as int, tape.nodes());
            assert forall|j: int| i <= j <= root implies #[trigger] step_at(
                add,
                mul,
                mul_add,
                tanh_grad,
                pow_grad,
                old(tape).zero(),
                states,
                j,
            ) by {
                if j > i {
                    assert(step_at(add, mul, mul_add, tanh_grad, pow_grad, old(tape).zero(), old_states, j));
                    assert(states[j] == old_states[j]);
                    assert(states[j + 1] == old_states[j + 1]);
                } else {
                    assert(states[j + 1] == prev);
                }
            }
        }
    }
    proof {
        assert(backward_run(add, mul, mul_add, tanh_grad, pow_grad, old(tape).zero(), one, start, root as int, states));
        assert forall|j: int| 0 <= j < start.len() implies (#[trigger] tape.nodes()[j]).op == start[j].op
            && tape.nodes()[j].deps == start[j].deps && tape.nodes()[j].tensor == start[j].tensor by {
            assert(tape.nodes()[j].tensor == s0[j].tensor);
            if j != root {
                assert(s0[j] == start[j]);
            }
        }
    }
}

/// Reset the gradient of every node to a tensor of the tape's `zero`, shaped like its tensor.
pub fn zero_grad<T: Copy>(tape: &mut Tape<T>)
    requires
        old(tape).wf(),
        forall|j: int|
            0 <= j < old(tape).nodes().len() ==> suffix_products_fit(
                #[trigger] old(tape).nodes()[j].tensor.dims,
            ),
    ensures
        final(tape).wf(),
        final(tape).zero() == old(tape).zero(),
        grown(old(tape).store@, final(tape).store@),
        final(tape).nodes().len() == old(tape).nodes().len(),
        same_graph(old(tape).nodes(), final(tape).nodes()),
        forall|j: int|
            0 <= j < old(tape).nodes().len() ==> {
                &&& (#[trigger] final(tape).nodes()[j]).tensor == old(tape).nodes()[j].tensor
                &&& final(tape).nodes()[j].op == old(tape).nodes()[j].op
                &&& final(tape).nodes()[j].deps == old(tape).nodes()[j].deps
                &&& filled_like(final(tape).nodes()[j].grad, old(tape).nodes()[j].tensor, old(tape).zero())
            },
{
    let n = tape.index();
    let mut i: usize = 0;
    while i < n
        invariant
            tape.wf(),
            tape.zero() == old(tape).zero(),
            grown(old(tape).store@, tape.store@),
            n == old(tape).nodes().len(),
            tape.nodes().len() == n,
            i <= n,
            forall|j: int| i <= j < n ==> #[trigger] tape.nodes()[j] == old(tape).nodes()[j],
            forall|j: int|
                0 <= j < i ==> {
                    &&& (#[trigger] tape.nodes()[j]).tensor == old(tape).nodes()[j].tensor
                    &&& tape.nodes()[j].op == old(tape).nodes()[j].op
                    &&& tape.nodes()[j].deps == old(tape).nodes()[j].deps
                    &&& filled_like(tape.nodes()[j].grad, old(tape).nodes()[j].tensor, old(tape).zero())
                },
            forall|j: int|
                0 <= j < n ==> suffix_products_fit(#[trigger] old(tape).nodes()[j].tensor.dims),
        decreases n - i,
    {
        let node = Value { idx: i };
        proof {
            assert(tape.nodes()[i as int] == old(tape).nodes()[i as int]);
            assert(tape.nodes@[i as int].lives_in(tape.store@));
            assert(suffix_products_fit(old(tape).nodes()[i as int].tensor.dims));
        }
        proof {
            assert(tape.nodes@[i as int].lives_in(tape.store@));
        }
        let t = node.tensor(tape);
        let zero = tape.zero_element();
        let ghost t0 = *tape;
        let ghost sp = tape.store@;
        let zeros = t.zeros_like(&mut tape.store, zero);
        proof {
            lemma_tape_grew(t0, *tape);
            lemma_grown_trans(old(tape).store@, sp, tape.store@);
        }
        node.set_grad(tape, zeros);
        i += 1;
    }
}

} // verus!
