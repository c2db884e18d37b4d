//! Properties that relate the tensor operations to one another: what a view
//! reads, what undoes what, and what the products and their gradients hold.

use vstd::prelude::*;

use crate::types::shape::{
    contiguous_strides, in_bounds, lemma_offset_bounds, offset_of, lemma_moved_left_offset, lemma_offset_ignores_zero_axes, lemma_offset_swapped,
    matrix_ndim, moved_left, normalized, padded_index, swapped, MAX_DIMS,
};
use crate::types::tensor::{
    dot_chain, folds_to, lemma_positive_when_nonempty_from_index, is_squeeze, is_transpose, is_unsqueeze, layout_wf, product, transposed, zipped,
    Tensor, TensorLayout, TensorModel,
};

verus! {

/// The storage axis that the logical dim `dim` of a tensor with `ndim` dims
/// names once the tensor is read as a matrix.
pub open spec fn matrix_axis(ndim: nat, dim: int) -> int {
    MAX_DIMS - matrix_ndim(ndim) + normalized(dim, matrix_ndim(ndim) as int)
}

/// A dim that `transpose` accepts for a tensor with `ndim` dims.
pub open spec fn transposable(ndim: nat, dim: int) -> bool {
    -(matrix_ndim(ndim) as int) <= dim < matrix_ndim(ndim)
}

/// Transposing moves every element: the element of `m` at `idx` is the
/// element of the transpose at `idx` with the two exchanged axes swapped.
pub proof fn lemma_transpose_moves_elements<T>(
    mt: Tensor<T>,
    dim0: int,
    dim1: int,
    rt: Tensor<T>,
    st: Seq<Seq<T>>,
    idx: Seq<int>,
)
    requires
        mt.model(st).wf(),
        transposable(mt@.ndim, dim0),
        transposable(mt@.ndim, dim1),
        is_transpose(mt@, dim0, dim1, rt@),
        in_bounds(idx, mt@.dims),
    ensures
        in_bounds(swapped(idx, matrix_axis(mt@.ndim, dim0), matrix_axis(mt@.ndim, dim1)), rt@.dims),
        rt.model(st).at(swapped(idx, matrix_axis(mt@.ndim, dim0), matrix_axis(mt@.ndim, dim1)))
            == mt.model(st).at(idx),
{
    let m = mt.model(st);
    let r = rt.model(st);
    let a = matrix_axis(m.ndim, dim0);
    let b = matrix_axis(m.ndim, dim1);
    lemma_offset_swapped(idx, m.strides, a, b);
    let j = swapped(idx, a, b);
    assert forall|i: int| 0 <= i < MAX_DIMS implies 0 <= #[trigger] j[i] < r.dims[i] by {
        if i == a {
            assert(j[i] == idx[b]);
        } else if i == b {
            assert(j[i] == idx[a]);
        } else {
            assert(j[i] == idx[i]);
        }
    }
}

/// A write is seen through every view over the same buffer: once `value` is
/// written at `idx` of `t`'s buffer, a transpose of `t` reads `value` at `idx`
/// with the two exchanged axes swapped.
pub proof fn lemma_write_seen_through_transpose<T>(
    t: Tensor<T>,
    dim0: int,
    dim1: int,
    r: Tensor<T>,
    before: Seq<Seq<T>>,
    after: Seq<Seq<T>>,
    idx: Seq<int>,
    value: T,
)
    requires
        t.wf_in(before),
        transposable(t@.ndim, dim0),
        transposable(t@.ndim, dim1),
        is_transpose(t@, dim0, dim1, r@),
        in_bounds(idx, t@.dims),
        after == before.update(
            t@.id as int,
            before[t@.id as int].update(offset_of(idx, t@.strides), value),
        ),
    ensures
        r.model(after).at(swapped(idx, matrix_axis(t@.ndim, dim0), matrix_axis(t@.ndim, dim1)))
            == value,
{
    let m = t.model(before);
    lemma_offset_bounds(idx, m.dims, m.strides);
    lemma_positive_when_nonempty_from_index(m, idx);
    assert(t.model(after).wf());
    assert(t.model(after).at(idx) == value);
    lemma_transpose_moves_elements(t, dim0, dim1, r, after, idx);
}

/// Transposing the same two dims twice gives back the layout of the tensor,
/// read as a matrix when it had fewer than two dims, over the same storage.
pub proof fn lemma_transpose_twice(
    m: TensorLayout,
    dim0: int,
    dim1: int,
    r: TensorLayout,
    s: TensorLayout,
)
    requires
        layout_wf(m.dims, m.strides, m.ndim),
        transposable(m.ndim, dim0),
        transposable(m.ndim, dim1),
        is_transpose(m, dim0, dim1, r),
        is_transpose(r, dim0, dim1, s),
    ensures
        s.dims == m.dims,
        s.strides == m.strides,
        s.ndim == matrix_ndim(m.ndim),
        s.id == m.id,
{
    let a = matrix_axis(m.ndim, dim0);
    let b = matrix_axis(m.ndim, dim1);
    assert(matrix_ndim(r.ndim) == matrix_ndim(m.ndim));
    assert(swapped(swapped(m.dims, a, b), a, b) =~= m.dims);
    assert(swapped(swapped(m.strides, a, b), a, b) =~= m.strides);
}

/// The multi-index `idx` with a zero inserted before slot `slot`, the axes
/// from `start` up to the slot moved one place to the left.
pub open spec fn unsqueezed_index(idx: Seq<int>, start: int, slot: int) -> Seq<int> {
    Seq::new(
        MAX_DIMS as nat,
        |i: int|
            if start - 1 <= i < slot - 1 {
                idx[i + 1]
            } else if i == slot - 1 {
                0
            } else {
                idx[i]
            },
    )
}

/// Inserting a dim of size 1 keeps every element: the element of `m` at
/// `idx` is the element of the result at `idx` with a zero index for the new dim.
pub proof fn lemma_unsqueeze_keeps_elements<T>(
    mt: Tensor<T>,
    dim: int,
    rt: Tensor<T>,
    st: Seq<Seq<T>>,
    idx: Seq<int>,
)
    requires
        mt.model(st).wf(),
        mt@.ndim < MAX_DIMS,
        -(mt@.ndim as int + 1) <= dim < mt@.ndim + 1,
        is_unsqueeze(mt@, dim, rt@),
        in_bounds(idx, mt@.dims),
    ensures
        ({
            let start = MAX_DIMS - mt@.ndim;
            let j = unsqueezed_index(idx, start, start + normalized(dim, mt@.ndim + 1int));
            &&& in_bounds(j, rt@.dims)
            &&& rt.model(st).at(j) == mt.model(st).at(idx)
        }),
{
    let m = mt.model(st);
    let r = rt.model(st);
    let start = MAX_DIMS - m.ndim;
    let slot = start + normalized(dim, m.ndim + 1int);
    let j = unsqueezed_index(idx, start, slot);
    assert(m.dims[start - 1] == 1);
    assert(0 <= idx[start - 1] < m.dims[start - 1]);
    assert(moved_left(idx, j, start, slot));
    lemma_moved_left_offset(idx, j, m.strides, r.strides, start, slot);
    assert forall|i: int| 0 <= i < MAX_DIMS implies 0 <= #[trigger] j[i] < r.dims[i] by {
        if start - 1 <= i < slot - 1 {
            assert(r.dims[i] == m.dims[i + 1]);
            assert(0 <= idx[i + 1] < m.dims[i + 1]);
        } else if i == slot - 1 {
        } else if i < start - 1 {
            assert(r.dims[i] == m.dims[i]);
        } else {
            assert(r.dims[i] == m.dims[i]);
        }
    }
}

/// Inserting a dim of size 1 and removing it again keeps the shape, the
/// storage and every element of the tensor.
pub proof fn lemma_unsqueeze_then_squeeze<T>(
    mt: Tensor<T>,
    dim: int,
    rt: Tensor<T>,
    ut: Tensor<T>,
    st: Seq<Seq<T>>,
)
    requires
        mt.model(st).wf(),
        mt@.ndim < MAX_DIMS,
        -(mt@.ndim as int + 1) <= dim < mt@.ndim + 1,
        is_unsqueeze(mt@, dim, rt@),
        is_squeeze(rt@, dim, ut@),
    ensures
        ut@.dims == mt@.dims,
        ut@.ndim == mt@.ndim,
        ut@.shape() == mt@.shape(),
        ut@.id == mt@.id,
        forall|idx: Seq<int>| in_bounds(idx, mt@.dims) ==> #[trigger] ut.model(st).at(idx) == mt.model(st).at(idx),
{
    let m = mt.model(st);
    let r = rt.model(st);
    let s = ut.model(st);
    let start = MAX_DIMS - m.ndim;
    let slot = start + normalized(dim, m.ndim + 1int);
    assert(r.ndim == m.ndim + 1);
    assert(normalized(dim, r.ndim as int) == normalized(dim, m.ndim + 1int));
    // both `m` and `s` are the layout that `r` moved one slot to the left
    assert(moved_left(m.dims, r.dims, start, slot));
    assert(moved_left(m.strides, r.strides, start, slot));
    assert(moved_left(s.dims, r.dims, start, slot));
    assert(moved_left(s.strides, r.strides, start, slot));
    assert forall|i: int|
        #![trigger s.dims[i]]
        #![trigger s.strides[i]]
        0 <= i < MAX_DIMS && i != start - 1 implies s.dims[i] == m.dims[i] && s.strides[i]
            == m.strides[i] by {
        if start <= i < slot {
            assert(s.dims[i] == r.dims[i - 1] && m.dims[i] == r.dims[i - 1]);
            assert(s.strides[i] == r.strides[i - 1] && m.strides[i] == r.strides[i - 1]);
        } else if i >= slot {
            assert(s.dims[i] == r.dims[i] && m.dims[i] == r.dims[i]);
            assert(s.strides[i] == r.strides[i] && m.strides[i] == r.strides[i]);
        } else {
            assert(s.strides[i] == r.strides[i] && m.strides[i] == r.strides[i]);
            assert(s.dims[i] == r.dims[i] && m.dims[i] == r.dims[i]);
        }
    }
    assert(m.dims[start - 1] == 1);
    assert(s.dims =~= m.dims);
    assert forall|idx: Seq<int>| in_bounds(idx, m.dims) implies #[trigger] s.at(idx) == m.at(idx) by {
        assert(0 <= idx[start - 1] < m.dims[start - 1]);
        assert forall|i: int| 0 <= i < MAX_DIMS implies idx[i] == 0 || s.strides[i]
            == m.strides[i] by {
            if i != start - 1 {
                assert(s.strides[i] == m.strides[i]);
            }
        }
        lemma_offset_ignores_zero_axes(idx, s.strides, m.strides);
    }
}

/// The matrix product reads its operands only through their elements:
/// operands with the same dims, dim counts and elements, such as a view and
/// its contiguous copy, have the same products.
pub proof fn lemma_product_reads_elements<T, F: Fn(T, T, T) -> T>(
    mul_add: F,
    zero: T,
    a: TensorModel<T>,
    b: TensorModel<T>,
    a2: TensorModel<T>,
    b2: TensorModel<T>,
    r: TensorModel<T>,
)
    requires
        a.wf(),
        b.wf(),
        a.is_matrix(),
        b.is_matrix(),
        a2.dims == a.dims,
        a2.ndim == a.ndim,
        b2.dims == b.dims,
        b2.ndim == b.ndim,
        forall|idx: Seq<int>| in_bounds(idx, a.dims) ==> #[trigger] a2.at(idx) == a.at(idx),
        forall|idx: Seq<int>| in_bounds(idx, b.dims) ==> #[trigger] b2.at(idx) == b.at(idx),
    ensures
        product(mul_add, zero, a, b, r) == product(mul_add, zero, a2, b2, r),
{
    let n = b.dims[4] as int;
    assert forall|i: int| 0 <= i < a.dims[3] implies #[trigger] a2.row(i) == a.row(i) by {
        assert forall|p: int| 0 <= p < a.dims[4] implies a2.row(i)[p] == a.row(i)[p] by {
            let idx = seq![0int, 0, 0, i, p];
            assert(in_bounds(idx, a.dims));
        }
        assert(a2.row(i) =~= a.row(i));
    }
    assert forall|j: int| 0 <= j < n implies #[trigger] b2.col(j) == b.col(j) by {
        assert forall|p: int| 0 <= p < b.dims[3] implies b2.col(j)[p] == b.col(j)[p] by {
            let idx = seq![0int, 0, 0, p, j];
            assert(in_bounds(idx, b.dims));
        }
        assert(b2.col(j) =~= b.col(j));
    }
    let m = a.dims[3] as int;
    if product(mul_add, zero, a, b, r) {
        assert forall|q: int| 0 <= q < r.data.len() implies #[trigger] folds_to(
            mul_add,
            zero,
            a2.row(q / n),
            b2.col(q % n),
            r.data[q],
        ) by {
            assert(0 <= q / n < m && 0 <= q % n < n) by (nonlinear_arith)
                requires
                    0 <= q < m * n,
                    m >= 0,
                    n >= 0,
            ;
            assert(a2.row(q / n) == a.row(q / n));
            assert(b2.col(q % n) == b.col(q % n));
            assert(folds_to(mul_add, zero, a.row(q / n), b.col(q % n), r.data[q]));
        }
    }
    if product(mul_add, zero, a2, b2, r) {
        assert forall|q: int| 0 <= q < r.data.len() implies #[trigger] folds_to(
            mul_add,
            zero,
            a.row(q / n),
            b.col(q % n),
            r.data[q],
        ) by {
            assert(0 <= q / n < m && 0 <= q % n < n) by (nonlinear_arith)
                requires
                    0 <= q < m * n,
                    m >= 0,
                    n >= 0,
            ;
            assert(a2.row(q / n) == a.row(q / n));
            assert(b2.col(q % n) == b.col(q % n));
            assert(folds_to(mul_add, zero, a2.row(q / n), b2.col(q % n), r.data[q]));
        }
    }
}

/// `f` gives a single result for each triple of arguments.
pub open spec fn deterministic<T, F: Fn(T, T, T) -> T>(f: F) -> bool {
    forall|c: T, x: T, y: T, r1: T, r2: T|
        #![trigger f.ensures((c, x, y), r1), f.ensures((c, x, y), r2)]
        f.ensures((c, x, y), r1) && f.ensures((c, x, y), r2) ==> r1 == r2
}

proof fn lemma_chains_agree<T, F: Fn(T, T, T) -> T>(
    f: F,
    zero: T,
    a: Seq<T>,
    b: Seq<T>,
    acc1: Seq<T>,
    acc2: Seq<T>,
    p: int,
)
    requires
        deterministic(f),
        dot_chain(f, zero, a, b, acc1),
        dot_chain(f, zero, a, b, acc2),
        0 <= p <= a.len(),
    ensures
        acc1[p] == acc2[p],
    decreases p,
{
    if p > 0 {
        lemma_chains_agree(f, zero, a, b, acc1, acc2, p - 1);
        let q = p - 1;
        assert(f.ensures((acc1[q], a[q], b[q]), acc1[q + 1]));
        assert(f.ensures((acc2[q], a[q], b[q]), acc2[q + 1]));
    }
}

/// With a deterministic `f`, folding gives a single result.
pub proof fn lemma_folds_to_unique<T, F: Fn(T, T, T) -> T>(
    f: F,
    zero: T,
    a: Seq<T>,
    b: Seq<T>,
    r1: T,
    r2: T,
)
    requires
        deterministic(f),
        folds_to(f, zero, a, b, r1),
        folds_to(f, zero, a, b, r2),
    ensures
        r1 == r2,
{
    let acc1 = choose|acc: Seq<T>| #[trigger] dot_chain(f, zero, a, b, acc) && acc[a.len() as int] == r1;
    let acc2 = choose|acc: Seq<T>| #[trigger] dot_chain(f, zero, a, b, acc) && acc[a.len() as int] == r2;
    lemma_chains_agree(f, zero, a, b, acc1, acc2, a.len() as int);
}

/// Matrix products of operands with the same dims and dim counts have the same
/// dims, strides and dim count, whatever the multiply-add: the product of two
/// views is shaped like the product of their contiguous copies.
pub proof fn lemma_products_have_equal_layouts<T, F: Fn(T, T, T) -> T>(
    mul_add: F,
    zero: T,
    a: TensorModel<T>,
    b: TensorModel<T>,
    a2: TensorModel<T>,
    b2: TensorModel<T>,
    r: TensorModel<T>,
    r2: TensorModel<T>,
)
    requires
        a2.dims == a.dims,
        a2.ndim == a.ndim,
        b2.dims == b.dims,
        b2.ndim == b.ndim,
        product(mul_add, zero, a, b, r),
        product(mul_add, zero, a2, b2, r2),
    ensures
        r2.dims == r.dims,
        r2.strides == r.strides,
        r2.ndim == r.ndim,
        r2.shape() == r.shape(),
        r2.data.len() == r.data.len(),
{
}

/// With a multiply-add that gives a single result for its arguments, matrix
/// products of operands with the same dims, dim counts and elements are
/// equal: the product of two views is the product of their contiguous copies.
pub proof fn lemma_products_of_equal_operands<T, F: Fn(T, T, T) -> T>(
    mul_add: F,
    zero: T,
    a: TensorModel<T>,
    b: TensorModel<T>,
    a2: TensorModel<T>,
    b2: TensorModel<T>,
    r: TensorModel<T>,
    r2: TensorModel<T>,
)
    requires
        deterministic(mul_add),
        a.wf(),
        b.wf(),
        a.is_matrix(),
        b.is_matrix(),
        a2.dims == a.dims,
        a2.ndim == a.ndim,
        b2.dims == b.dims,
        b2.ndim == b.ndim,
        forall|idx: Seq<int>| in_bounds(idx, a.dims) ==> #[trigger] a2.at(idx) == a.at(idx),
        forall|idx: Seq<int>| in_bounds(idx, b.dims) ==> #[trigger] b2.at(idx) == b.at(idx),
        product(mul_add, zero, a, b, r),
        product(mul_add, zero, a2, b2, r2),
    ensures
        r2 == r,
{
    lemma_product_reads_elements(mul_add, zero, a, b, a2, b2, r);
    let n = b.dims[4] as int;
    assert forall|q: int| 0 <= q < r.data.len() implies r2.data[q] == r.data[q] by {
        assert(folds_to(mul_add, zero, a2.row(q / n), b2.col(q % n), r.data[q]));
        assert(folds_to(mul_add, zero, a2.row(q / n), b2.col(q % n), r2.data[q]));
        lemma_folds_to_unique(mul_add, zero, a2.row(q / n), b2.col(q % n), r.data[q], r2.data[q]);
    }
    assert(r2.data =~= r.data);
}

/// An elementwise combination reads its operands only through their
/// elements in row-major order: operands with the same dims, dim counts and
/// elements, such as a view and its contiguous copy, give the same results.
pub proof fn lemma_zipped_reads_elements<T, F: Fn(T, T) -> T>(
    f: F,
    a: TensorModel<T>,
    b: TensorModel<T>,
    a2: TensorModel<T>,
    b2: TensorModel<T>,
    r: TensorModel<T>,
)
    requires
        a2.dims == a.dims,
        a2.ndim == a.ndim,
        a2.elements() == a.elements(),
        b2.ndim == b.ndim,
        b2.elements() == b.elements(),
    ensures
        zipped(f, a, b, r) == zipped(f, a2, b2, r),
{
}

/// A matrix product is laid out row-major.
pub proof fn lemma_product_is_contiguous<T, F: Fn(T, T, T) -> T>(
    mul_add: F,
    zero: T,
    a: TensorModel<T>,
    b: TensorModel<T>,
    r: TensorModel<T>,
)
    requires
        product(mul_add, zero, a, b, r),
    ensures
        r.contiguous(),
{
}

/// An elementwise combination of two tensors is laid out row-major.
pub proof fn lemma_zipped_is_contiguous<T, F: Fn(T, T) -> T>(
    f: F,
    a: TensorModel<T>,
    b: TensorModel<T>,
    r: TensorModel<T>,
)
    requires
        zipped(f, a, b, r),
    ensures
        r.contiguous(),
{
    assert(r.strides == contiguous_strides(r.dims));
}

/// The gradients of a matrix product `a @ b` have the dims of its operands:
/// `grad @ bᵀ` is shaped like `a`, and `aᵀ @ grad` like `b`.
pub proof fn lemma_product_gradient_dims<T, F: Fn(T, T, T) -> T>(
    mul_add: F,
    zero: T,
    a: TensorModel<T>,
    b: TensorModel<T>,
    grad: TensorModel<T>,
    grad_a: TensorModel<T>,
    grad_b: TensorModel<T>,
)
    requires
        a.wf(),
        b.wf(),
        a.is_matrix(),
        b.is_matrix(),
        a.dims[4] == b.dims[3],
        grad.dims == seq![1usize, 1, 1, a.dims[3], b.dims[4]],
        product(mul_add, zero, grad, transposed(b), grad_a),
        product(mul_add, zero, transposed(a), grad, grad_b),
    ensures
        grad_a.dims == a.dims,
        grad_b.dims == b.dims,
        a.ndim == 2 && b.ndim == 2 && grad.ndim <= 2 ==> grad_a.shape() == a.shape()
            && grad_b.shape() == b.shape(),
{
    assert(grad_a.dims =~= a.dims);
    assert(grad_b.dims =~= b.dims);
}

/// A dimension index names the dim counted from the front when it is not
/// negative, and counted from the back when it is: `dim` itself for
/// `0 <= dim < ndim`, `dim + ndim` for `-ndim <= dim < 0`.
pub proof fn lemma_dim_index_resolution(dim: int, ndim: int)
    requires
        -ndim <= dim < ndim,
    ensures
        0 <= dim ==> normalized(dim, ndim) == dim,
        dim < 0 ==> normalized(dim, ndim) == dim + ndim,
        0 <= normalized(dim, ndim) < ndim,
{
}

/// `unsqueeze(dim)` inserts the new dim of size 1 at logical position `dim`
/// (counted from the back of the new shape when negative); the other dims
/// keep their order.
pub proof fn lemma_unsqueeze_shape(m: TensorLayout, dim: int, r: TensorLayout)
    requires
        layout_wf(m.dims, m.strides, m.ndim),
        m.ndim < MAX_DIMS,
        -(m.ndim as int + 1) <= dim < m.ndim + 1,
        is_unsqueeze(m, dim, r),
    ensures
        r.shape() == m.shape().insert(if dim >= 0 { dim } else { dim + m.ndim + 1 }, 1usize),
{
    let n = m.ndim as int;
    let p = if dim >= 0 { dim } else { dim + n + 1 };
    let start = MAX_DIMS - n;
    let slot = start + p;
    assert(normalized(dim, n + 1) == p);
    let want = m.shape().insert(p, 1usize);
    assert forall|k: int| 0 <= k < n + 1 implies #[trigger] r.shape()[k] == want[k] by {
        assert(r.shape()[k] == r.dims[start - 1 + k]);
        if k < p {
            assert(r.dims[start - 1 + k] == m.dims[start + k]);
        } else if k > p {
            assert(r.dims[start - 1 + k] == m.dims[start - 1 + k]);
        }
    }
    assert(r.shape() =~= want);
}

/// `transpose(dim0, dim1)` with non-negative dims on a tensor of at least two
/// dims exchanges exactly the logical dims `dim0` and `dim1` of the shape.
pub proof fn lemma_transpose_shape(m: TensorLayout, dim0: int, dim1: int, r: TensorLayout)
    requires
        layout_wf(m.dims, m.strides, m.ndim),
        2 <= m.ndim,
        0 <= dim0 < m.ndim,
        0 <= dim1 < m.ndim,
        is_transpose(m, dim0, dim1, r),
    ensures
        r.shape() == m.shape().update(dim0, m.shape()[dim1]).update(dim1, m.shape()[dim0]),
{
    let n = m.ndim as int;
    let start = MAX_DIMS - n;
    let want = m.shape().update(dim0, m.shape()[dim1]).update(dim1, m.shape()[dim0]);
    assert forall|k: int| 0 <= k < n implies #[trigger] r.shape()[k] == want[k] by {
        assert(r.shape()[k] == r.dims[start + k]);
    }
    assert(r.shape() =~= want);
}

/// Contiguity looks only at the dims larger than 1: a layout is contiguous
/// exactly when each such dim has the row-major stride, whatever the strides
/// of its dims of size 1.
pub proof fn lemma_contiguity_ignores_unit_dims(m: TensorLayout)
    ensures
        m.contiguous() <==> forall|i: int|
            0 <= i < MAX_DIMS && m.dims[i] != 1 ==> #[trigger] m.strides[i] == contiguous_strides(
                m.dims,
            )[i],
{
    if forall|i: int|
        0 <= i < MAX_DIMS && m.dims[i] != 1 ==> #[trigger] m.strides[i] == contiguous_strides(
            m.dims,
        )[i] {
        assert forall|i: int| 0 <= i < MAX_DIMS implies m.dims[i] == 1 || #[trigger] m.strides[i]
            == contiguous_strides(m.dims)[i] by {
            if m.dims[i] != 1 {
                assert(m.strides[i] == contiguous_strides(m.dims)[i]);
            }
        }
    }
}

/// Reading a tensor with at most one dim as a matrix keeps it contiguous:
/// the transpose of a contiguous vector or scalar is contiguous.
pub proof fn lemma_transposed_vector_is_contiguous(m: TensorLayout, dim0: int, dim1: int, r: TensorLayout)
    requires
        layout_wf(m.dims, m.strides, m.ndim),
        m.ndim <= 1,
        m.contiguous(),
        transposable(m.ndim, dim0),
        transposable(m.ndim, dim1),
        is_transpose(m, dim0, dim1, r),
    ensures
        r.contiguous(),
{
    let a = matrix_axis(m.ndim, dim0);
    let b = matrix_axis(m.ndim, dim1);
    assert(3 <= a <= 4 && 3 <= b <= 4);
    assert(m.dims[3] == 1);
    if a != b {
        assert(r.dims =~= m.dims.update(3, m.dims[4]).update(4, 1usize));
        assert(contiguous_strides(m.dims)[4] == 1);
        assert(crate::types::shape::prod_from(r.dims, 5) == 1);
        assert(crate::types::shape::prod_from(r.dims, 4) == r.dims[4] * crate::types::shape::prod_from(r.dims, 5));
        assert(crate::types::shape::prod_from(r.dims, 4) == 1);
        assert(contiguous_strides(r.dims)[3] == 1);
        assert forall|i: int| 0 <= i < MAX_DIMS implies r.dims[i] == 1 || #[trigger] r.strides[i]
            == contiguous_strides(r.dims)[i] by {
            if i == 3 && r.dims[3] != 1 {
                assert(m.dims[4] != 1);
                assert(m.strides[4] == contiguous_strides(m.dims)[4]);
            }
        }
    } else {
        assert(r.dims =~= m.dims);
        assert(r.strides =~= m.strides);
        assert forall|i: int| 0 <= i < MAX_DIMS implies r.dims[i] == 1 || #[trigger] r.strides[i]
            == contiguous_strides(r.dims)[i] by {
            assert(m.dims[i] == 1 || m.strides[i] == contiguous_strides(m.dims)[i]);
        }
    }
}

/// The logical index of `N` entries names the padded index whose first
/// `MAX_DIMS - N` entries are 0 and whose last `N` entries are the index's
/// entries, in order.
pub proof fn lemma_padded_index_entries(idx: Seq<usize>)
    requires
        idx.len() <= MAX_DIMS,
    ensures
        padded_index(idx).len() == MAX_DIMS,
        forall|j: int| 0 <= j < MAX_DIMS - idx.len() ==> #[trigger] padded_index(idx)[j] == 0,
        forall|i: int|
            0 <= i < idx.len() ==> #[trigger] padded_index(idx)[MAX_DIMS - idx.len() + i]
                == idx[i] as int,
{
}

} // verus!
