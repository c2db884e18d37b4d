//! Strided tensors of up to `MAX_DIMS` dimensions over a generic element type.
//!
//! A tensor is a layout (dims, strides and the number of logical dimensions)
//! over a buffer of a `Store`, named by its index there. Views such as
//! transposes name the same buffer, so a write through one of them is seen by
//! all; operations that compute new elements add a fresh buffer to the store.

use std::marker::PhantomData;

use vstd::prelude::*;

use vstd::arithmetic::div_mod::lemma_fundamental_div_mod_converse;
use vstd::arithmetic::mul::lemma_mul_inequality;

use crate::types::shape::{
    all_positive, as_ints, contiguous_strides, dims_product, in_bounds, lemma_contiguous_max_offset,
    lemma_contiguous_offset, lemma_fit_when_nonempty, lemma_offset_bounds, lemma_offset_expanded,
    lemma_offset_ignores_zero_axes, lemma_offset_update, lemma_positive_when_nonempty,
    lemma_prod_expanded, lemma_prod_from_leading_ones, lemma_unravel_in_bounds, last_index, lemma_unravel_succ,
    lemma_unravel_zero, lemma_unravel_contiguous_offset, matrix_ndim, max_offset, swapped, lemma_offset_swapped, lemma_prod_swapped, padded_index, lemma_dot_from_leading_zeros, dot_from, lemma_dot_from_bounds, moved_left, lemma_moved_left_prod, lemma_moved_left_max_offset, normalize_dim, normalized, offset_of, padded, padded_dims,
    numel_of, prod_from, strides_from_contiguous, succ_from, suffix_products_fit, unravel_index, quot, MAX_DIMS,
};

verus! {

/// The buffers that tensors read and write, each named by its index.
pub struct Store<T> {
    bufs: Vec<Vec<T>>,
}

impl<T> View for Store<T> {
    type V = Seq<Seq<T>>;

    closed spec fn view(&self) -> Seq<Seq<T>> {
        self.bufs@.map_values(|b: Vec<T>| b@)
    }
}

impl<T> Store<T> {
    /// A store without buffers.
    pub fn new() -> (s: Self)
        ensures
            s@ == Seq::<Seq<T>>::empty(),
    {
        let s = Store { bufs: Vec::new() };
        assert(s@ =~= Seq::<Seq<T>>::empty());
        s
    }

}

impl<T: Copy> Store<T> {
    /// The number of buffers.
    pub fn len(&self) -> (n: usize)
        ensures
            n == self@.len(),
    {
        self.bufs.len()
    }

    /// Add `data` as a new buffer, named by the returned index.
    fn push_buffer(&mut self, data: Vec<T>) -> (id: usize)
        ensures
            final(self)@ == old(self)@.push(data@),
            id == old(self)@.len(),
    {
        let id = self.bufs.len();
        self.bufs.push(data);
        assert(self@ =~= old(self)@.push(data@));
        id
    }

    /// Element `k` of buffer `id`.
    fn read(&self, id: usize, k: usize) -> (x: T)
        requires
            id < self@.len(),
            k < self@[id as int].len(),
        ensures
            x == self@[id as int][k as int],
    {
        self.bufs[id][k]
    }

    /// The length of buffer `id`.
    fn buf_len(&self, id: usize) -> (n: usize)
        requires
            id < self@.len(),
        ensures
            n == self@[id as int].len(),
    {
        self.bufs[id].len()
    }

    /// Replace element `k` of buffer `id` by `x`.
    fn write(&mut self, id: usize, k: usize, x: T)
        requires
            id < old(self)@.len(),
            k < old(self)@[id as int].len(),
        ensures
            final(self)@ == old(self)@.update(id as int, old(self)@[id as int].update(k as int, x)),
    {
        let mut b: Vec<T> = Vec::new();
        std::mem::swap(&mut b, &mut self.bufs[id]);
        b.set(k, x);
        std::mem::swap(&mut b, &mut self.bufs[id]);
        assert(self@ =~= old(self)@.update(id as int, old(self)@[id as int].update(k as int, x)));
    }
}

/// A strided view over a buffer of a store.
pub struct Tensor<T> {
    dims: [usize; MAX_DIMS],
    strides: [usize; MAX_DIMS],
    ndim: usize,
    id: usize,
    elem: PhantomData<T>,
}

impl<T> Clone for Tensor<T> {
    /// Another view of the same buffer with the same layout.
    fn clone(&self) -> (res: Self)
        ensures
            res@ == self@,
    {
        Tensor { dims: self.dims, strides: self.strides, ndim: self.ndim, id: self.id, elem: PhantomData }
    }
}

impl<T> Copy for Tensor<T> {}

/// The layout of a tensor and the index of the buffer it reads.
pub struct TensorLayout {
    pub dims: Seq<usize>,
    pub strides: Seq<usize>,
    pub ndim: nat,
    pub id: nat,
}

/// The mathematical content of a tensor: its layout and its storage.
pub struct TensorModel<T> {
    pub dims: Seq<usize>,
    pub strides: Seq<usize>,
    pub ndim: nat,
    pub data: Seq<T>,
}

impl TensorLayout {
    /// The logical shape, without the padding dimensions.
    pub open spec fn shape(self) -> Seq<usize> {
        self.dims.subrange(MAX_DIMS - self.ndim, MAX_DIMS as int)
    }

    /// The number of elements.
    pub open spec fn numel(self) -> int {
        prod_from(self.dims, 0)
    }

    /// The strides are those of a row-major layout, ignoring dimensions of size 1.
    pub open spec fn contiguous(self) -> bool {
        forall|i: int|
            0 <= i < MAX_DIMS ==> self.dims[i] == 1 || #[trigger] self.strides[i]
                == contiguous_strides(self.dims)[i]
    }

    /// All dims before the last two are 1.
    pub open spec fn is_matrix(self) -> bool {
        self.dims[0] == 1 && self.dims[1] == 1 && self.dims[2] == 1
    }
}

impl<T> View for Tensor<T> {
    type V = TensorLayout;

    closed spec fn view(&self) -> TensorLayout {
        TensorLayout {
            dims: self.dims@,
            strides: self.strides@,
            ndim: self.ndim as nat,
            id: self.id as nat,
        }
    }
}

impl<T> Tensor<T> {
    /// The tensor read over the buffers `s`.
    pub open spec fn model(self, s: Seq<Seq<T>>) -> TensorModel<T> {
        TensorModel { dims: self@.dims, strides: self@.strides, ndim: self@.ndim, data: s[self@.id as int] }
    }

    /// The buffer of the tensor is one of `s`.
    pub open spec fn lives_in(self, s: Seq<Seq<T>>) -> bool {
        self@.id < s.len()
    }

    /// The tensor lives in `s` and is well formed over it.
    pub open spec fn wf_in(self, s: Seq<Seq<T>>) -> bool {
        self.lives_in(s) && self.model(s).wf()
    }

    /// The layout alone is consistent.
    pub open spec fn layout_wf(self) -> bool {
        layout_wf(self@.dims, self@.strides, self@.ndim)
    }
}

/// Dims, strides and dim count are consistent: the padding dims are 1, the
/// number of elements and the largest offset fit in a `usize`.
pub open spec fn layout_wf(dims: Seq<usize>, strides: Seq<usize>, ndim: nat) -> bool {
    &&& dims.len() == MAX_DIMS
    &&& strides.len() == MAX_DIMS
    &&& ndim <= MAX_DIMS
    &&& forall|i: int| 0 <= i < MAX_DIMS - ndim ==> #[trigger] dims[i] == 1
    &&& prod_from(dims, 0) <= usize::MAX
    &&& prod_from(dims, 0) > 0 ==> max_offset(dims, strides) < usize::MAX
    &&& forall|i: int| 0 <= i < MAX_DIMS ==> #[trigger] dims[i] * strides[i] <= usize::MAX
}

impl<T> TensorModel<T> {
    /// The layout is consistent with the storage: every in-bounds multi-index
    /// reads an element of the storage, and the storage holds exactly as many
    /// elements as the dims describe.
    pub open spec fn wf(self) -> bool {
        &&& layout_wf(self.dims, self.strides, self.ndim)
        &&& self.data.len() == prod_from(self.dims, 0)
        &&& prod_from(self.dims, 0) > 0 ==> max_offset(self.dims, self.strides) < self.data.len()
    }

    /// The logical shape, without the padding dimensions.
    pub open spec fn shape(self) -> Seq<usize> {
        self.dims.subrange(MAX_DIMS - self.ndim, MAX_DIMS as int)
    }

    /// The number of elements.
    pub open spec fn numel(self) -> int {
        prod_from(self.dims, 0)
    }

    /// The element at the multi-index `idx`.
    pub open spec fn at(self, idx: Seq<int>) -> T {
        self.data[offset_of(idx, self.strides)]
    }

    /// The elements in row-major order of the logical layout.
    pub open spec fn elements(self) -> Seq<T> {
        Seq::new(self.numel() as nat, |k: int| self.at(unravel_index(self.dims, k)))
    }

    /// The strides are those of a row-major layout, ignoring dimensions of size 1.
    pub open spec fn contiguous(self) -> bool {
        forall|i: int|
            0 <= i < MAX_DIMS ==> self.dims[i] == 1 || #[trigger] self.strides[i]
                == contiguous_strides(self.dims)[i]
    }
}

/// `String::push`: appends `c` to `s`.
#[verifier::external_body]
fn push_char(s: &mut String, c: char)
    ensures
        final(s)@ == old(s)@.push(c),
{
    s.push(c);
}

/// The character of the decimal digit `d`.
pub open spec fn digit_char(d: nat) -> char {
    seq!['0', '1', '2', '3', '4', '5', '6', '7', '8', '9'][d as int]
}

/// The decimal representation of `n`, without leading zeros.
pub open spec fn decimal(n: nat) -> Seq<char>
    decreases n,
{
    if n < 10 {
        seq![digit_char(n)]
    } else {
        decimal(n / 10).push(digit_char(n % 10))
    }
}

/// The entries of `shape` in decimal, separated by commas.
pub open spec fn joined(shape: Seq<usize>) -> Seq<char>
    decreases shape.len(),
{
    if shape.len() == 0 {
        Seq::empty()
    } else if shape.len() == 1 {
        decimal(shape[0] as nat)
    } else {
        joined(shape.drop_last()) + seq![','] + decimal(shape.last() as nat)
    }
}

/// A shape written as `(d0,d1,...)`.
pub open spec fn pretty(shape: Seq<usize>) -> Seq<char> {
    seq!['('] + joined(shape) + seq![')']
}

/// Append the decimal representation of `n`.
fn push_decimal(s: &mut String, n: usize)
    ensures
        final(s)@ == old(s)@ + decimal(n as nat),
    decreases n,
{
    let digits = ['0', '1', '2', '3', '4', '5', '6', '7', '8', '9'];
    assert(digits@ =~= seq!['0', '1', '2', '3', '4', '5', '6', '7', '8', '9']);
    if n >= 10 {
        push_decimal(s, n / 10);
    }
    push_char(s, digits[n % 10]);
    assert(s@ =~= old(s)@ + decimal(n as nat));
}

/// A zero-dimensional tensor holding `x`.
pub open spec fn scalar_model<T>(x: T) -> TensorModel<T> {
    TensorModel {
        dims: seq![1usize, 1, 1, 1, 1],
        strides: contiguous_strides(seq![1usize, 1, 1, 1, 1]),
        ndim: 0,
        data: seq![x],
    }
}

/// A row-major layout of `dims` over `data` is well formed.
proof fn lemma_contiguous_wf<T>(m: TensorModel<T>)
    requires
        m.dims.len() == MAX_DIMS,
        m.ndim <= MAX_DIMS,
        forall|i: int| 0 <= i < MAX_DIMS - m.ndim ==> #[trigger] m.dims[i] == 1,
        suffix_products_fit(m.dims),
        m.strides == contiguous_strides(m.dims),
        m.data.len() == prod_from(m.dims, 0),
    ensures
        m.wf(),
{
    if prod_from(m.dims, 0) > 0 {
        lemma_contiguous_max_offset(m.dims);
    }
    assert forall|i: int| 0 <= i < MAX_DIMS implies #[trigger] m.dims[i] * m.strides[i]
        <= usize::MAX by {
        assert(prod_from(m.dims, i + 1) <= usize::MAX);
        assert(prod_from(m.dims, i + 1) >= 0) by {
            lemma_prod_from_nonneg(m.dims, i + 1);
        }
        assert(prod_from(m.dims, i) <= usize::MAX);
    }
}

proof fn lemma_prod_from_nonneg(d: Seq<usize>, i: int)
    requires
        d.len() == MAX_DIMS,
        0 <= i <= MAX_DIMS,
    ensures
        prod_from(d, i) >= 0,
    decreases MAX_DIMS - i,
{
    if i < MAX_DIMS {
        lemma_prod_from_nonneg(d, i + 1);
        assert(d[i] * prod_from(d, i + 1) >= 0) by (nonlinear_arith)
            requires
                d[i] >= 0,
                prod_from(d, i + 1) >= 0,
        ;
    }
}

/// The shape of a well formed tensor, padded again, gives back its dims.
proof fn lemma_padded_shape<T>(m: TensorModel<T>)
    requires
        m.wf(),
    ensures
        padded(m.shape()) == m.dims,
{
    assert(padded(m.shape()) =~= m.dims);
}

/// `after` keeps every buffer of `before`, and may hold more.
pub open spec fn grown<T>(before: Seq<Seq<T>>, after: Seq<Seq<T>>) -> bool {
    &&& after.len() >= before.len()
    &&& forall|i: int| 0 <= i < before.len() ==> #[trigger] after[i] == before[i]
}

/// Growing a store twice grows it.
pub proof fn lemma_grown_trans<T>(s0: Seq<Seq<T>>, s1: Seq<Seq<T>>, s2: Seq<Seq<T>>)
    requires
        grown(s0, s1),
        grown(s1, s2),
    ensures
        grown(s0, s2),
{
    assert forall|i: int| 0 <= i < s0.len() implies #[trigger] s2[i] == s0[i] by {
        assert(s2[i] == s1[i]);
    }
}

/// `after` is `before` with one more buffer, the one that `t` reads.
pub open spec fn added<T>(before: Seq<Seq<T>>, after: Seq<Seq<T>>, t: Tensor<T>) -> bool {
    &&& t@.id == before.len()
    &&& after.len() == before.len() + 1
    &&& forall|i: int| 0 <= i < before.len() ==> #[trigger] after[i] == before[i]
}

impl<T: Copy> Tensor<T> {
    /// A row-major tensor of the given shape over `data`, stored as a new
    /// buffer of `store`.
    pub fn new(store: &mut Store<T>, shape: &[usize], data: Vec<T>) -> (t: Self)
        requires
            shape@.len() <= MAX_DIMS,
            suffix_products_fit(padded(shape@)),
            data@.len() == prod_from(padded(shape@), 0),
        ensures
            added(old(store)@, final(store)@, t),
            t.model(final(store)@) == (TensorModel {
                dims: padded(shape@),
                strides: contiguous_strides(padded(shape@)),
                ndim: shape@.len(),
                data: data@,
            }),
            t.wf_in(final(store)@),
    {
        let dims = padded_dims(shape);
        let strides = strides_from_contiguous(dims);
        let ghost d = data@;
        let id = store.push_buffer(data);
        let t = Tensor { dims, strides, ndim: shape.len(), id, elem: PhantomData };
        proof {
            lemma_contiguous_wf(t.model(store@));
        }
        t
    }

    /// A zero-dimensional tensor holding `value`.
    pub fn scalar(store: &mut Store<T>, value: T) -> (t: Self)
        ensures
            added(old(store)@, final(store)@, t),
            t.model(final(store)@) == scalar_model(value),
            t.wf_in(final(store)@),
            suffix_products_fit(t@.dims),
    {
        let shape: [usize; 0] = [];
        let mut data: Vec<T> = Vec::new();
        data.push(value);
        proof {
            assert(padded(shape@) =~= seq![1usize, 1, 1, 1, 1]);
            lemma_prod_expanded(padded(shape@));
            assert forall|i: int| 0 <= i <= MAX_DIMS implies #[trigger] prod_from(
                padded(shape@),
                i,
            ) <= usize::MAX by {
                lemma_all_ones_prod(padded(shape@), i);
            }
        }
        let t = Self::new(store, &shape, data);
        assert(t.model(store@).data =~= seq![value]);
        t
    }

    /// A tensor of the given shape with every element equal to `value`.
    fn filled(store: &mut Store<T>, shape: &[usize], value: T) -> (t: Self)
        requires
            shape@.len() <= MAX_DIMS,
            suffix_products_fit(padded(shape@)),
        ensures
            added(old(store)@, final(store)@, t),
            t.wf_in(final(store)@),
            t@.dims == padded(shape@),
            t@.strides == contiguous_strides(padded(shape@)),
            t@.ndim == shape@.len(),
            forall|k: int| 0 <= k < t.model(final(store)@).data.len() ==> #[trigger] t.model(final(store)@).data[k] == value,
    {
        let dims = padded_dims(shape);
        let n = dims_product(&dims);
        let mut data: Vec<T> = Vec::new();
        let mut k: usize = 0;
        while k < n
            invariant
                k <= n,
                data@.len() == k,
                forall|j: int| 0 <= j < k ==> #[trigger] data@[j] == value,
            decreases n - k,
        {
            data.push(value);
            k += 1;
        }
        Self::new(store, shape, data)
    }

    /// A tensor of the given shape filled with `zero`.
    pub fn zeros(store: &mut Store<T>, shape: &[usize], zero: T) -> (t: Self)
        requires
            shape@.len() <= MAX_DIMS,
            suffix_products_fit(padded(shape@)),
        ensures
            added(old(store)@, final(store)@, t),
            t.wf_in(final(store)@),
            t@.dims == padded(shape@),
            t@.strides == contiguous_strides(padded(shape@)),
            t@.ndim == shape@.len(),
            forall|k: int| 0 <= k < t.model(final(store)@).data.len() ==> #[trigger] t.model(final(store)@).data[k] == zero,
    {
        Self::filled(store, shape, zero)
    }

    /// A tensor of the given shape filled with `one`.
    pub fn ones(store: &mut Store<T>, shape: &[usize], one: T) -> (t: Self)
        requires
            shape@.len() <= MAX_DIMS,
            suffix_products_fit(padded(shape@)),
        ensures
            added(old(store)@, final(store)@, t),
            t.wf_in(final(store)@),
            t@.dims == padded(shape@),
            t@.strides == contiguous_strides(padded(shape@)),
            t@.ndim == shape@.len(),
            forall|k: int| 0 <= k < t.model(final(store)@).data.len() ==> #[trigger] t.model(final(store)@).data[k] == one,
    {
        Self::filled(store, shape, one)
    }

    /// A tensor of the same shape filled with `zero`.
    pub fn zeros_like(&self, store: &mut Store<T>, zero: T) -> (t: Self)
        requires
            self.layout_wf(),
            suffix_products_fit(self@.dims),
        ensures
            added(old(store)@, final(store)@, t),
            t.wf_in(final(store)@),
            t@.dims == self@.dims,
            t@.strides == contiguous_strides(self@.dims),
            t@.ndim == self@.ndim,
            forall|k: int| 0 <= k < t.model(final(store)@).data.len() ==> #[trigger] t.model(final(store)@).data[k] == zero,
    {
        proof {
            assert(padded(self@.shape()) =~= self@.dims);
        }
        Self::zeros(store, self.shape(), zero)
    }

    /// A tensor of the same shape filled with `one`.
    pub fn ones_like(&self, store: &mut Store<T>, one: T) -> (t: Self)
        requires
            self.layout_wf(),
            suffix_products_fit(self@.dims),
        ensures
            added(old(store)@, final(store)@, t),
            t.wf_in(final(store)@),
            t@.dims == self@.dims,
            t@.strides == contiguous_strides(self@.dims),
            t@.ndim == self@.ndim,
            forall|k: int| 0 <= k < t.model(final(store)@).data.len() ==> #[trigger] t.model(final(store)@).data[k] == one,
    {
        proof {
            assert(padded(self@.shape()) =~= self@.dims);
        }
        Self::ones(store, self.shape(), one)
    }
}

impl<T> Tensor<T> {
    /// The logical shape of the tensor, without padding dimensions.
    pub fn shape(&self) -> (s: &[usize])
        requires
            self.layout_wf(),
        ensures
            s@ == self@.shape(),
    {
        let dims = self.dims.as_slice();
        &dims[MAX_DIMS - self.ndim..MAX_DIMS]
    }

    /// Pretty-print the shape of the tensor, as in `(2,3)`.
    pub fn shape_pretty(&self) -> (r: String)
        requires
            self.layout_wf(),
        ensures
            r@ == pretty(self@.shape()),
    {
        let shape = self.shape();
        let mut r = String::new();
        push_char(&mut r, '(');
        let mut i: usize = 0;
        while i < shape.len()
            invariant
                i <= shape@.len(),
                r@ == seq!['('] + joined(shape@.take(i as int)),
            decreases shape@.len() - i,
        {
            assert(shape@.take(i + 1int).drop_last() =~= shape@.take(i as int));
            if i > 0 {
                push_char(&mut r, ',');
            }
            push_decimal(&mut r, shape[i]);
            proof {
                if i == 0 {
                    assert(joined(shape@.take(0)) =~= Seq::<char>::empty());
                }
            }
            assert(r@ =~= seq!['('] + joined(shape@.take(i + 1int)));
            i += 1;
        }
        push_char(&mut r, ')');
        assert(shape@.take(shape@.len() as int) =~= shape@);
        assert(r@ =~= pretty(self@.shape()));
        r
    }

    /// The dims of the tensor, padded on the left with ones.
    pub fn dims(&self) -> (d: [usize; MAX_DIMS])
        ensures
            d@ == self@.dims,
    {
        self.dims
    }

    /// The number of logical dimensions of the tensor.
    pub fn ndim(&self) -> (n: usize)
        ensures
            n == self@.ndim,
    {
        self.ndim
    }

    /// The total number of elements in the tensor.
    pub fn numel(&self) -> (n: usize)
        requires
            self.layout_wf(),
        ensures
            n == self@.numel(),
    {
        numel_of(&self.dims)
    }

    /// Iterate offsets of every element, in row-major order.
    pub fn offsets(&self) -> (it: Offsets)
        requires
            self.layout_wf(),
        ensures
            it.wf(),
            it.dims() == self@.dims,
            it.strides() == self@.strides,
            it.remaining() == self@.numel(),
            it.position() == 0,
    {
        let it = Offsets {
            dims: self.dims,
            strides: self.strides,
            idx: [0usize; MAX_DIMS],
            off: 0,
            remaining: numel_of(&self.dims),
        };
        proof {
            if self@.numel() > 0 {
                lemma_positive_when_nonempty(self@.dims);
                lemma_unravel_zero(self@.dims);
                let z = as_ints(it.idx@);
                assert(z =~= Seq::new(MAX_DIMS as nat, |i: int| 0int));
                lemma_offset_expanded(z, self@.strides);
                let st = self@.strides;
                assert(z[0] == 0 && z[1] == 0 && z[2] == 0 && z[3] == 0 && z[4] == 0);
                assert(z[0] * st[0] + z[1] * st[1] + z[2] * st[2] + z[3] * st[3] + z[4] * st[4]
                    == 0) by (nonlinear_arith)
                    requires
                        z[0] == 0 && z[1] == 0 && z[2] == 0 && z[3] == 0 && z[4] == 0,
                ;
                assert(max_offset(it.dims@, it.strides@) < usize::MAX);
                assert(as_ints(it.idx@) == unravel_index(it.dims@, it.position()));
                assert(it.off == offset_of(as_ints(it.idx@), it.strides@));
                assert(all_positive(it.dims@));
            }
            assert(it.remaining <= prod_from(it.dims@, 0));
        }
        it
    }
}

impl<T> Tensor<T> {
    /// Swap two logical dimensions. Negative dimensions count from the end.
    /// Tensors with fewer than two dims are treated as matrices,
    /// so a scalar becomes `(1, 1)` and a `(n,)` vector becomes `(n, 1)`.
    pub fn transpose(&self, dim0: isize, dim1: isize) -> (t: Self)
        requires
            self.layout_wf(),
            -(matrix_ndim(self@.ndim) as int) <= dim0 < matrix_ndim(self@.ndim),
            -(matrix_ndim(self@.ndim) as int) <= dim1 < matrix_ndim(self@.ndim),
        ensures
            is_transpose(self@, dim0 as int, dim1 as int, t@),
            t.layout_wf(),
            forall|s: Seq<Seq<T>>| self.model(s).wf() ==> #[trigger] t.model(s).wf(),
    {
        let ndim = if self.ndim < 2 {
            2
        } else {
            self.ndim
        };
        let start = MAX_DIMS - ndim;
        let d0 = start + normalize_dim(dim0, ndim);
        let d1 = start + normalize_dim(dim1, ndim);

        let mut dims = self.dims;
        let mut strides = self.strides;
        let tmp_dim = dims[d0];
        dims[d0] = dims[d1];
        dims[d1] = tmp_dim;
        let tmp_stride = strides[d0];
        strides[d0] = strides[d1];
        strides[d1] = tmp_stride;

        let t = Tensor { dims, strides, ndim, id: self.id, elem: PhantomData };
        proof {
            let m = self@;
            assert(t@.dims =~= swapped(m.dims, d0 as int, d1 as int));
            assert(t@.strides =~= swapped(m.strides, d0 as int, d1 as int));
            lemma_prod_swapped(m.dims, d0 as int, d1 as int);
            assert(last_index(t@.dims) =~= swapped(last_index(m.dims), d0 as int, d1 as int));
            lemma_offset_swapped(last_index(m.dims), m.strides, d0 as int, d1 as int);
            assert forall|i: int| 0 <= i < MAX_DIMS implies #[trigger] t@.dims[i] * t@.strides[i]
                <= usize::MAX by {
                if i == d0 {
                    assert(m.dims[d1 as int] * m.strides[d1 as int] <= usize::MAX);
                } else if i == d1 {
                    assert(m.dims[d0 as int] * m.strides[d0 as int] <= usize::MAX);
                } else {
                    assert(m.dims[i] * m.strides[i] <= usize::MAX);
                }
            }
            assert forall|i: int| 0 <= i < MAX_DIMS - t@.ndim implies #[trigger] t@.dims[i] == 1 by {
                assert(m.dims[i] == 1);
            }
            assert forall|s: Seq<Seq<T>>| self.model(s).wf() implies #[trigger] t.model(s).wf() by {}
        }
        t
    }
}

impl<T> Tensor<T> {
    /// Insert a dimension of size 1 at the given position.
    #[verifier::rlimit(30)]
    pub fn unsqueeze(&self, dim: isize) -> (t: Self)
        requires
            self.layout_wf(),
            self@.ndim < MAX_DIMS,
            -(self@.ndim as int + 1) <= dim < self@.ndim + 1,
        ensures
            t.layout_wf(),
            forall|s: Seq<Seq<T>>| self.model(s).wf() ==> #[trigger] t.model(s).wf(),
            is_unsqueeze(self@, dim as int, t@),
            t@.shape() == self@.shape().insert(normalized(dim as int, self@.ndim + 1int), 1),
            t@.shape() == self@.shape().insert(
                if dim >= 0 {
                    dim as int
                } else {
                    dim + self@.ndim + 1
                },
                1,
            ),
    {
        let start = MAX_DIMS - self.ndim;
        let slot = start + normalize_dim(dim, self.ndim + 1);

        // shift the dims before the insertion point one slot to the left
        let mut dims = self.dims;
        let mut strides = self.strides;
        let mut i = start;
        while i < slot
            invariant
                1 <= start <= i <= slot <= MAX_DIMS,
                forall|j: int| 0 <= j < start - 1 ==> #[trigger] dims@[j] == self.dims@[j],
                forall|j: int| start - 1 <= j < i - 1 ==> #[trigger] dims@[j] == self.dims@[j + 1],
                forall|j: int| i - 1 <= j < MAX_DIMS ==> #[trigger] dims@[j] == self.dims@[j],
                forall|j: int| 0 <= j < start - 1 ==> #[trigger] strides@[j] == self.strides@[j],
                forall|j: int|
                    start - 1 <= j < i - 1 ==> #[trigger] strides@[j] == self.strides@[j + 1],
                forall|j: int| i - 1 <= j < MAX_DIMS ==> #[trigger] strides@[j] == self.strides@[j],
            decreases slot - i,
        {
            dims[i - 1] = dims[i];
            strides[i - 1] = strides[i];
            i += 1;
        }
        dims[slot - 1] = 1;
        strides[slot - 1] = if slot < MAX_DIMS {
            proof {
                assert(dims@[slot as int] == self.dims@[slot as int]);
                assert(strides@[slot as int] == self.strides@[slot as int]);
                assert(self@.dims[slot as int] * self@.strides[slot as int] <= usize::MAX);
                assert(strides[slot as int] * dims[slot as int] == dims[slot as int] * strides[slot as int]) by (nonlinear_arith);
            }
            strides[slot] * dims[slot]
        } else {
            1
        };

        let t = Tensor { dims, strides, ndim: self.ndim + 1, id: self.id, elem: PhantomData };
        proof {
            let m = self@;
            let p = normalized(dim as int, self@.ndim + 1int);
            assert(m.dims[start - 1] == 1);
            assert(moved_left(m.dims, t@.dims, start as int, slot as int));
            assert(moved_left(m.strides, t@.strides, start as int, slot as int));
            lemma_moved_left_prod(m.dims, t@.dims, start as int, slot as int);
            lemma_moved_left_max_offset(m.dims, t@.dims, m.strides, t@.strides, start as int, slot as int);
            assert forall|i: int| 0 <= i < MAX_DIMS implies #[trigger] t@.dims[i] * t@.strides[i]
                <= usize::MAX by {
                if i < start - 1 || i >= slot {
                    assert(m.dims[i] * m.strides[i] <= usize::MAX);
                } else if i < slot - 1 {
                    assert(m.dims[i + 1] * m.strides[i + 1] <= usize::MAX);
                } else {
                    assert(t@.dims[i] == 1);
                    assert(1 * t@.strides[i] == t@.strides[i]);
                }
            }
            assert(t@.shape() =~= m.shape().insert(p, 1));
            assert forall|s: Seq<Seq<T>>| self.model(s).wf() implies #[trigger] t.model(s).wf() by {}
        }
        t
    }

    /// Remove a dimension of size 1 at the given position.
    #[verifier::rlimit(30)]
    pub fn squeeze(&self, dim: isize) -> (t: Self)
        requires
            self.layout_wf(),
            -(self@.ndim as int) <= dim < self@.ndim,
            self@.dims[MAX_DIMS - self@.ndim + normalized(dim as int, self@.ndim as int)] == 1,
        ensures
            t.layout_wf(),
            forall|s: Seq<Seq<T>>| self.model(s).wf() ==> #[trigger] t.model(s).wf(),
            is_squeeze(self@, dim as int, t@),
            t@.shape() == self@.shape().remove(normalized(dim as int, self@.ndim as int)),
    {
        let start = MAX_DIMS - self.ndim;
        let slot = start + normalize_dim(dim, self.ndim);

        // shift the dims before the removed one a slot to the right
        let mut dims = self.dims;
        let mut strides = self.strides;
        let mut i = slot;
        while i > start
            invariant
                start <= i <= slot < MAX_DIMS,
                forall|j: int| 0 <= j <= i ==> #[trigger] dims@[j] == self.dims@[j],
                forall|j: int| i < j <= slot ==> #[trigger] dims@[j] == self.dims@[j - 1],
                forall|j: int| slot < j < MAX_DIMS ==> #[trigger] dims@[j] == self.dims@[j],
                forall|j: int| 0 <= j <= i ==> #[trigger] strides@[j] == self.strides@[j],
                forall|j: int| i < j <= slot ==> #[trigger] strides@[j] == self.strides@[j - 1],
                forall|j: int| slot < j < MAX_DIMS ==> #[trigger] strides@[j] == self.strides@[j],
            decreases i - start,
        {
            dims[i] = dims[i - 1];
            strides[i] = strides[i - 1];
            i -= 1;
        }
        dims[start] = 1;
        strides[start] = if start + 1 < MAX_DIMS {
            proof {
                if slot > start {
                    assert(dims@[start + 1] == self.dims@[start as int]);
                    assert(strides@[start + 1] == self.strides@[start as int]);
                    assert(self@.dims[start as int] * self@.strides[start as int] <= usize::MAX);
                } else {
                    assert(dims@[start + 1] == self.dims@[start + 1]);
                    assert(strides@[start + 1] == self.strides@[start + 1]);
                    assert(self@.dims[start + 1] * self@.strides[start + 1] <= usize::MAX);
                }
                assert(strides[start + 1] * dims[start + 1] == dims[start + 1] * strides[start + 1]) by (nonlinear_arith);
            }
            strides[start + 1] * dims[start + 1]
        } else {
            1
        };

        let t = Tensor { dims, strides, ndim: self.ndim - 1, id: self.id, elem: PhantomData };
        proof {
            let m = self@;
            let p = normalized(dim as int, self@.ndim as int);
            assert(moved_left(t@.dims, m.dims, start + 1, slot + 1));
            assert(moved_left(t@.strides, m.strides, start + 1, slot + 1));
            lemma_moved_left_prod(t@.dims, m.dims, start + 1, slot + 1);
            lemma_moved_left_max_offset(t@.dims, m.dims, t@.strides, m.strides, start + 1, slot + 1);
            assert forall|i: int| 0 <= i < MAX_DIMS implies #[trigger] t@.dims[i] * t@.strides[i]
                <= usize::MAX by {
                if i < start || i > slot {
                    assert(m.dims[i] * m.strides[i] <= usize::MAX);
                } else if i > start {
                    assert(m.dims[i - 1] * m.strides[i - 1] <= usize::MAX);
                } else {
                    assert(t@.dims[i] == 1);
                    assert(1 * t@.strides[i] == t@.strides[i]);
                }
            }
            assert forall|i: int| 0 <= i < MAX_DIMS - t@.ndim implies #[trigger] t@.dims[i] == 1 by {
                if i < start {
                    assert(m.dims[i] == 1);
                }
            }
            assert(t@.shape() =~= m.shape().remove(p));
            assert forall|s: Seq<Seq<T>>| self.model(s).wf() implies #[trigger] t.model(s).wf() by {}
        }
        t
    }
}

/// `acc` is the chain of partial results of folding `mul_add` over the pairs
/// `(a[p], b[p])`, starting from `zero`.
pub open spec fn dot_chain<T, F: Fn(T, T, T) -> T>(
    mul_add: F,
    zero: T,
    a: Seq<T>,
    b: Seq<T>,
    acc: Seq<T>,
) -> bool {
    &&& acc.len() == a.len() + 1
    &&& acc[0] == zero
    &&& forall|p: int|
        0 <= p < a.len() ==> #[trigger] mul_add.ensures((acc[p], a[p], b[p]), acc[p + 1])
}

/// `r` is what folding `mul_add` over the pairs `(a[p], b[p])` from `zero`
/// yields: `mul_add(... mul_add(mul_add(zero, a[0], b[0]), a[1], b[1]) ..., a[k-1], b[k-1])`.
pub open spec fn folds_to<T, F: Fn(T, T, T) -> T>(
    mul_add: F,
    zero: T,
    a: Seq<T>,
    b: Seq<T>,
    r: T,
) -> bool {
    exists|acc: Seq<T>| #[trigger] dot_chain(mul_add, zero, a, b, acc) && acc[a.len() as int] == r
}

impl<T> TensorModel<T> {
    /// Row `i` of a matrix-shaped tensor.
    pub open spec fn row(self, i: int) -> Seq<T> {
        Seq::new(self.dims[4] as nat, |p: int| self.at(seq![0int, 0, 0, i, p]))
    }

    /// Column `j` of a matrix-shaped tensor.
    pub open spec fn col(self, j: int) -> Seq<T> {
        Seq::new(self.dims[3] as nat, |p: int| self.at(seq![0int, 0, 0, p, j]))
    }

    /// All dims before the last two are 1.
    pub open spec fn is_matrix(self) -> bool {
        self.dims[0] == 1 && self.dims[1] == 1 && self.dims[2] == 1
    }
}

/// `r` holds `f` applied to every storage element of `a`, in `a`'s layout.
pub open spec fn storage_mapped<T, F: Fn(T) -> T>(f: F, a: TensorModel<T>, r: TensorModel<T>) -> bool {
    &&& r.wf()
    &&& r.dims == a.dims
    &&& r.strides == a.strides
    &&& r.ndim == a.ndim
    &&& r.data.len() == a.data.len()
    &&& forall|i: int| 0 <= i < r.data.len() ==> #[trigger] f.ensures((a.data[i],), r.data[i])
}

/// `r` holds every storage element of `a` raised to the power `e` by `pow`,
/// in `a`'s layout.
pub open spec fn powered<T, F: Fn(T, T) -> T>(pow: F, e: T, a: TensorModel<T>, r: TensorModel<T>) -> bool {
    &&& r.wf()
    &&& r.dims == a.dims
    &&& r.strides == a.strides
    &&& r.ndim == a.ndim
    &&& r.data.len() == a.data.len()
    &&& forall|i: int| 0 <= i < r.data.len() ==> #[trigger] pow.ensures((a.data[i], e), r.data[i])
}

/// `r` is row-major and holds `f` applied to the elements of `a` in row-major order.
pub open spec fn mapped<T, F: Fn(T) -> T>(f: F, a: TensorModel<T>, r: TensorModel<T>) -> bool {
    &&& r.wf()
    &&& r.dims == a.dims
    &&& r.strides == contiguous_strides(a.dims)
    &&& r.ndim == a.ndim
    &&& r.data.len() == a.numel()
    &&& forall|k: int| 0 <= k < r.data.len() ==> #[trigger] f.ensures((a.elements()[k],), r.data[k])
}

/// `r` is row-major and holds `f` applied pairwise to the elements of `a` and
/// `b` in row-major order.
pub open spec fn zipped<T, F: Fn(T, T) -> T>(
    f: F,
    a: TensorModel<T>,
    b: TensorModel<T>,
    r: TensorModel<T>,
) -> bool {
    &&& r.wf()
    &&& r.dims == a.dims
    &&& r.strides == contiguous_strides(a.dims)
    &&& r.ndim == max_ndim(a.ndim, b.ndim)
    &&& r.data.len() == a.numel()
    &&& forall|k: int|
        0 <= k < r.data.len() ==> #[trigger] f.ensures(
            (a.elements()[k], b.elements()[k]),
            r.data[k],
        )
}

/// `r` is the row-major matrix product of `a` and `b`: entry `(i, j)` folds
/// `mul_add` over row `i` of `a` and column `j` of `b`, starting from `zero`.
pub open spec fn product<T, F: Fn(T, T, T) -> T>(
    mul_add: F,
    zero: T,
    a: TensorModel<T>,
    b: TensorModel<T>,
    r: TensorModel<T>,
) -> bool {
    &&& r.wf()
    &&& suffix_products_fit(r.dims)
    &&& r.dims == seq![1usize, 1, 1, a.dims[3], b.dims[4]]
    &&& r.strides == contiguous_strides(r.dims)
    &&& r.ndim == max_ndim(a.ndim, b.ndim)
    &&& r.data.len() == a.dims[3] * b.dims[4]
    &&& forall|q: int|
        0 <= q < r.data.len() ==> #[trigger] folds_to(
            mul_add,
            zero,
            a.row(q / b.dims[4] as int),
            b.col(q % b.dims[4] as int),
            r.data[q],
        )
}

/// `r` is `m` with the logical dims `dim0` and `dim1` exchanged; tensors with
/// fewer than two dims are first read as matrices.
pub open spec fn is_transpose(m: TensorLayout, dim0: int, dim1: int, r: TensorLayout) -> bool {
    let n = matrix_ndim(m.ndim) as int;
    let a = MAX_DIMS - n + normalized(dim0, n);
    let b = MAX_DIMS - n + normalized(dim1, n);
    &&& r.dims == swapped(m.dims, a, b)
    &&& r.strides == swapped(m.strides, a, b)
    &&& r.ndim == n
    &&& r.id == m.id
}

/// `r` is `m` with a dim of size 1 inserted before logical dim `dim`.
pub open spec fn is_unsqueeze(m: TensorLayout, dim: int, r: TensorLayout) -> bool {
    let start = MAX_DIMS - m.ndim;
    let slot = start + normalized(dim, m.ndim + 1int);
    &&& r.ndim == m.ndim + 1
    &&& r.id == m.id
    &&& moved_left(m.dims, r.dims, start, slot)
    &&& moved_left(m.strides, r.strides, start, slot)
    &&& r.dims[slot - 1] == 1
    &&& r.strides[slot - 1] == (if slot < MAX_DIMS {
        m.strides[slot] * m.dims[slot]
    } else {
        1
    })
}

/// `r` is `m` with its logical dim `dim`, of size 1, removed.
pub open spec fn is_squeeze(m: TensorLayout, dim: int, r: TensorLayout) -> bool {
    let start = MAX_DIMS - m.ndim;
    let slot = start + normalized(dim, m.ndim as int);
    &&& r.ndim == m.ndim - 1
    &&& r.id == m.id
    &&& moved_left(r.dims, m.dims, start + 1, slot + 1)
    &&& moved_left(r.strides, m.strides, start + 1, slot + 1)
    &&& r.dims[start] == 1
    &&& r.strides[start] == (if start + 1 < MAX_DIMS {
        r.strides[start + 1] * r.dims[start + 1]
    } else {
        1
    })
}

/// The view that `transpose(-2, -1)` gives: the last two dims exchanged.
pub open spec fn transposed<T>(m: TensorModel<T>) -> TensorModel<T> {
    TensorModel {
        dims: swapped(m.dims, 3, 4),
        strides: swapped(m.strides, 3, 4),
        ndim: matrix_ndim(m.ndim),
        data: m.data,
    }
}

/// The larger of two dimension counts.
pub open spec fn max_ndim(a: nat, b: nat) -> nat {
    if a < b {
        b
    } else {
        a
    }
}

/// In a row-major layout (up to strides of size-1 dims) the element at
/// row-major position `k` is the `k`-th element of the storage.
pub proof fn lemma_contiguous_elements<T>(m: TensorModel<T>, k: int)
    requires
        m.wf(),
        m.contiguous(),
        0 <= k < m.numel(),
    ensures
        m.at(unravel_index(m.dims, k)) == m.data[k],
{
    lemma_fit_when_nonempty(m.dims);
    lemma_positive_when_nonempty(m.dims);
    let idx = unravel_index(m.dims, k);
    lemma_unravel_in_bounds(m.dims, k);
    assert forall|i: int| 0 <= i < MAX_DIMS implies idx[i] == 0 || m.strides[i]
        == contiguous_strides(m.dims)[i] by {
        if m.dims[i] == 1 {
            assert(idx[i] < 1);
        }
    }
    lemma_offset_ignores_zero_axes(idx, m.strides, contiguous_strides(m.dims));
    lemma_contiguous_offset(m.dims, k);
}

/// In a row-major layout the element at an in-bounds multi-index is the
/// storage element at the row-major position of that index.
pub proof fn lemma_contiguous_at<T>(m: TensorModel<T>, idx: Seq<int>)
    requires
        m.wf(),
        m.contiguous(),
        in_bounds(idx, m.dims),
    ensures
        ({
            let k = offset_of(idx, contiguous_strides(m.dims));
            &&& 0 <= k < m.numel()
            &&& unravel_index(m.dims, k) == idx
            &&& m.at(idx) == m.data[k]
            &&& m.elements()[k] == m.at(idx)
        }),
{
    lemma_positive_when_nonempty_from_index(m, idx);
    lemma_fit_when_nonempty(m.dims);
    lemma_unravel_contiguous_offset(idx, m.dims);
    assert forall|i: int| 0 <= i < MAX_DIMS implies idx[i] == 0 || m.strides[i]
        == contiguous_strides(m.dims)[i] by {
        if m.dims[i] == 1 {
            assert(0 <= idx[i] < 1);
        }
    }
    lemma_offset_ignores_zero_axes(idx, m.strides, contiguous_strides(m.dims));
}

impl<T: Copy> Tensor<T> {
    /// Return whether the tensor is contiguous in memory.
    pub fn is_contiguous(&self) -> (r: bool)
        requires
            self.layout_wf(),
            suffix_products_fit(self@.dims),
        ensures
            r == self@.contiguous(),
            r == forall|i: int|
                0 <= i < MAX_DIMS && self@.dims[i] != 1 ==> #[trigger] self@.strides[i]
                    == contiguous_strides(self@.dims)[i],
    {
        let expected = strides_from_contiguous(self.dims);
        // compare strides and ignore size-1 dims
        let mut i: usize = 0;
        while i < MAX_DIMS
            invariant
                i <= MAX_DIMS,
                expected@ == contiguous_strides(self@.dims),
                forall|j: int|
                    0 <= j < i ==> self@.dims[j] == 1 || #[trigger] self@.strides[j]
                        == contiguous_strides(self@.dims)[j],
            decreases MAX_DIMS - i,
        {
            if !(self.dims[i] == 1 || self.strides[i] == expected[i]) {
                assert(!(self@.dims[i as int] == 1 || self@.strides[i as int] == contiguous_strides(
                    self@.dims,
                )[i as int]));
                return false;
            }
            i += 1;
        }
        true
    }

    /// The elements of the tensor in row-major order, read through the layout.
    fn gather(&self, store: &Store<T>) -> (data: Vec<T>)
        requires
            self.wf_in(store@),
        ensures
            data@ == self.model(store@).elements(),
    {
        let mut it = self.offsets();
        let mut data: Vec<T> = Vec::new();
        loop
            invariant
                self.wf_in(store@),
                it.wf(),
                it.dims() == self@.dims,
                it.strides() == self@.strides,
                data@.len() == it.position(),
                0 <= it.position() <= self.model(store@).numel(),
                forall|k: int| 0 <= k < data@.len() ==> #[trigger] data@[k] == self.model(store@).elements()[k],
            ensures
                data@.len() == self.model(store@).numel(),
                forall|k: int| 0 <= k < data@.len() ==> #[trigger] data@[k] == self.model(store@).elements()[k],
            decreases it.remaining(),
        {
            let ghost pos = it.position();
            match it.next() {
                Some(off) => {
                    proof {
                        lemma_positive_when_nonempty(self@.dims);
                        lemma_unravel_in_bounds(self@.dims, pos);
                        lemma_offset_bounds(unravel_index(self@.dims, pos), self@.dims, self@.strides);
                    }
                    data.push(store.read(self.id, off));
                },
                None => {
                    break;
                },
            }
        }
        assert(data@ =~= self.model(store@).elements());
        data
    }

    /// Make a contiguous copy of the tensor. A contiguous tensor is returned
    /// as it is, over the same buffer; otherwise its elements are gathered into
    /// a new buffer.
    pub fn contiguous(&self, store: &mut Store<T>) -> (t: Tensor<T>)
        requires
            self.wf_in(old(store)@),
            suffix_products_fit(self@.dims),
        ensures
            self@.contiguous() ==> t@ == self@ && final(store)@ == old(store)@,
            !self@.contiguous() ==> added(old(store)@, final(store)@, t),
            t.wf_in(final(store)@),
            t@.dims == self@.dims,
            t@.ndim == self@.ndim,
            t@.contiguous(),
            t.model(final(store)@).elements() == self.model(old(store)@).elements(),
            forall|idx: Seq<int>| in_bounds(idx, self@.dims) ==> #[trigger] t.model(final(store)@).at(idx) == self.model(old(store)@).at(idx),
    {
        if self.is_contiguous() {
            return *self;
        }
        let data = self.gather(store);
        let ghost s0 = store@;
        proof {
            lemma_padded_shape(self.model(s0));
        }
        let t = Tensor::new(store, self.shape(), data);
        proof {
            let tm = t.model(store@);
            let sm = self.model(s0);
            assert(self.model(store@) == sm);
            assert forall|k: int| 0 <= k < tm.numel() implies #[trigger] tm.elements()[k]
                == sm.elements()[k] by {
                lemma_contiguous_elements(tm, k);
            }
            assert(tm.elements() =~= sm.elements());
            assert forall|idx: Seq<int>| in_bounds(idx, self@.dims) implies #[trigger] tm.at(idx)
                == sm.at(idx) by {
                lemma_contiguous_at(tm, idx);
            }
        }
        t
    }

    /// Calculate the offset at which to access data for a given index.
    fn offset<const N: usize>(&self, store: &Store<T>, idx: [usize; N]) -> (off: usize)
        requires
            self.wf_in(store@),
            N == self@.ndim,
            forall|i: int| 0 <= i < N ==> #[trigger] idx@[i] < self@.dims[MAX_DIMS - N + i],
        ensures
            off == offset_of(padded_index(idx@), self@.strides),
            in_bounds(padded_index(idx@), self@.dims),
            off < self.model(store@).data.len(),
    {
        let ghost pi = padded_index(idx@);
        let ghost s = self@.strides;
        let start = MAX_DIMS - N;
        proof {
            assert forall|i: int| 0 <= i < MAX_DIMS implies 0 <= #[trigger] pi[i] < self@.dims[i] by {
                if i >= start {
                    assert(pi[i] == idx@[i - start]);
                }
            }
            lemma_offset_bounds(pi, self@.dims, s);
            lemma_positive_when_nonempty_from_index(self.model(store@), pi);
            lemma_dot_from_leading_zeros(pi, s, start as int);
        }
        let mut off: usize = 0;
        let mut i: usize = 0;
        while i < N
            invariant
                start + N == MAX_DIMS,
                i <= N,
                pi == padded_index(idx@),
                s == self@.strides,
                in_bounds(pi, self@.dims),
                dot_from(pi, s, 0) == dot_from(pi, s, start as int),
                dot_from(pi, s, 0) < self.model(store@).data.len(),
                self.wf_in(store@),
                off + dot_from(pi, s, start + i) == dot_from(pi, s, start as int),
            decreases N - i,
        {
            let axis = start + i;
            proof {
                assert(pi[axis as int] == idx@[i as int]);
                lemma_dot_from_bounds(pi, self@.dims, s, axis + 1);
                assert(dot_from(pi, s, axis as int) == pi[axis as int] * s[axis as int] + dot_from(
                    pi,
                    s,
                    axis + 1,
                ));
                assert(idx[i as int] * self.strides[axis as int] == pi[axis as int] * s[axis as int]);
            }
            off += idx[i] * self.strides[axis];
            i += 1;
        }
        off
    }

    /// Get a single point at any given index.
    pub fn get<const N: usize>(&self, store: &Store<T>, idx: [usize; N]) -> (r: T)
        requires
            self.wf_in(store@),
            N == self@.ndim,
            forall|i: int| 0 <= i < N ==> #[trigger] idx@[i] < self@.dims[MAX_DIMS - N + i],
        ensures
            r == self.model(store@).at(padded_index(idx@)),
            r == self.model(store@).at(
                Seq::new(
                    MAX_DIMS as nat,
                    |j: int|
                        if j < MAX_DIMS - N {
                            0int
                        } else {
                            idx@[j - (MAX_DIMS - N)] as int
                        },
                ),
            ),
    {
        let off = self.offset(store, idx);
        proof {
            let q = Seq::new(
                MAX_DIMS as nat,
                |j: int|
                    if j < MAX_DIMS - N {
                        0int
                    } else {
                        idx@[j - (MAX_DIMS - N)] as int
                    },
            );
            assert(q =~= padded_index(idx@));
        }
        store.read(self.id, off)
    }

    /// Set the value of a single point at any given index. The write goes to
    /// the buffer of the tensor, so every tensor over that buffer sees it.
    pub fn set(&self, store: &mut Store<T>, idx: [usize; MAX_DIMS], value: T)
        requires
            self.wf_in(old(store)@),
            self@.ndim == MAX_DIMS,
            forall|i: int| 0 <= i < MAX_DIMS ==> #[trigger] idx@[i] < self@.dims[i],
        ensures
            final(store)@ == old(store)@.update(
                self@.id as int,
                old(store)@[self@.id as int].update(offset_of(as_ints(idx@), self@.strides), value),
            ),
            self.wf_in(final(store)@),
            self.model(final(store)@).at(as_ints(idx@)) == value,
            forall|j: Seq<int>|
                in_bounds(j, self@.dims) ==> #[trigger] self.model(final(store)@).at(j) == (if offset_of(
                    j,
                    self@.strides,
                ) == offset_of(as_ints(idx@), self@.strides) {
                    value
                } else {
                    self.model(old(store)@).at(j)
                }),
            self@.contiguous() ==> forall|j: Seq<int>|
                in_bounds(j, self@.dims) && j != as_ints(idx@) ==> #[trigger] self.model(final(store)@).at(j)
                    == self.model(old(store)@).at(j),
    {
        let off = self.offset(store, idx);
        assert(padded_index(idx@) =~= as_ints(idx@));
        let ghost m = self.model(store@);
        store.write(self.id, off, value);
        proof {
            assert forall|j: Seq<int>| in_bounds(j, self@.dims) implies #[trigger] self.model(store@).at(j) == (if offset_of(
                j,
                self@.strides,
            ) == offset_of(as_ints(idx@), self@.strides) {
                value
            } else {
                m.at(j)
            }) by {
                lemma_offset_bounds(j, m.dims, m.strides);
                lemma_positive_when_nonempty_from_index(m, j);
            }
            if self@.contiguous() {
                assert forall|j: Seq<int>| in_bounds(j, self@.dims) && j != as_ints(idx@) implies offset_of(
                    j,
                    self@.strides,
                ) != offset_of(as_ints(idx@), self@.strides) by {
                    lemma_contiguous_offsets_distinct(m, j, as_ints(idx@));
                }
            }
        }
    }

    /// Extract the value of a single-element tensor.
    pub fn item(&self, store: &Store<T>) -> (r: T)
        requires
            self.lives_in(store@),
            self.model(store@).data.len() == 1,
        ensures
            r == self.model(store@).data[0],
    {
        store.read(self.id, 0)
    }
}

impl<T: Copy> Tensor<T> {
    /// Apply `f` to every element of the storage, keeping the layout.
    pub fn map_storage<F: Fn(T) -> T>(&self, store: &mut Store<T>, f: F) -> (t: Self)
        requires
            self.wf_in(old(store)@),
            forall|x: T| #[trigger] f.requires((x,)),
        ensures
            added(old(store)@, final(store)@, t),
            storage_mapped(f, self.model(old(store)@), t.model(final(store)@)),
    {
        let ghost s0 = store@;
        let n = store.buf_len(self.id);
        let mut data: Vec<T> = Vec::new();
        let mut i: usize = 0;
        while i < n
            invariant
                store@ == s0,
                self.wf_in(s0),
                n == self.model(s0).data.len(),
                i <= n,
                data@.len() == i,
                forall|x: T| #[trigger] f.requires((x,)),
                forall|j: int| 0 <= j < i ==> #[trigger] f.ensures((self.model(s0).data[j],), data@[j]),
            decreases n - i,
        {
            let y = f(store.read(self.id, i));
            data.push(y);
            i += 1;
        }
        let id = store.push_buffer(data);
        let t = Tensor { dims: self.dims, strides: self.strides, ndim: self.ndim, id, elem: PhantomData };
        assert(self.model(store@) == self.model(s0));
        t
    }

    /// Raise every element to the power `exponent`, keeping the layout;
    /// `pow(x, e)` computes `x` to the power `e`.
    pub fn pow<F: Fn(T, T) -> T + Copy>(&self, store: &mut Store<T>, exponent: T, pow: F) -> (t: Self)
        requires
            self.wf_in(old(store)@),
            forall|x: T| #[trigger] pow.requires((x, exponent)),
        ensures
            added(old(store)@, final(store)@, t),
            powered(pow, exponent, self.model(old(store)@), t.model(final(store)@)),
    {
        let ghost s0 = store@;
        let f = |x: T| -> (y: T)
            requires
                pow.requires((x, exponent)),
            ensures
                pow.ensures((x, exponent), y),
            { pow(x, exponent) };
        let t = self.map_storage(store, f);
        proof {
            assert forall|i: int| 0 <= i < t.model(store@).data.len() implies #[trigger] pow.ensures(
                (self.model(s0).data[i], exponent),
                t.model(store@).data[i],
            ) by {
                assert(f.ensures((self.model(s0).data[i],), t.model(store@).data[i]));
            }
        }
        t
    }

    /// Raise every element to the power `exponent`, keeping the layout;
    /// `powf(x, e)` computes `x` to the power `e`.
    pub fn powf<F: Fn(T, T) -> T + Copy>(&self, store: &mut Store<T>, exponent: T, powf: F) -> (t: Self)
        requires
            self.wf_in(old(store)@),
            forall|x: T| #[trigger] powf.requires((x, exponent)),
        ensures
            added(old(store)@, final(store)@, t),
            powered(powf, exponent, self.model(old(store)@), t.model(final(store)@)),
    {
        self.pow(store, exponent, powf)
    }

    /// The exponential of every element, keeping the layout; `exp` computes
    /// the exponential of one element.
    pub fn exp<F: Fn(T) -> T>(&self, store: &mut Store<T>, exp: F) -> (t: Self)
        requires
            self.wf_in(old(store)@),
            forall|x: T| #[trigger] exp.requires((x,)),
        ensures
            added(old(store)@, final(store)@, t),
            storage_mapped(exp, self.model(old(store)@), t.model(final(store)@)),
    {
        self.map_storage(store, exp)
    }

    /// Apply `f` to every element in row-major order; the result is contiguous.
    pub fn map<F: Fn(T) -> T>(&self, store: &mut Store<T>, f: F) -> (t: Self)
        requires
            self.wf_in(old(store)@),
            suffix_products_fit(self@.dims),
            forall|x: T| #[trigger] f.requires((x,)),
        ensures
            added(old(store)@, final(store)@, t),
            mapped(f, self.model(old(store)@), t.model(final(store)@)),
            forall|idx: Seq<int>|
                in_bounds(idx, self@.dims) ==> #[trigger] f.ensures((self.model(old(store)@).at(idx),), t.model(final(store)@).at(idx)),
    {
        let ghost s0 = store@;
        let mut it = self.offsets();
        let mut data: Vec<T> = Vec::new();
        loop
            invariant
                store@ == s0,
                self.wf_in(s0),
                it.wf(),
                it.dims() == self@.dims,
                it.strides() == self@.strides,
                data@.len() == it.position(),
                0 <= it.position() <= self.model(s0).numel(),
                forall|x: T| #[trigger] f.requires((x,)),
                forall|k: int|
                    0 <= k < data@.len() ==> #[trigger] f.ensures((self.model(s0).elements()[k],), data@[k]),
            ensures
                data@.len() == self.model(s0).numel(),
                forall|k: int|
                    0 <= k < data@.len() ==> #[trigger] f.ensures((self.model(s0).elements()[k],), data@[k]),
            decreases it.remaining(),
        {
            let ghost pos = it.position();
            match it.next() {
                Some(off) => {
                    proof {
                        lemma_positive_when_nonempty(self@.dims);
                        lemma_unravel_in_bounds(self@.dims, pos);
                        lemma_offset_bounds(unravel_index(self@.dims, pos), self@.dims, self@.strides);
                    }
                    let y = f(store.read(self.id, off));
                    data.push(y);
                },
                None => {
                    break;
                },
            }
        }
        let strides = strides_from_contiguous(self.dims);
        let id = store.push_buffer(data);
        let t = Tensor { dims: self.dims, strides, ndim: self.ndim, id, elem: PhantomData };
        proof {
            lemma_contiguous_wf(t.model(store@));
            assert forall|idx: Seq<int>| in_bounds(idx, self@.dims) implies #[trigger] f.ensures(
                (self.model(s0).at(idx),),
                t.model(store@).at(idx),
            ) by {
                lemma_contiguous_at(t.model(store@), idx);
                let k = offset_of(idx, contiguous_strides(self@.dims));
                assert(f.ensures((self.model(s0).elements()[k],), t.model(store@).data[k]));
            }
        }
        t
    }

    /// Combine the elements of two tensors of equal dims pairwise in row-major
    /// order; the result is contiguous.
    pub fn zip_with<F: Fn(T, T) -> T>(&self, store: &mut Store<T>, rhs: &Self, f: F) -> (t: Self)
        requires
            self.wf_in(old(store)@),
            rhs.wf_in(old(store)@),
            self@.dims == rhs@.dims,
            suffix_products_fit(self@.dims),
            forall|x: T, y: T| #[trigger] f.requires((x, y)),
        ensures
            added(old(store)@, final(store)@, t),
            zipped(f, self.model(old(store)@), rhs.model(old(store)@), t.model(final(store)@)),
            forall|idx: Seq<int>|
                in_bounds(idx, self@.dims) ==> #[trigger] f.ensures(
                    (self.model(old(store)@).at(idx), rhs.model(old(store)@).at(idx)),
                    t.model(final(store)@).at(idx),
                ),
    {
        let ghost s0 = store@;
        let mut a = self.offsets();
        let mut b = rhs.offsets();
        let mut data: Vec<T> = Vec::new();
        loop
            invariant
                store@ == s0,
                self.wf_in(s0),
                rhs.wf_in(s0),
                self@.dims == rhs@.dims,
                a.wf(),
                b.wf(),
                a.dims() == self@.dims,
                a.strides() == self@.strides,
                b.dims() == rhs@.dims,
                b.strides() == rhs@.strides,
                a.remaining() == b.remaining(),
                data@.len() == a.position(),
                0 <= a.position() <= self.model(s0).numel(),
                forall|x: T, y: T| #[trigger] f.requires((x, y)),
                forall|k: int|
                    0 <= k < data@.len() ==> #[trigger] f.ensures(
                        (self.model(s0).elements()[k], rhs.model(s0).elements()[k]),
                        data@[k],
                    ),
            ensures
                data@.len() == self.model(s0).numel(),
                forall|k: int|
                    0 <= k < data@.len() ==> #[trigger] f.ensures(
                        (self.model(s0).elements()[k], rhs.model(s0).elements()[k]),
                        data@[k],
                    ),
            decreases a.remaining(),
        {
            let ghost pos = a.position();
            let oa = a.next();
            let ob = b.next();
            match (oa, ob) {
                (Some(x), Some(y)) => {
                    proof {
                        lemma_positive_when_nonempty(self@.dims);
                        lemma_unravel_in_bounds(self@.dims, pos);
                        lemma_offset_bounds(unravel_index(self@.dims, pos), self@.dims, self@.strides);
                        lemma_offset_bounds(unravel_index(self@.dims, pos), rhs@.dims, rhs@.strides);
                    }
                    let v = f(store.read(self.id, x), store.read(rhs.id, y));
                    data.push(v);
                },
                _ => {
                    break;
                },
            }
        }
        let strides = strides_from_contiguous(self.dims);
        let ndim = if self.ndim < rhs.ndim {
            rhs.ndim
        } else {
            self.ndim
        };
        let id = store.push_buffer(data);
        let t = Tensor { dims: self.dims, strides, ndim, id, elem: PhantomData };
        proof {
            assert forall|i: int| 0 <= i < MAX_DIMS - t@.ndim implies #[trigger] t@.dims[i] == 1 by {
                if self.ndim < rhs.ndim {
                    assert(rhs@.dims[i] == 1);
                } else {
                    assert(self@.dims[i] == 1);
                }
            }
            lemma_contiguous_wf(t.model(store@));
            assert forall|idx: Seq<int>| in_bounds(idx, self@.dims) implies #[trigger] f.ensures(
                (self.model(s0).at(idx), rhs.model(s0).at(idx)),
                t.model(store@).at(idx),
            ) by {
                lemma_contiguous_at(t.model(store@), idx);
                let k = offset_of(idx, contiguous_strides(self@.dims));
                assert(f.ensures((self.model(s0).elements()[k], rhs.model(s0).elements()[k]), t.model(store@).data[k]));
            }
        }
        t
    }

    /// The elementwise (Hadamard) product; `mul` multiplies two elements.
    pub fn mul_elementwise<F: Fn(T, T) -> T>(&self, store: &mut Store<T>, rhs: &Self, mul: F) -> (t: Self)
        requires
            self.wf_in(old(store)@),
            rhs.wf_in(old(store)@),
            self@.dims == rhs@.dims,
            suffix_products_fit(self@.dims),
            forall|x: T, y: T| #[trigger] mul.requires((x, y)),
        ensures
            added(old(store)@, final(store)@, t),
            zipped(mul, self.model(old(store)@), rhs.model(old(store)@), t.model(final(store)@)),
            forall|idx: Seq<int>|
                in_bounds(idx, self@.dims) ==> #[trigger] mul.ensures(
                    (self.model(old(store)@).at(idx), rhs.model(old(store)@).at(idx)),
                    t.model(final(store)@).at(idx),
                ),
    {
        self.zip_with(store, rhs, mul)
    }
}

/// The entry `(i, p)` of a matrix-shaped tensor is read at offset
/// `i * strides[3] + p * strides[4]`, inside the storage.
proof fn lemma_matrix_entry<T>(m: TensorModel<T>, i: int, p: int)
    requires
        m.wf(),
        m.is_matrix(),
        0 <= i < m.dims[3],
        0 <= p < m.dims[4],
    ensures
        offset_of(seq![0int, 0, 0, i, p], m.strides) == i * m.strides[3] + p * m.strides[4],
        0 <= i * m.strides[3],
        0 <= p * m.strides[4],
        i * m.strides[3] + p * m.strides[4] < m.data.len(),
{
    let idx = seq![0int, 0, 0, i, p];
    lemma_offset_expanded(idx, m.strides);
    assert(0 * m.strides[0] + 0 * m.strides[1] + 0 * m.strides[2] == 0);
    assert(in_bounds(idx, m.dims));
    lemma_offset_bounds(idx, m.dims, m.strides);
    lemma_positive_when_nonempty_from_index(m, idx);
    assert(0 <= i * m.strides[3]) by (nonlinear_arith)
        requires
            0 <= i,
            0 <= m.strides[3],
    ;
    assert(0 <= p * m.strides[4]) by (nonlinear_arith)
        requires
            0 <= p,
            0 <= m.strides[4],
    ;
}

impl<T: Copy> Tensor<T> {
    /// Matrix product of two matrix-shaped tensors. Every entry is computed by
    /// folding `mul_add(acc, a, b)` over a row of `self` and a column of `rhs`,
    /// starting from `zero`.
    pub fn matmul<F: Fn(T, T, T) -> T>(&self, store: &mut Store<T>, rhs: &Self, zero: T, mul_add: F) -> (t: Self)
        requires
            self.wf_in(old(store)@),
            rhs.wf_in(old(store)@),
            self.model(old(store)@).is_matrix(),
            rhs.model(old(store)@).is_matrix(),
            self@.dims[4] == rhs@.dims[3],
            self@.dims[3] * rhs@.dims[4] <= usize::MAX,
            forall|c: T, a: T, b: T| #[trigger] mul_add.requires((c, a, b)),
        ensures
            added(old(store)@, final(store)@, t),
            product(mul_add, zero, self.model(old(store)@), rhs.model(old(store)@), t.model(final(store)@)),
    {
        let ghost s0 = store@;
        let m = self.dims[3];
        let k = self.dims[4];
        let n = rhs.dims[4];
        let sa_i = self.strides[3];
        let sa_p = self.strides[4];
        let sb_p = rhs.strides[3];
        let sb_j = rhs.strides[4];

        let mut data: Vec<T> = Vec::new();
        let mut i: usize = 0;
        while i < m
            invariant
                store@ == s0,
                self.wf_in(s0),
                rhs.wf_in(s0),
                self.model(s0).is_matrix(),
                rhs.model(s0).is_matrix(),
                m == self@.dims[3],
                k == self@.dims[4],
                k == rhs@.dims[3],
                n == rhs@.dims[4],
                sa_i == self@.strides[3],
                sa_p == self@.strides[4],
                sb_p == rhs@.strides[3],
                sb_j == rhs@.strides[4],
                i <= m,
                data@.len() == i * n,
                forall|c: T, a: T, b: T| #[trigger] mul_add.requires((c, a, b)),
                forall|q: int|
                    0 <= q < data@.len() ==> #[trigger] folds_to(
                        mul_add,
                        zero,
                        self.model(s0).row(q / n as int),
                        rhs.model(s0).col(q % n as int),
                        data@[q],
                    ),
            decreases m - i,
        {
            let mut j: usize = 0;
            while j < n
                invariant
                    store@ == s0,
                    self.wf_in(s0),
                    rhs.wf_in(s0),
                    self.model(s0).is_matrix(),
                    rhs.model(s0).is_matrix(),
                    m == self@.dims[3],
                    k == self@.dims[4],
                    k == rhs@.dims[3],
                    n == rhs@.dims[4],
                    sa_i == self@.strides[3],
                    sa_p == self@.strides[4],
                    sb_p == rhs@.strides[3],
                    sb_j == rhs@.strides[4],
                    i < m,
                    j <= n,
                    data@.len() == i * n + j,
                    forall|c: T, a: T, b: T| #[trigger] mul_add.requires((c, a, b)),
                    forall|q: int|
                        0 <= q < data@.len() ==> #[trigger] folds_to(
                            mul_add,
                            zero,
                            self.model(s0).row(q / n as int),
                            rhs.model(s0).col(q % n as int),
                            data@[q],
                        ),
                decreases n - j,
            {
                let ghost a_row = self.model(s0).row(i as int);
                let ghost b_col = rhs.model(s0).col(j as int);
                let mut acc = zero;
                let ghost mut chain: Seq<T> = seq![zero];
                let mut p: usize = 0;
                while p < k
                    invariant
                        store@ == s0,
                        self.wf_in(s0),
                        rhs.wf_in(s0),
                        self.model(s0).is_matrix(),
                        rhs.model(s0).is_matrix(),
                        k == self@.dims[4],
                        k == rhs@.dims[3],
                        i < self@.dims[3],
                        j < rhs@.dims[4],
                        sa_i == self@.strides[3],
                        sa_p == self@.strides[4],
                        sb_p == rhs@.strides[3],
                        sb_j == rhs@.strides[4],
                        a_row == self.model(s0).row(i as int),
                        b_col == rhs.model(s0).col(j as int),
                        p <= k,
                        chain.len() == p + 1,
                        chain[0] == zero,
                        chain[p as int] == acc,
                        forall|c: T, a: T, b: T| #[trigger] mul_add.requires((c, a, b)),
                        forall|r: int|
                            0 <= r < p ==> #[trigger] mul_add.ensures(
                                (chain[r], a_row[r], b_col[r]),
                                chain[r + 1],
                            ),
                    decreases k - p,
                {
                    proof {
                        lemma_matrix_entry(self.model(s0), i as int, p as int);
                        lemma_matrix_entry(rhs.model(s0), p as int, j as int);
                    }
                    let a_ip = store.read(self.id, i * sa_i + p * sa_p);
                    let b_pj = store.read(rhs.id, p * sb_p + j * sb_j);
                    acc = mul_add(acc, a_ip, b_pj);
                    proof {
                        chain = chain.push(acc);
                    }
                    p += 1;
                }
                proof {
                    assert(dot_chain(mul_add, zero, a_row, b_col, chain));
                    let q = i * n + j;
                    lemma_fundamental_div_mod_converse(q as int, n as int, i as int, j as int);
                }
                data.push(acc);
                j += 1;
            }
            proof {
                assert((i + 1) * n == i * n + n) by (nonlinear_arith);
            }
            i += 1;
        }
        let mut dims = [1usize; MAX_DIMS];
        dims[MAX_DIMS - 2] = m;
        dims[MAX_DIMS - 1] = n;
        proof {
            assert(dims@ =~= seq![1usize, 1, 1, m, n]);
            assert(prod_from(dims@, 5) == 1);
            assert(prod_from(dims@, 4) == dims@[4] * prod_from(dims@, 5));
            assert(dims@[4] == n);
            assert(prod_from(dims@, 4) == n);
            assert(prod_from(dims@, 3) == m * n);
            assert(prod_from(dims@, 2) == m * n);
            assert(prod_from(dims@, 1) == m * n);
            assert(prod_from(dims@, 0) == m * n);
            assert(suffix_products_fit(dims@)) by {
                assert forall|r: int| 0 <= r <= MAX_DIMS implies #[trigger] prod_from(dims@, r)
                    <= usize::MAX by {
                    if m > 0 {
                        lemma_mul_inequality(1, m as int, n as int);
                    }
                }
            }
        }
        let strides = strides_from_contiguous(dims);
        let ndim = if self.ndim < rhs.ndim {
            rhs.ndim
        } else {
            self.ndim
        };
        let id = store.push_buffer(data);
        let t = Tensor { dims, strides, ndim, id, elem: PhantomData };
        proof {
            assert(dims@ =~= seq![1usize, 1, 1, m, n]);
            assert forall|r: int| 0 <= r < MAX_DIMS - t@.ndim implies #[trigger] t@.dims[r] == 1 by {
                if r == 3 {
                    assert(self@.dims[3] == 1);
                }
                if r == 4 {
                    assert(rhs@.dims[4] == 1);
                }
            }
            lemma_contiguous_wf(t.model(store@));
        }
        t
    }
}

impl<T> Tensor<T> {
    /// Unravel a row-major position into its multi-dimensional index.
    pub fn unravel(&self, flat: usize) -> (idx: [usize; MAX_DIMS])
        requires
            all_positive(self@.dims),
        ensures
            as_ints(idx@) == unravel_index(self@.dims, flat as int),
    {
        let ghost d = self@.dims;
        let mut idx = [0usize; MAX_DIMS];
        let mut rest = flat;
        let mut i: usize = MAX_DIMS;
        while i > 0
            invariant
                i <= MAX_DIMS,
                d == self@.dims,
                all_positive(d),
                i > 0 ==> rest == quot(d, flat as int, i - 1),
                forall|j: int| i <= j < MAX_DIMS ==> #[trigger] idx@[j] == quot(d, flat as int, j) % (
                d[j] as int),
            decreases i,
        {
            i -= 1;
            assert(d[i as int] > 0);
            idx[i] = rest % self.dims[i];
            rest = rest / self.dims[i];
        }
        assert(as_ints(idx@) =~= unravel_index(d, flat as int));
        idx
    }
}

/// In a row-major layout distinct in-bounds indices are at distinct offsets.
pub proof fn lemma_contiguous_offsets_distinct<T>(m: TensorModel<T>, i1: Seq<int>, i2: Seq<int>)
    requires
        m.wf(),
        m.contiguous(),
        in_bounds(i1, m.dims),
        in_bounds(i2, m.dims),
        i1 != i2,
    ensures
        offset_of(i1, m.strides) != offset_of(i2, m.strides),
{
    lemma_positive_when_nonempty_from_index(m, i1);
    lemma_fit_when_nonempty(m.dims);
    lemma_unravel_contiguous_offset(i1, m.dims);
    lemma_unravel_contiguous_offset(i2, m.dims);
    assert forall|i: int| 0 <= i < MAX_DIMS implies i1[i] == 0 || m.strides[i]
        == contiguous_strides(m.dims)[i] by {
        if m.dims[i] == 1 {
            assert(0 <= i1[i] < 1);
        }
    }
    lemma_offset_ignores_zero_axes(i1, m.strides, contiguous_strides(m.dims));
    assert forall|i: int| 0 <= i < MAX_DIMS implies i2[i] == 0 || m.strides[i]
        == contiguous_strides(m.dims)[i] by {
        if m.dims[i] == 1 {
            assert(0 <= i2[i] < 1);
        }
    }
    lemma_offset_ignores_zero_axes(i2, m.strides, contiguous_strides(m.dims));
}

/// An in-bounds index exists only when no dimension is empty.
pub proof fn lemma_positive_when_nonempty_from_index<T>(m: TensorModel<T>, idx: Seq<int>)
    requires
        m.wf(),
        in_bounds(idx, m.dims),
    ensures
        prod_from(m.dims, 0) > 0,
{
    assert(all_positive(m.dims)) by {
        assert forall|i: int| 0 <= i < MAX_DIMS implies #[trigger] m.dims[i] > 0 by {
            assert(0 <= idx[i] < m.dims[i]);
        }
    }
    lemma_prod_expanded(m.dims);
    assert(m.dims[0] * (m.dims[1] * (m.dims[2] * (m.dims[3] * m.dims[4]))) > 0) by (nonlinear_arith)
        requires
            m.dims[0] > 0,
            m.dims[1] > 0,
            m.dims[2] > 0,
            m.dims[3] > 0,
            m.dims[4] > 0,
    ;
}

/// Storage offsets of a tensor's elements, row-major.
pub struct Offsets {
    dims: [usize; MAX_DIMS],
    strides: [usize; MAX_DIMS],
    idx: [usize; MAX_DIMS],
    off: usize,
    remaining: usize,
}

/// One call of `next` takes the cursor `before` to `after` and returns `r`:
/// the offset of the multi-index at the cursor's row-major position while
/// offsets are left, `None` once none is.
pub open spec fn advanced(before: Offsets, after: Offsets, r: Option<usize>) -> bool {
    &&& after.wf()
    &&& after.dims() == before.dims()
    &&& after.strides() == before.strides()
    &&& before.remaining() == 0 ==> r is None && after.remaining() == 0
    &&& before.remaining() > 0 ==> {
        &&& after.remaining() == before.remaining() - 1
        &&& r == Some(offset_of(unravel_index(before.dims(), before.position()), before.strides()) as usize)
    }
}

proof fn lemma_offsets_run_from(its: Seq<Offsets>, outs: Seq<Option<usize>>, k: int)
    requires
        its.len() == outs.len() + 1,
        its[0].wf(),
        its[0].position() == 0,
        forall|j: int| 0 <= j < outs.len() ==> #[trigger] advanced(its[j], its[j + 1], outs[j]),
        0 <= k < its.len(),
    ensures
        its[k].dims() == its[0].dims(),
        its[k].strides() == its[0].strides(),
        its[k].remaining() == (if k < prod_from(its[0].dims(), 0) {
            prod_from(its[0].dims(), 0) - k
        } else {
            0
        }),
    decreases k,
{
    if k > 0 {
        lemma_offsets_run_from(its, outs, k - 1);
        let j = k - 1;
        assert(advanced(its[j], its[j + 1], outs[j]));
    }
}

/// A run of `next` calls on a fresh cursor yields, call by call, the offsets
/// of the multi-indices in row-major order, one for each element, and `None`
/// at every call after the last element; the offsets left count down to zero.
pub proof fn lemma_offsets_run(its: Seq<Offsets>, outs: Seq<Option<usize>>)
    requires
        its.len() == outs.len() + 1,
        its[0].wf(),
        its[0].position() == 0,
        forall|j: int| 0 <= j < outs.len() ==> #[trigger] advanced(its[j], its[j + 1], outs[j]),
    ensures
        forall|k: int|
            0 <= k < outs.len() ==> #[trigger] outs[k] == (if k < prod_from(its[0].dims(), 0) {
                Some(offset_of(unravel_index(its[0].dims(), k), its[0].strides()) as usize)
            } else {
                None
            }),
        forall|k: int|
            0 <= k < its.len() ==> #[trigger] its[k].remaining() == (if k < prod_from(
                its[0].dims(),
                0,
            ) {
                prod_from(its[0].dims(), 0) - k
            } else {
                0
            }),
{
    assert forall|k: int| 0 <= k < its.len() implies #[trigger] its[k].remaining() == (if k
        < prod_from(its[0].dims(), 0) {
        prod_from(its[0].dims(), 0) - k
    } else {
        0
    }) by {
        lemma_offsets_run_from(its, outs, k);
    }
    assert forall|k: int| 0 <= k < outs.len() implies #[trigger] outs[k] == (if k < prod_from(
        its[0].dims(),
        0,
    ) {
        Some(offset_of(unravel_index(its[0].dims(), k), its[0].strides()) as usize)
    } else {
        None
    }) by {
        lemma_offsets_run_from(its, outs, k);
        assert(advanced(its[k], its[k + 1], outs[k]));
    }
}

impl Offsets {
    /// The dims that are walked.
    pub closed spec fn dims(&self) -> Seq<usize> {
        self.dims@
    }

    /// The strides that turn multi-indices into offsets.
    pub closed spec fn strides(&self) -> Seq<usize> {
        self.strides@
    }

    /// How many offsets are still to come.
    pub closed spec fn remaining(&self) -> nat {
        self.remaining as nat
    }

    /// The row-major position of the next offset.
    pub open spec fn position(&self) -> int {
        prod_from(self.dims(), 0) - self.remaining()
    }

    /// The cursor sits at the multi-index of `position`, and its offset is that
    /// multi-index's offset.
    pub closed spec fn wf(&self) -> bool {
        &&& self.remaining <= prod_from(self.dims@, 0)
        &&& self.remaining > 0 ==> {
            &&& all_positive(self.dims@)
            &&& as_ints(self.idx@) == unravel_index(self.dims@, self.position())
            &&& self.off == offset_of(as_ints(self.idx@), self.strides@)
            &&& max_offset(self.dims@, self.strides@) <= usize::MAX
        }
    }

    /// The next storage offset in row-major order, if any is left.
    pub fn next(&mut self) -> (r: Option<usize>)
        requires
            old(self).wf(),
        ensures
            advanced(*old(self), *final(self), r),
    {
        if self.remaining == 0 {
            return None;
        }
        let ghost d = self.dims@;
        let ghost s = self.strides@;
        let ghost pos = self.position();
        let ghost target = unravel_index(d, pos + 1);
        proof {
            lemma_unravel_succ(d, pos);
            lemma_unravel_in_bounds(d, pos + 1);
            lemma_unravel_in_bounds(d, pos);
        }
        self.remaining -= 1;
        let current = self.off;
        let ghost rem = self.remaining;
        let mut axis: usize = MAX_DIMS;
        while axis > 0
            invariant_except_break
                0 <= axis <= MAX_DIMS,
                self.dims@ == d,
                self.strides@ == s,
                self.remaining == rem,
                all_positive(d),
                max_offset(d, s) <= usize::MAX,
                in_bounds(as_ints(self.idx@), d),
                self.off == offset_of(as_ints(self.idx@), s),
                succ_from(d, as_ints(self.idx@), axis - 1) == target,
            ensures
                self.dims@ == d,
                self.strides@ == s,
                self.remaining == rem,
                as_ints(self.idx@) == target,
                self.off == offset_of(target, s),
            decreases axis,
        {
            axis -= 1;
            let ghost before = as_ints(self.idx@);
            assert(before[axis as int] == self.idx[axis as int]);
            if self.idx[axis] + 1 < self.dims[axis] {
                let ghost after = before.update(axis as int, before[axis as int] + 1);
                proof {
                    lemma_offset_update(before, s, axis as int, before[axis as int] + 1);
                    lemma_offset_bounds(after, d, s);
                    assert((before[axis as int] + 1 - before[axis as int]) * s[axis as int]
                        == s[axis as int]) by (nonlinear_arith);
                    assert(self.off + self.strides[axis as int] <= usize::MAX);
                }
                self.idx[axis] = self.idx[axis] + 1;
                assert(as_ints(self.idx@) =~= after);
                self.off = self.off + self.strides[axis];
                break;
            }
            let ghost after = before.update(axis as int, 0);
            proof {
                lemma_offset_update(before, s, axis as int, 0);
                lemma_offset_bounds(after, d, s);
                assert(before[axis as int] == self.idx[axis as int]);
                assert((0 - before[axis as int]) * s[axis as int] == -(before[axis as int]
                    * s[axis as int])) by (nonlinear_arith);
            }
            self.off = self.off - self.idx[axis] * self.strides[axis];
            self.idx[axis] = 0;
            assert(as_ints(self.idx@) =~= after);
        }
        Some(current)
    }

    /// The exact number of offsets still to come.
    pub fn size_hint(&self) -> (r: (usize, Option<usize>))
        ensures
            r.0 == self.remaining(),
            r.1 == Some(self.remaining() as usize),
    {
        (self.remaining, Some(self.remaining))
    }
}


proof fn lemma_all_ones_prod(d: Seq<usize>, i: int)
    requires
        d.len() == MAX_DIMS,
        forall|j: int| 0 <= j < MAX_DIMS ==> #[trigger] d[j] == 1,
        0 <= i <= MAX_DIMS,
    ensures
        prod_from(d, i) == 1,
    decreases MAX_DIMS - i,
{
    if i < MAX_DIMS {
        lemma_all_ones_prod(d, i + 1);
    }
}

} // verus!
