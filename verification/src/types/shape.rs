//! Shapes, strides and offsets of tensors with at most `MAX_DIMS` dimensions.
//!
//! A shape is stored right-aligned in an array of `MAX_DIMS` entries, padded on
//! the left with dimensions of size 1.

use vstd::arithmetic::div_mod::lemma_fundamental_div_mod;
use vstd::arithmetic::div_mod::lemma_fundamental_div_mod_converse;
use vstd::arithmetic::div_mod::lemma_div_denominator;
use vstd::arithmetic::div_mod::lemma_mod_breakdown;
use vstd::arithmetic::div_mod::lemma_small_mod;
use vstd::arithmetic::mul::lemma_mul_inequality;
use vstd::prelude::*;

verus! {

/// The largest number of dimensions a tensor may have.
pub const MAX_DIMS: usize = 5;

/// Product of `d[i]`, `d[i + 1]`, ..., `d[MAX_DIMS - 1]`.
pub open spec fn prod_from(d: Seq<usize>, i: int) -> int
    decreases MAX_DIMS - i,
{
    if i >= MAX_DIMS {
        1
    } else {
        d[i] * prod_from(d, i + 1)
    }
}

/// A dimension index counted from the end when negative, resolved against `ndim`.
pub open spec fn normalized(dim: int, ndim: int) -> int {
    if dim < 0 {
        dim + ndim
    } else {
        dim
    }
}

/// Resolve a possibly negative dimension index against `ndim` dimensions.
pub fn normalize_dim(dim: isize, ndim: usize) -> (d: usize)
    requires
        ndim <= isize::MAX,
        -(ndim as int) <= dim < ndim,
    ensures
        d == normalized(dim as int, ndim as int),
        d < ndim,
        0 <= dim ==> d == dim,
        dim < 0 ==> d == dim + ndim,
{
    let n = ndim as isize;
    let d = if dim < 0 {
        dim + n
    } else {
        dim
    };
    d as usize
}


/// `shape` right-aligned in `MAX_DIMS` slots, padded on the left with ones.
pub open spec fn padded(shape: Seq<usize>) -> Seq<usize>
    recommends
        shape.len() <= MAX_DIMS,
{
    Seq::new((MAX_DIMS - shape.len()) as nat, |i: int| 1usize) + shape
}

/// Right-align a logical shape into the padded dims array.
pub fn padded_dims(shape: &[usize]) -> (dims: [usize; MAX_DIMS])
    requires
        shape@.len() <= MAX_DIMS,
    ensures
        dims@ == padded(shape@),
{
    let mut dims = [1usize; MAX_DIMS];
    let start = MAX_DIMS - shape.len();
    let mut j: usize = 0;
    while j < shape.len()
        invariant
            start + shape@.len() == MAX_DIMS,
            j <= shape@.len(),
            dims@.len() == MAX_DIMS,
            forall|i: int| 0 <= i < start ==> dims@[i] == 1,
            forall|i: int| 0 <= i < j ==> dims@[start + i] == shape@[i],
        decreases shape@.len() - j,
    {
        dims[start + j] = shape[j];
        j += 1;
    }
    assert(dims@ =~= padded(shape@));
    dims
}

/// Every suffix product of `d` fits in a `usize`.
pub open spec fn suffix_products_fit(d: Seq<usize>) -> bool {
    forall|i: int| 0 <= i <= MAX_DIMS ==> #[trigger] prod_from(d, i) <= usize::MAX
}

/// Whether every suffix product of `dims` fits in a `usize`.
pub fn products_fit(dims: &[usize; MAX_DIMS]) -> (r: bool)
    ensures
        r == suffix_products_fit(dims@),
{
    let mut p: usize = 1;
    let mut i: usize = MAX_DIMS;
    while i > 0
        invariant
            i <= MAX_DIMS,
            p == prod_from(dims@, i as int),
            forall|k: int| i <= k <= MAX_DIMS ==> #[trigger] prod_from(dims@, k) <= usize::MAX,
        decreases i,
    {
        i -= 1;
        assert(prod_from(dims@, i as int) == dims[i as int] * p);
        assert(dims[i as int] * p == p * dims[i as int]) by (nonlinear_arith);
        match p.checked_mul(dims[i]) {
            Some(q) => {
                p = q;
            },
            None => {
                assert(prod_from(dims@, i as int) > usize::MAX);
                return false;
            },
        }
    }
    true
}

/// The number of elements of a tensor with dims `dims`.
pub fn numel_of(dims: &[usize; MAX_DIMS]) -> (n: usize)
    requires
        prod_from(dims@, 0) <= usize::MAX,
    ensures
        n == prod_from(dims@, 0),
{
    let mut i: usize = 0;
    while i < MAX_DIMS
        invariant
            i <= MAX_DIMS,
            forall|k: int| 0 <= k < i ==> #[trigger] dims@[k] != 0,
        decreases MAX_DIMS - i,
    {
        if dims[i] == 0 {
            proof {
                lemma_zero_factor(dims@, 0, i as int);
            }
            return 0;
        }
        i += 1;
    }
    proof {
        assert(all_positive(dims@));
        lemma_prod_from_pos(dims@, 0);
        lemma_fit_when_nonempty(dims@);
    }
    dims_product(dims)
}

/// Whether two dims arrays are equal.
pub fn same_dims(a: &[usize; MAX_DIMS], b: &[usize; MAX_DIMS]) -> (r: bool)
    ensures
        r == (a@ == b@),
{
    let mut i: usize = 0;
    while i < MAX_DIMS
        invariant
            i <= MAX_DIMS,
            forall|k: int| 0 <= k < i ==> a@[k] == b@[k],
        decreases MAX_DIMS - i,
    {
        if a[i] != b[i] {
            return false;
        }
        i += 1;
    }
    assert(a@ =~= b@);
    true
}

/// The strides of a row-major (contiguous) layout of `d`.
pub open spec fn contiguous_strides(d: Seq<usize>) -> Seq<usize> {
    Seq::new(MAX_DIMS as nat, |i: int| prod_from(d, i + 1) as usize)
}

/// Calculate the strides from a tensor with a contiguous layout.
pub fn strides_from_contiguous(dims: [usize; MAX_DIMS]) -> (strides: [usize; MAX_DIMS])
    requires
        forall|i: int| 1 <= i <= MAX_DIMS ==> #[trigger] prod_from(dims@, i) <= usize::MAX,
    ensures
        strides@ == contiguous_strides(dims@),
{
    let mut strides = [1usize; MAX_DIMS];
    let mut i: usize = MAX_DIMS - 1;
    assert(prod_from(dims@, MAX_DIMS as int) == 1);
    while i > 0
        invariant
            0 <= i < MAX_DIMS,
            forall|k: int| 1 <= k <= MAX_DIMS ==> #[trigger] prod_from(dims@, k) <= usize::MAX,
            strides@.len() == MAX_DIMS,
            forall|j: int| i <= j < MAX_DIMS ==> strides@[j] == prod_from(dims@, j + 1),
        decreases i,
    {
        let ghost p = prod_from(dims@, i as int);
        assert(p == dims@[i as int] * prod_from(dims@, i + 1));
        assert(p <= usize::MAX);
        assert(strides[i as int] * dims[i as int] == p) by (nonlinear_arith)
            requires
                strides[i as int] == prod_from(dims@, i + 1),
                p == dims@[i as int] * prod_from(dims@, i + 1),
                dims[i as int] == dims@[i as int],
        ;
        strides[i - 1] = strides[i] * dims[i];
        i -= 1;
    }
    assert(strides@ =~= contiguous_strides(dims@));
    strides
}


/// A sequence of machine indices read as mathematical integers.
pub open spec fn as_ints(s: Seq<usize>) -> Seq<int> {
    s.map_values(|x: usize| x as int)
}

/// `idx[i] * s[i] + ... + idx[MAX_DIMS - 1] * s[MAX_DIMS - 1]`.
pub open spec fn dot_from(idx: Seq<int>, s: Seq<usize>, i: int) -> int
    decreases MAX_DIMS - i,
{
    if i >= MAX_DIMS {
        0
    } else {
        idx[i] * s[i] + dot_from(idx, s, i + 1)
    }
}

/// Storage offset of the multi-index `idx` under strides `s`.
pub open spec fn offset_of(idx: Seq<int>, s: Seq<usize>) -> int {
    dot_from(idx, s, 0)
}

/// The multi-index of the last element of a tensor with dims `d`.
pub open spec fn last_index(d: Seq<usize>) -> Seq<int> {
    Seq::new(MAX_DIMS as nat, |i: int| d[i] - 1)
}

/// The largest storage offset reached by a tensor with dims `d` and strides `s`.
pub open spec fn max_offset(d: Seq<usize>, s: Seq<usize>) -> int {
    offset_of(last_index(d), s)
}

/// `idx` is a multi-index inside dims `d`.
pub open spec fn in_bounds(idx: Seq<int>, d: Seq<usize>) -> bool {
    &&& idx.len() == MAX_DIMS
    &&& forall|i: int| 0 <= i < MAX_DIMS ==> 0 <= #[trigger] idx[i] < d[i]
}

/// No dimension is empty.
pub open spec fn all_positive(d: Seq<usize>) -> bool {
    forall|i: int| 0 <= i < MAX_DIMS ==> #[trigger] d[i] > 0
}

/// The quotient left over for axis `i` when the row-major position `flat`
/// is split into a multi-index, last axis first.
pub open spec fn quot(d: Seq<usize>, flat: int, i: int) -> int
    decreases MAX_DIMS - 1 - i,
{
    if i >= MAX_DIMS - 1 {
        flat
    } else {
        quot(d, flat, i + 1) / (d[i + 1] as int)
    }
}

/// The multi-index at row-major position `flat` in a tensor with dims `d`.
pub open spec fn unravel_index(d: Seq<usize>, flat: int) -> Seq<int> {
    Seq::new(MAX_DIMS as nat, |i: int| quot(d, flat, i) % (d[i] as int))
}

/// The row-major successor of `idx`, carrying from axis `a` towards axis 0.
/// The successor of the last index wraps around to the first.
pub open spec fn succ_from(d: Seq<usize>, idx: Seq<int>, a: int) -> Seq<int>
    decreases a + 1,
{
    if a < 0 {
        idx
    } else if idx[a] + 1 < d[a] {
        idx.update(a, idx[a] + 1)
    } else {
        succ_from(d, idx.update(a, 0), a - 1)
    }
}

pub proof fn lemma_dot_from_update(idx: Seq<int>, s: Seq<usize>, i: int, a: int, v: int)
    requires
        0 <= i <= MAX_DIMS,
        0 <= a < MAX_DIMS,
        idx.len() == MAX_DIMS,
    ensures
        dot_from(idx.update(a, v), s, i) == dot_from(idx, s, i) + (if i <= a {
            (v - idx[a]) * s[a]
        } else {
            0
        }),
    decreases MAX_DIMS - i,
{
    if i < MAX_DIMS {
        lemma_dot_from_update(idx, s, i + 1, a, v);
        if i == a {
            assert(v * s[a] == idx[a] * s[a] + (v - idx[a]) * s[a]) by (nonlinear_arith);
        }
    }
}

/// Changing one entry of a multi-index moves its offset by the change times the stride.
pub proof fn lemma_offset_update(idx: Seq<int>, s: Seq<usize>, a: int, v: int)
    requires
        0 <= a < MAX_DIMS,
        idx.len() == MAX_DIMS,
    ensures
        offset_of(idx.update(a, v), s) == offset_of(idx, s) + (v - idx[a]) * s[a],
{
    lemma_dot_from_update(idx, s, 0, a, v);
}

pub proof fn lemma_dot_from_bounds(idx: Seq<int>, d: Seq<usize>, s: Seq<usize>, i: int)
    requires
        0 <= i <= MAX_DIMS,
        in_bounds(idx, d),
        d.len() == MAX_DIMS,
    ensures
        0 <= dot_from(idx, s, i) <= dot_from(last_index(d), s, i),
    decreases MAX_DIMS - i,
{
    if i < MAX_DIMS {
        lemma_dot_from_bounds(idx, d, s, i + 1);
        lemma_mul_inequality(idx[i], d[i] - 1, s[i] as int);
        assert(0 <= idx[i] * s[i]) by (nonlinear_arith)
            requires
                0 <= idx[i],
                0 <= s[i],
        ;
    }
}

/// Every multi-index inside the dims lands between offset 0 and the largest offset.
pub proof fn lemma_offset_bounds(idx: Seq<int>, d: Seq<usize>, s: Seq<usize>)
    requires
        in_bounds(idx, d),
        d.len() == MAX_DIMS,
    ensures
        0 <= offset_of(idx, s) <= max_offset(d, s),
{
    lemma_dot_from_bounds(idx, d, s, 0);
}

/// Row-major positions unravel to multi-indices inside the dims.
pub proof fn lemma_unravel_in_bounds(d: Seq<usize>, flat: int)
    requires
        d.len() == MAX_DIMS,
        all_positive(d),
    ensures
        in_bounds(unravel_index(d, flat), d),
{
    assert forall|i: int| 0 <= i < MAX_DIMS implies 0 <= #[trigger] unravel_index(d, flat)[i] < d[i] by {
        assert(d[i] > 0);
    }
}

/// Position 0 unravels to the all-zero multi-index.
pub proof fn lemma_unravel_zero(d: Seq<usize>)
    requires
        d.len() == MAX_DIMS,
        all_positive(d),
    ensures
        unravel_index(d, 0) == Seq::new(MAX_DIMS as nat, |i: int| 0int),
{
    assert(d[4] > 0 && d[3] > 0 && d[2] > 0 && d[1] > 0 && d[0] > 0);
    assert(quot(d, 0, 4) == 0);
    assert(quot(d, 0, 3) == 0);
    assert(quot(d, 0, 2) == 0);
    assert(quot(d, 0, 1) == 0);
    assert(quot(d, 0, 0) == 0);
    assert forall|i: int| 0 <= i < MAX_DIMS implies #[trigger] unravel_index(d, 0)[i] == 0 by {
        assert(quot(d, 0, i) == 0);
    }
    assert(unravel_index(d, 0) =~= Seq::new(MAX_DIMS as nat, |i: int| 0int));
}

proof fn lemma_succ_mod(x: int, d: int)
    requires
        x >= 0,
        d > 0,
    ensures
        x % d + 1 < d ==> (x + 1) % d == x % d + 1 && (x + 1) / d == x / d,
        x % d + 1 >= d ==> (x + 1) % d == 0 && (x + 1) / d == x / d + 1,
{
    lemma_fundamental_div_mod(x, d);
    let q = x / d;
    let r = x % d;
    assert(x == q * d + r) by (nonlinear_arith)
        requires
            x == d * q + r,
    ;
    if r + 1 < d {
        lemma_fundamental_div_mod_converse(x + 1, d, q, r + 1);
    } else {
        assert(x + 1 == (q + 1) * d + 0) by (nonlinear_arith)
            requires
                x == q * d + r,
                r == d - 1,
        ;
        lemma_fundamental_div_mod_converse(x + 1, d, q + 1, 0);
    }
}

proof fn lemma_quot_nonneg(d: Seq<usize>, flat: int, i: int)
    requires
        flat >= 0,
        d.len() == MAX_DIMS,
        all_positive(d),
        0 <= i < MAX_DIMS,
    ensures
        quot(d, flat, i) >= 0,
    decreases MAX_DIMS - 1 - i,
{
    if i < MAX_DIMS - 1 {
        lemma_quot_nonneg(d, flat, i + 1);
        assert(d[i + 1] > 0);
    }
}

proof fn lemma_quot_agree_below(d: Seq<usize>, f1: int, f2: int, a: int, i: int)
    requires
        i <= a < MAX_DIMS,
        quot(d, f1, a) == quot(d, f2, a),
    ensures
        quot(d, f1, i) == quot(d, f2, i),
    decreases a - i,
{
    if i < a {
        lemma_quot_agree_below(d, f1, f2, a, i + 1);
    }
}

proof fn lemma_succ_from_unravel(d: Seq<usize>, k: int, idx: Seq<int>, a: int)
    requires
        d.len() == MAX_DIMS,
        all_positive(d),
        k >= 0,
        0 <= a < MAX_DIMS,
        idx.len() == MAX_DIMS,
        forall|j: int| 0 <= j <= a ==> idx[j] == #[trigger] unravel_index(d, k)[j],
        forall|j: int| #![trigger idx[j]] a < j < MAX_DIMS ==> idx[j] == 0,
        forall|j: int| a < j < MAX_DIMS ==> #[trigger] unravel_index(d, k + 1)[j] == 0,
        quot(d, k + 1, a) == quot(d, k, a) + 1,
    ensures
        succ_from(d, idx, a) == unravel_index(d, k + 1),
    decreases a,
{
    let x = quot(d, k, a);
    let da = d[a] as int;
    lemma_quot_nonneg(d, k, a);
    lemma_succ_mod(x, da);
    assert(unravel_index(d, k)[a] == x % da);
    assert(idx[a] == x % da);
    let target = unravel_index(d, k + 1);
    if x % da + 1 < da {
        let res = idx.update(a, idx[a] + 1);
        assert(succ_from(d, idx, a) == res);
        if a > 0 {
            assert(quot(d, k + 1, a - 1) == quot(d, k, a - 1));
            assert forall|j: int| 0 <= j < a implies quot(d, k + 1, j) == quot(d, k, j) by {
                lemma_quot_agree_below(d, k + 1, k, a - 1, j);
            }
        }
        assert forall|j: int| 0 <= j < MAX_DIMS implies res[j] == target[j] by {
            if j < a {
                assert(unravel_index(d, k)[j] == quot(d, k, j) % (d[j] as int));
            }
        }
        assert(res =~= target);
    } else {
        let next = idx.update(a, 0);
        assert(succ_from(d, idx, a) == succ_from(d, next, a - 1));
        assert(target[a] == 0);
        if a == 0 {
            assert(next =~= target);
        } else {
            assert(quot(d, k + 1, a - 1) == quot(d, k + 1, a) / da);
            assert forall|j: int| 0 <= j <= a - 1 implies next[j] == #[trigger] unravel_index(
                d,
                k,
            )[j] by {
                assert(idx[j] == unravel_index(d, k)[j]);
            }
            assert forall|j: int| a - 1 < j < MAX_DIMS implies #[trigger] next[j] == 0 by {
                if j > a {
                    assert(idx[j] == 0);
                }
            }
            lemma_succ_from_unravel(d, k, next, a - 1);
        }
    }
}

/// Stepping a row-major multi-index to its successor moves one position forward.
pub proof fn lemma_unravel_succ(d: Seq<usize>, k: int)
    requires
        d.len() == MAX_DIMS,
        all_positive(d),
        k >= 0,
    ensures
        succ_from(d, unravel_index(d, k), MAX_DIMS - 1) == unravel_index(d, k + 1),
{
    lemma_succ_from_unravel(d, k, unravel_index(d, k), MAX_DIMS - 1);
}


pub proof fn lemma_prod_from_pos(d: Seq<usize>, i: int)
    requires
        d.len() == MAX_DIMS,
        all_positive(d),
        0 <= i <= MAX_DIMS,
    ensures
        prod_from(d, i) >= 1,
    decreases MAX_DIMS - i,
{
    if i < MAX_DIMS {
        lemma_prod_from_pos(d, i + 1);
        assert(d[i] > 0);
        lemma_mul_inequality(1, d[i] as int, prod_from(d, i + 1));
    }
}

proof fn lemma_quot_is_div(d: Seq<usize>, k: int, i: int)
    requires
        d.len() == MAX_DIMS,
        all_positive(d),
        k >= 0,
        0 <= i < MAX_DIMS,
    ensures
        quot(d, k, i) == k / prod_from(d, i + 1),
    decreases MAX_DIMS - 1 - i,
{
    if i < MAX_DIMS - 1 {
        lemma_quot_is_div(d, k, i + 1);
        lemma_prod_from_pos(d, i + 2);
        assert(d[i + 1] > 0);
        lemma_div_denominator(k, prod_from(d, i + 2), d[i + 1] as int);
        assert(prod_from(d, i + 1) == prod_from(d, i + 2) * d[i + 1]) by (nonlinear_arith)
            requires
                prod_from(d, i + 1) == d[i + 1] * prod_from(d, i + 2),
        ;
    } else {
        assert(prod_from(d, MAX_DIMS as int) == 1);
    }
}

proof fn lemma_contiguous_dot(d: Seq<usize>, k: int, i: int)
    requires
        d.len() == MAX_DIMS,
        all_positive(d),
        suffix_products_fit(d),
        k >= 0,
        0 <= i <= MAX_DIMS,
    ensures
        dot_from(unravel_index(d, k), contiguous_strides(d), i) == k % prod_from(d, i),
    decreases MAX_DIMS - i,
{
    if i < MAX_DIMS {
        lemma_contiguous_dot(d, k, i + 1);
        lemma_prod_from_pos(d, i + 1);
        lemma_quot_is_div(d, k, i);
        let p = prod_from(d, i + 1);
        assert(p <= usize::MAX);
        assert(contiguous_strides(d)[i] == p);
        assert(d[i] > 0);
        lemma_mod_breakdown(k, p, d[i] as int);
        assert(prod_from(d, i) == p * d[i]) by (nonlinear_arith)
            requires
                prod_from(d, i) == d[i] * p,
        ;
        assert(unravel_index(d, k)[i] * p == p * ((k / p) % (d[i] as int))) by (nonlinear_arith)
            requires
                unravel_index(d, k)[i] == (k / p) % (d[i] as int),
        ;
    } else {
        assert(k % 1 == 0);
    }
}

/// In a row-major layout the element at row-major position `k` is stored at offset `k`.
pub proof fn lemma_contiguous_offset(d: Seq<usize>, k: int)
    requires
        d.len() == MAX_DIMS,
        suffix_products_fit(d),
        0 <= k < prod_from(d, 0),
    ensures
        offset_of(unravel_index(d, k), contiguous_strides(d)) == k,
{
    lemma_positive_when_nonempty(d);
    lemma_contiguous_dot(d, k, 0);
    lemma_small_mod(k as nat, prod_from(d, 0) as nat);
}

proof fn lemma_contiguous_last_dot(d: Seq<usize>, i: int)
    requires
        d.len() == MAX_DIMS,
        all_positive(d),
        suffix_products_fit(d),
        0 <= i <= MAX_DIMS,
    ensures
        dot_from(last_index(d), contiguous_strides(d), i) == prod_from(d, i) - 1,
    decreases MAX_DIMS - i,
{
    if i < MAX_DIMS {
        lemma_contiguous_last_dot(d, i + 1);
        let p = prod_from(d, i + 1);
        lemma_prod_from_pos(d, i + 1);
        assert(p <= usize::MAX);
        assert(contiguous_strides(d)[i] == p);
        assert((d[i] - 1) * p + (p - 1) == d[i] * p - 1) by (nonlinear_arith);
    }
}

/// A non-empty tensor has no empty dimension.
pub proof fn lemma_positive_when_nonempty(d: Seq<usize>)
    requires
        d.len() == MAX_DIMS,
        prod_from(d, 0) > 0,
    ensures
        all_positive(d),
{
    assert forall|i: int| 0 <= i < MAX_DIMS implies #[trigger] d[i] > 0 by {
        if d[i] == 0 {
            lemma_zero_factor(d, 0, i);
        }
    }
}

proof fn lemma_zero_factor(d: Seq<usize>, i: int, j: int)
    requires
        0 <= i <= j < MAX_DIMS,
        d.len() == MAX_DIMS,
        d[j] == 0,
    ensures
        prod_from(d, i) == 0,
    decreases j - i,
{
    if i < j {
        lemma_zero_factor(d, i + 1, j);
    }
}

/// The largest offset of a non-empty row-major layout is one less than its size.
pub proof fn lemma_contiguous_max_offset(d: Seq<usize>)
    requires
        d.len() == MAX_DIMS,
        suffix_products_fit(d),
        prod_from(d, 0) > 0,
    ensures
        max_offset(d, contiguous_strides(d)) == prod_from(d, 0) - 1,
{
    lemma_positive_when_nonempty(d);
    lemma_contiguous_last_dot(d, 0);
}


/// Product of all dims, computed right to left.
pub fn dims_product(dims: &[usize; MAX_DIMS]) -> (p: usize)
    requires
        suffix_products_fit(dims@),
    ensures
        p == prod_from(dims@, 0),
{
    let mut p: usize = 1;
    let mut i: usize = MAX_DIMS;
    assert(prod_from(dims@, MAX_DIMS as int) == 1);
    while i > 0
        invariant
            0 <= i <= MAX_DIMS,
            suffix_products_fit(dims@),
            p == prod_from(dims@, i as int),
        decreases i,
    {
        i -= 1;
        let ghost q = prod_from(dims@, i as int);
        assert(q <= usize::MAX);
        assert(p * dims[i as int] == q) by (nonlinear_arith)
            requires
                p == prod_from(dims@, i + 1),
                q == dims@[i as int] * prod_from(dims@, i + 1),
                dims[i as int] == dims@[i as int],
        ;
        p = p * dims[i];
    }
    p
}

/// The first `i` dims are all 1.
pub proof fn lemma_prod_from_leading_ones(d: Seq<usize>, i: int)
    requires
        d.len() == MAX_DIMS,
        0 <= i <= MAX_DIMS,
        forall|j: int| 0 <= j < i ==> #[trigger] d[j] == 1,
    ensures
        prod_from(d, 0) == prod_from(d, i),
    decreases i,
{
    if i > 0 {
        lemma_prod_from_leading_ones(d, i - 1);
        assert(prod_from(d, i - 1) == d[i - 1] * prod_from(d, i));
    }
}

/// A non-empty tensor whose size fits in a `usize` has all suffix products fitting too.
pub proof fn lemma_fit_when_nonempty(d: Seq<usize>)
    requires
        d.len() == MAX_DIMS,
        0 < prod_from(d, 0) <= usize::MAX,
    ensures
        suffix_products_fit(d),
{
    lemma_positive_when_nonempty(d);
    assert forall|i: int| 0 <= i <= MAX_DIMS implies #[trigger] prod_from(d, i) <= usize::MAX by {
        lemma_prod_from_monotone(d, i);
    }
}

proof fn lemma_prod_from_monotone(d: Seq<usize>, i: int)
    requires
        d.len() == MAX_DIMS,
        all_positive(d),
        0 <= i <= MAX_DIMS,
    ensures
        prod_from(d, i) <= prod_from(d, 0),
    decreases i,
{
    if i > 0 {
        lemma_prod_from_monotone(d, i - 1);
        lemma_prod_from_pos(d, i);
        assert(d[i - 1] > 0);
        lemma_mul_inequality(1, d[i - 1] as int, prod_from(d, i));
    }
}

/// The five dims multiplied out.
pub proof fn lemma_prod_expanded(d: Seq<usize>)
    requires
        d.len() == MAX_DIMS,
    ensures
        prod_from(d, 0) == d[0] * (d[1] * (d[2] * (d[3] * d[4]))),
{
    assert(prod_from(d, 5) == 1);
    assert(prod_from(d, 4) == d[4]);
    assert(prod_from(d, 3) == d[3] * d[4]);
    assert(prod_from(d, 2) == d[2] * (d[3] * d[4]));
    assert(prod_from(d, 1) == d[1] * (d[2] * (d[3] * d[4])));
}

/// The offset written out as five products.
pub proof fn lemma_offset_expanded(idx: Seq<int>, s: Seq<usize>)
    requires
        idx.len() == MAX_DIMS,
        s.len() == MAX_DIMS,
    ensures
        offset_of(idx, s) == idx[0] * s[0] + idx[1] * s[1] + idx[2] * s[2] + idx[3] * s[3] + idx[4]
            * s[4],
{
    assert(dot_from(idx, s, 5) == 0);
    assert(dot_from(idx, s, 4) == idx[4] * s[4]);
    assert(dot_from(idx, s, 3) == idx[3] * s[3] + idx[4] * s[4]);
    assert(dot_from(idx, s, 2) == idx[2] * s[2] + idx[3] * s[3] + idx[4] * s[4]);
    assert(dot_from(idx, s, 1) == idx[1] * s[1] + idx[2] * s[2] + idx[3] * s[3] + idx[4] * s[4]);
}

/// The offset depends only on the strides of axes where the index is non-zero.
pub proof fn lemma_offset_ignores_zero_axes(idx: Seq<int>, s1: Seq<usize>, s2: Seq<usize>)
    requires
        idx.len() == MAX_DIMS,
        s1.len() == MAX_DIMS,
        s2.len() == MAX_DIMS,
        forall|i: int| 0 <= i < MAX_DIMS ==> idx[i] == 0 || s1[i] == s2[i],
    ensures
        offset_of(idx, s1) == offset_of(idx, s2),
{
    lemma_offset_expanded(idx, s1);
    lemma_offset_expanded(idx, s2);
    assert forall|i: int| 0 <= i < MAX_DIMS implies idx[i] * s1[i] == idx[i] * s2[i] by {
        if idx[i] == 0 {
            assert(idx[i] * s1[i] == 0 && idx[i] * s2[i] == 0);
        }
    }
    assert(idx[0] * s1[0] == idx[0] * s2[0]);
    assert(idx[1] * s1[1] == idx[1] * s2[1]);
    assert(idx[2] * s1[2] == idx[2] * s2[2]);
    assert(idx[3] * s1[3] == idx[3] * s2[3]);
    assert(idx[4] * s1[4] == idx[4] * s2[4]);
}


/// `s` with the entries at `a` and `b` exchanged.
pub open spec fn swapped<A>(s: Seq<A>, a: int, b: int) -> Seq<A> {
    s.update(a, s[b]).update(b, s[a])
}

/// Exchanging two axes of both the index and the strides keeps the offset.
pub proof fn lemma_offset_swapped(idx: Seq<int>, s: Seq<usize>, a: int, b: int)
    requires
        idx.len() == MAX_DIMS,
        s.len() == MAX_DIMS,
        0 <= a < MAX_DIMS,
        0 <= b < MAX_DIMS,
    ensures
        offset_of(swapped(idx, a, b), swapped(s, a, b)) == offset_of(idx, s),
{
    let i2 = swapped(idx, a, b);
    let s2 = swapped(s, a, b);
    lemma_offset_expanded(idx, s);
    lemma_offset_expanded(i2, s2);
    assert forall|i: int| 0 <= i < MAX_DIMS implies #[trigger] (i2[i] * s2[i]) == (if i == a {
        idx[b] * s[b]
    } else if i == b {
        idx[a] * s[a]
    } else {
        idx[i] * s[i]
    }) by {}
    assert(i2[0] * s2[0] + i2[1] * s2[1] + i2[2] * s2[2] + i2[3] * s2[3] + i2[4] * s2[4] == idx[0]
        * s[0] + idx[1] * s[1] + idx[2] * s[2] + idx[3] * s[3] + idx[4] * s[4]) by {
        assert(i2[0] * s2[0] == (if 0 == a { idx[b] * s[b] } else if 0 == b { idx[a] * s[a] } else { idx[0] * s[0] }));
        assert(i2[1] * s2[1] == (if 1 == a { idx[b] * s[b] } else if 1 == b { idx[a] * s[a] } else { idx[1] * s[1] }));
        assert(i2[2] * s2[2] == (if 2 == a { idx[b] * s[b] } else if 2 == b { idx[a] * s[a] } else { idx[2] * s[2] }));
        assert(i2[3] * s2[3] == (if 3 == a { idx[b] * s[b] } else if 3 == b { idx[a] * s[a] } else { idx[3] * s[3] }));
        assert(i2[4] * s2[4] == (if 4 == a { idx[b] * s[b] } else if 4 == b { idx[a] * s[a] } else { idx[4] * s[4] }));
    }
}

proof fn lemma_prod_update(d: Seq<usize>, i: int, a: int, x: usize)
    requires
        d.len() == MAX_DIMS,
        0 <= i <= MAX_DIMS,
        0 <= a < MAX_DIMS,
    ensures
        i <= a ==> prod_from(d.update(a, x), i) * d[a] == prod_from(d, i) * x,
        i > a ==> prod_from(d.update(a, x), i) == prod_from(d, i),
    decreases MAX_DIMS - i,
{
    if i < MAX_DIMS {
        lemma_prod_update(d, i + 1, a, x);
        let d2 = d.update(a, x);
        let p2 = prod_from(d2, i + 1);
        let p = prod_from(d, i + 1);
        if i == a {
            assert(p2 == p);
            assert((x * p2) * d[a] == (d[a] * p) * x) by (nonlinear_arith)
                requires
                    p2 == p,
            ;
        } else if i < a {
            assert(d2[i] == d[i]);
            assert((d[i] * p2) * d[a] == (d[i] * p) * x) by (nonlinear_arith)
                requires
                    p2 * d[a] == p * x,
            ;
        }
    }
}

proof fn lemma_zero_dim_prod(d: Seq<usize>, a: int)
    requires
        d.len() == MAX_DIMS,
        0 <= a < MAX_DIMS,
        d[a] == 0,
    ensures
        prod_from(d, 0) == 0,
{
    lemma_prod_expanded(d);
    assert(d[0] * (d[1] * (d[2] * (d[3] * d[4]))) == 0) by (nonlinear_arith)
        requires
            d[0] == 0 || d[1] == 0 || d[2] == 0 || d[3] == 0 || d[4] == 0,
    {}
}

/// Exchanging two dims keeps the number of elements.
pub proof fn lemma_prod_swapped(d: Seq<usize>, a: int, b: int)
    requires
        d.len() == MAX_DIMS,
        0 <= a < MAX_DIMS,
        0 <= b < MAX_DIMS,
    ensures
        prod_from(swapped(d, a, b), 0) == prod_from(d, 0),
{
    if a != b {
        let d1 = d.update(a, d[b]);
        let d2 = d1.update(b, d[a]);
        assert(swapped(d, a, b) == d2);
        lemma_prod_update(d, 0, a, d[b]);
        lemma_prod_update(d1, 0, b, d[a]);
        assert(d1[b] == d[b]);
        if d[b] == 0 {
            lemma_zero_dim_prod(d, b);
            assert(d2[a] == 0);
            lemma_zero_dim_prod(d2, a);
        } else {
            assert(prod_from(d2, 0) * d[b] == prod_from(d, 0) * d[b]);
            assert(prod_from(d2, 0) == prod_from(d, 0)) by (nonlinear_arith)
                requires
                    prod_from(d2, 0) * d[b] == prod_from(d, 0) * d[b],
                    d[b] != 0,
            ;
        }
    } else {
        assert(swapped(d, a, b) =~= d);
    }
}


/// Tensors with fewer than two dims are treated as matrices.
pub open spec fn matrix_ndim(ndim: nat) -> nat {
    if ndim < 2 {
        2
    } else {
        ndim
    }
}


/// `new` is `old` with the entries in `lo..hi` moved one slot to the left,
/// dropping `old[lo - 1]`; `new[hi - 1]` is left open.
pub open spec fn moved_left<A>(old: Seq<A>, new: Seq<A>, lo: int, hi: int) -> bool {
    &&& old.len() == MAX_DIMS
    &&& new.len() == MAX_DIMS
    &&& 1 <= lo <= hi <= MAX_DIMS
    &&& forall|i: int| 0 <= i < lo - 1 ==> #[trigger] new[i] == old[i]
    &&& forall|i: int| lo - 1 <= i < hi - 1 ==> #[trigger] new[i] == old[i + 1]
    &&& forall|i: int| hi <= i < MAX_DIMS ==> #[trigger] new[i] == old[i]
}

proof fn lemma_moved_left_prod_from(old: Seq<usize>, new: Seq<usize>, lo: int, hi: int, i: int)
    requires
        moved_left(old, new, lo, hi),
        old[lo - 1] == 1,
        new[hi - 1] == 1,
        0 <= i <= MAX_DIMS,
    ensures
        i >= hi ==> prod_from(new, i) == prod_from(old, i),
        lo - 1 <= i < hi ==> prod_from(new, i) == prod_from(old, i + 1),
        i < lo ==> prod_from(new, i) == prod_from(old, i),
    decreases MAX_DIMS - i,
{
    if i < MAX_DIMS {
        lemma_moved_left_prod_from(old, new, lo, hi, i + 1);
        if i >= hi {
            assert(new[i] == old[i]);
        } else if i == hi - 1 {
        } else if i >= lo - 1 {
            assert(new[i] == old[i + 1]);
        }
        if i < lo - 1 {
            assert(new[i] == old[i]);
        }
        if i == lo - 1 {
            assert(prod_from(old, i) == old[i] * prod_from(old, i + 1));
        }
    }
}

/// Moving dims one slot while dropping and adding a dim of size 1 keeps the number of elements.
pub proof fn lemma_moved_left_prod(old: Seq<usize>, new: Seq<usize>, lo: int, hi: int)
    requires
        moved_left(old, new, lo, hi),
        old[lo - 1] == 1,
        new[hi - 1] == 1,
    ensures
        prod_from(new, 0) == prod_from(old, 0),
{
    lemma_moved_left_prod_from(old, new, lo, hi, 0);
}

proof fn lemma_moved_left_dot_from(
    iold: Seq<int>,
    inew: Seq<int>,
    sold: Seq<usize>,
    snew: Seq<usize>,
    lo: int,
    hi: int,
    i: int,
)
    requires
        moved_left(iold, inew, lo, hi),
        moved_left(sold, snew, lo, hi),
        iold[lo - 1] == 0,
        inew[hi - 1] == 0,
        0 <= i <= MAX_DIMS,
    ensures
        i >= hi ==> dot_from(inew, snew, i) == dot_from(iold, sold, i),
        lo - 1 <= i < hi ==> dot_from(inew, snew, i) == dot_from(iold, sold, i + 1),
        i < lo ==> dot_from(inew, snew, i) == dot_from(iold, sold, i),
    decreases MAX_DIMS - i,
{
    if i < MAX_DIMS {
        lemma_moved_left_dot_from(iold, inew, sold, snew, lo, hi, i + 1);
        if i >= hi {
            assert(inew[i] == iold[i] && snew[i] == sold[i]);
        } else if i == hi - 1 {
            assert(inew[i] * snew[i] == 0);
        } else if i >= lo - 1 {
            assert(inew[i] == iold[i + 1] && snew[i] == sold[i + 1]);
        }
        if i < lo - 1 {
            assert(inew[i] == iold[i] && snew[i] == sold[i]);
        }
        if i == lo - 1 {
            assert(iold[i] * sold[i] == 0);
        }
    }
}

/// Moving axes one slot while dropping and adding an axis of size 1 keeps the largest offset.
pub proof fn lemma_moved_left_max_offset(
    dold: Seq<usize>,
    dnew: Seq<usize>,
    sold: Seq<usize>,
    snew: Seq<usize>,
    lo: int,
    hi: int,
)
    requires
        moved_left(dold, dnew, lo, hi),
        moved_left(sold, snew, lo, hi),
        dold[lo - 1] == 1,
        dnew[hi - 1] == 1,
    ensures
        max_offset(dnew, snew) == max_offset(dold, sold),
{
    let lold = last_index(dold);
    let lnew = last_index(dnew);
    assert(moved_left(lold, lnew, lo, hi)) by {
        assert forall|i: int| lo - 1 <= i < hi - 1 implies #[trigger] lnew[i] == lold[i + 1] by {
            assert(dnew[i] == dold[i + 1]);
        }
        assert forall|i: int| 0 <= i < lo - 1 implies #[trigger] lnew[i] == lold[i] by {
            assert(dnew[i] == dold[i]);
        }
        assert forall|i: int| hi <= i < MAX_DIMS implies #[trigger] lnew[i] == lold[i] by {
            assert(dnew[i] == dold[i]);
        }
    }
    lemma_moved_left_dot_from(lold, lnew, sold, snew, lo, hi, 0);
}

/// The offset of an index is unchanged when a zero entry is added in a moved layout.
pub proof fn lemma_moved_left_offset(
    iold: Seq<int>,
    inew: Seq<int>,
    sold: Seq<usize>,
    snew: Seq<usize>,
    lo: int,
    hi: int,
)
    requires
        moved_left(iold, inew, lo, hi),
        moved_left(sold, snew, lo, hi),
        iold[lo - 1] == 0,
        inew[hi - 1] == 0,
    ensures
        offset_of(inew, snew) == offset_of(iold, sold),
{
    lemma_moved_left_dot_from(iold, inew, sold, snew, lo, hi, 0);
}


/// A logical multi-index of `idx.len()` entries, padded on the left with zeros.
pub open spec fn padded_index(idx: Seq<usize>) -> Seq<int> {
    Seq::new((MAX_DIMS - idx.len()) as nat, |i: int| 0int) + as_ints(idx)
}

/// Leading zero entries of an index contribute nothing to its offset.
pub proof fn lemma_dot_from_leading_zeros(idx: Seq<int>, s: Seq<usize>, k: int)
    requires
        0 <= k <= MAX_DIMS,
        forall|j: int| 0 <= j < k ==> #[trigger] idx[j] == 0,
    ensures
        dot_from(idx, s, 0) == dot_from(idx, s, k),
    decreases k,
{
    if k > 0 {
        lemma_dot_from_leading_zeros(idx, s, k - 1);
        assert(idx[k - 1] == 0);
        assert(idx[k - 1] * s[k - 1] == 0);
    }
}


/// The multi-index `idx[0..=i]` read as a mixed-radix number with digits bounded by `d`.
pub open spec fn horner(idx: Seq<int>, d: Seq<usize>, i: int) -> int
    decreases i + 1,
{
    if i < 0 {
        0
    } else {
        horner(idx, d, i - 1) * d[i] + idx[i]
    }
}

proof fn lemma_horner_dot(idx: Seq<int>, d: Seq<usize>, i: int)
    requires
        d.len() == MAX_DIMS,
        suffix_products_fit(d),
        all_positive(d),
        -1 <= i < MAX_DIMS,
    ensures
        horner(idx, d, i) * prod_from(d, i + 1) + dot_from(idx, contiguous_strides(d), i + 1)
            == dot_from(idx, contiguous_strides(d), 0),
    decreases i + 1,
{
    let s = contiguous_strides(d);
    if i >= 0 {
        lemma_horner_dot(idx, d, i - 1);
        let p = prod_from(d, i + 1);
        lemma_prod_from_pos(d, i + 1);
        assert(p <= usize::MAX);
        assert(s[i] == p);
        let h = horner(idx, d, i - 1);
        assert((h * d[i] + idx[i]) * p == h * (d[i] * p) + idx[i] * p) by (nonlinear_arith);
    }
}

proof fn lemma_horner_bounds(idx: Seq<int>, d: Seq<usize>, i: int)
    requires
        in_bounds(idx, d),
        -1 <= i < MAX_DIMS,
    ensures
        horner(idx, d, i) >= 0,
    decreases i + 1,
{
    if i >= 0 {
        lemma_horner_bounds(idx, d, i - 1);
        let h = horner(idx, d, i - 1);
        assert(h * d[i] >= 0) by (nonlinear_arith)
            requires
                h >= 0,
                d[i] >= 0,
        ;
    }
}

proof fn lemma_quot_horner(idx: Seq<int>, d: Seq<usize>, k: int, i: int)
    requires
        in_bounds(idx, d),
        d.len() == MAX_DIMS,
        k == horner(idx, d, MAX_DIMS - 1),
        0 <= i < MAX_DIMS,
    ensures
        quot(d, k, i) == horner(idx, d, i),
    decreases MAX_DIMS - i,
{
    if i < MAX_DIMS - 1 {
        lemma_quot_horner(idx, d, k, i + 1);
        lemma_horner_bounds(idx, d, i);
        assert(0 <= idx[i + 1] < d[i + 1]);
        lemma_fundamental_div_mod_converse(
            horner(idx, d, i + 1),
            d[i + 1] as int,
            horner(idx, d, i),
            idx[i + 1],
        );
    }
}

/// In a row-major layout, the offset of an in-bounds multi-index is a
/// row-major position that unravels back to the same multi-index.
pub proof fn lemma_unravel_contiguous_offset(idx: Seq<int>, d: Seq<usize>)
    requires
        in_bounds(idx, d),
        d.len() == MAX_DIMS,
        suffix_products_fit(d),
    ensures
        0 <= offset_of(idx, contiguous_strides(d)) < prod_from(d, 0),
        unravel_index(d, offset_of(idx, contiguous_strides(d))) == idx,
{
    assert(all_positive(d)) by {
        assert forall|i: int| 0 <= i < MAX_DIMS implies #[trigger] d[i] > 0 by {
            assert(0 <= idx[i] < d[i]);
        }
    }
    let k = offset_of(idx, contiguous_strides(d));
    lemma_horner_dot(idx, d, MAX_DIMS - 1);
    assert(prod_from(d, MAX_DIMS as int) == 1);
    assert(dot_from(idx, contiguous_strides(d), MAX_DIMS as int) == 0);
    let h = horner(idx, d, MAX_DIMS - 1);
    let one = prod_from(d, MAX_DIMS as int);
    assert(h * one + 0 == k);
    assert(k == h) by (nonlinear_arith)
        requires
            h * one + 0 == k,
            one == 1,
    ;
    lemma_dot_from_bounds(idx, d, contiguous_strides(d), 0);
    lemma_contiguous_last_dot(d, 0);
    assert forall|i: int| 0 <= i < MAX_DIMS implies #[trigger] unravel_index(d, k)[i] == idx[i] by {
        lemma_quot_horner(idx, d, k, i);
        lemma_horner_bounds(idx, d, i - 1);
        assert(0 <= idx[i] < d[i]);
        lemma_fundamental_div_mod_converse(
            horner(idx, d, i),
            d[i] as int,
            horner(idx, d, i - 1),
            idx[i],
        );
    }
    assert(unravel_index(d, k) =~= idx);
}

} // verus!
