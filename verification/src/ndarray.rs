//! The dense array core: a shape plus a contiguous row-major element buffer.

use vstd::prelude::*;

use crate::error::NdArrayError;
use crate::shape::{
    block_cell, lemma_block_cell_bound,
    coords_in_bounds, dims_product, get_index, lemma_flat_eq_row_major, lemma_grid_cell_bound,
    lemma_grid_index_injective, lemma_row_major_index_in_span, grid_cell,
    lemma_prod_split_last, shape_of_dims, lemma_suffix_product_le,
    row_major_index, suffix_product, Shape,
};

verus! {

broadcast use vstd::group_vstd_default;

/// A dense n-dimensional array of `i64` elements.
///
/// The buffer holds exactly `span` elements in row-major order (the last
/// axis varies fastest); [`NdArray::wf`] states that tie.
#[derive(Clone, Debug)]
pub struct NdArray {
    /// Rank and axis lengths.
    pub shape: Shape,
    /// The elements, flattened row-major.
    pub values: Vec<i64>,
}

impl NdArray {
    /// The element buffer as a sequence.
    pub open spec fn data(&self) -> Seq<i64> {
        self.values@
    }

    /// Well-formed: the buffer length equals the shape's span.
    pub open spec fn wf(&self) -> bool {
        self.values@.len() == dims_product(self.shape.dims_spec())
    }

    /// The buffer is a real vector, so its length is bounded by the machine.
    pub proof fn lemma_data_len_bound(&self)
        ensures
            self.data().len() <= usize::MAX,
    {
        vstd::std_specs::vec::axiom_spec_len(&self.values);
    }

    /// A zero-initialized array of the given shape.
    pub fn new(shape: Shape) -> (r: NdArray)
        requires
            dims_product(shape.dims_spec()) <= usize::MAX,
        ensures
            r.wf(),
            r.shape == shape,
            r.data().len() == dims_product(shape.dims_spec()),
            forall|i: int| 0 <= i < r.data().len() ==> r.data()[i] == 0i64,
    {
        let span = shape.span();
        let values: Vec<i64> = vec![0i64; span];
        NdArray { shape, values }
    }

    /// A default-initialized array; the default element is zero.
    pub fn new_default(shape: Shape) -> (r: NdArray)
        requires
            dims_product(shape.dims_spec()) <= usize::MAX,
        ensures
            r.wf(),
            r.shape == shape,
            forall|i: int| 0 <= i < r.data().len() ==> r.data()[i] == 0i64,
    {
        NdArray::new(shape)
    }

    /// Wraps an explicit row-major buffer in the given shape; fails with
    /// `LengthMismatch` exactly when the buffer length is not the span.
    pub fn new_with_values(shape: Shape, values: Vec<i64>) -> (r: Result<NdArray, NdArrayError>)
        ensures
            match r {
                Ok(a) => {
                    &&& values@.len() == dims_product(shape.dims_spec())
                    &&& a.wf()
                    &&& a.shape == shape
                    &&& a.data() == values@
                },
                Err(e) => {
                    &&& e == NdArrayError::LengthMismatch
                    &&& values@.len() != dims_product(shape.dims_spec())
                },
            },
    {
        let len = values.len();
        match shape.span_checked() {
            Some(span) => {
                if len == span {
                    Ok(NdArray { shape, values })
                } else {
                    Err(NdArrayError::LengthMismatch)
                }
            },
            None => Err(NdArrayError::LengthMismatch),
        }
    }

    /// Wraps a buffer as a rank-1 array of its own length.
    pub fn new_vector(values: Vec<i64>) -> (r: NdArray)
        requires
            values@.len() <= u32::MAX,
        ensures
            r.wf(),
            r.shape == Shape::Vector([values@.len() as u32]),
            r.data() == values@,
    {
        let n = values.len() as u32;
        let d: [u32; 1] = [n];
        let shape = Shape::Vector(d);
        proof {
            let ds = shape.dims_spec();
            assert(ds == d@);
            assert(ds.len() == 1);
            assert(d[0] == n);
            assert(ds[0] == n);
            assert(suffix_product(ds, 0) == (ds[0] as nat) * suffix_product(ds, 1));
            assert(suffix_product(ds, 1) == 1);
            assert((ds[0] as nat) * suffix_product(ds, 1) == ds[0] as nat) by (nonlinear_arith)
                requires
                    suffix_product(ds, 1) == 1,
            ;
            assert(dims_product(ds) == n as nat);
            assert(values@.len() == n as nat);
            assert(values@.len() == dims_product(shape.dims_spec()));
        }
        NdArray { shape, values }
    }

    /// An `n` by `n` matrix holding `value` on the main diagonal and zero
    /// everywhere else.
    pub fn diagonal(n: u32, value: i64) -> (r: NdArray)
        requires
            (n as nat) * (n as nat) <= usize::MAX,
        ensures
            r.wf(),
            r.shape == Shape::Matrix([n, n]),
            forall|i: int, j: int|
                0 <= i < n && 0 <= j < n ==> #[trigger] grid_cell(r.data(), 0, n as int, i, j)
                    == (if i == j {
                    value
                } else {
                    0i64
                }),
    {
        let shape = Shape::Matrix([n, n]);
        proof {
            let ds = shape.dims_spec();
            assert(suffix_product(ds, 0) == (ds[0] as nat) * suffix_product(ds, 1));
            assert(suffix_product(ds, 1) == (ds[1] as nat) * suffix_product(ds, 2));
            assert(suffix_product(ds, 2) == 1);
            assert((ds[0] as nat) * ((ds[1] as nat) * 1) == (n as nat) * (n as nat))
                by (nonlinear_arith)
                requires
                    ds[0] == n,
                    ds[1] == n,
            ;
        }
        let mut out = NdArray::new(shape);
        proof {
            assert forall|r0: int, c0: int| 0 <= r0 < n && 0 <= c0 < n implies grid_cell(
                out.data(),
                0,
                n as int,
                r0,
                c0,
            ) == 0i64 by {
                lemma_grid_cell_bound(r0, c0, n as int, n as int);
            }
        }
        let nn = n as usize;
        let mut i: usize = 0;
        while i < nn
            invariant
                i <= nn,
                out.shape == shape,
                out.data().len() == (n as nat) * (n as nat),
                forall|r0: int, c0: int|
                    0 <= r0 < n && 0 <= c0 < n ==> #[trigger] grid_cell(
                        out.data(),
                        0,
                        n as int,
                        r0,
                        c0,
                    ) == (if r0 == c0 && r0 < i {
                        value
                    } else {
                        0i64
                    }),
            decreases nn - i,
        {
            proof {
                lemma_grid_cell_bound(i as int, i as int, n as int, n as int);
            }
            let flat = i * nn + i;
            let ghost before = out.data();
            out.values.set(flat, value);
            proof {
                assert forall|r0: int, c0: int| 0 <= r0 < n && 0 <= c0 < n implies grid_cell(
                    out.data(),
                    0,
                    n as int,
                    r0,
                    c0,
                ) == (if r0 == c0 && r0 < i + 1 {
                    value
                } else {
                    0i64
                }) by {
                    lemma_grid_cell_bound(r0, c0, n as int, n as int);
                    assert(grid_cell(before, 0, n as int, r0, c0) == (if r0 == c0 && r0 < i {
                        value
                    } else {
                        0i64
                    }));
                    if r0 * (n as int) + c0 == flat {
                        lemma_grid_index_injective(r0, c0, i as int, i as int, n as int);
                    }
                }
            }
            i = i + 1;
        }
        out
    }

    /// The elements, flattened row-major.
    pub fn as_slice(&self) -> (r: &[i64])
        ensures
            r@ == self.data(),
    {
        self.values.as_slice()
    }

    /// Mutable access to the flattened elements; the length cannot change,
    /// so well-formedness survives any writes through the slice.
    pub fn as_mut_slice(&mut self) -> (r: &mut [i64])
        ensures
            r@ == old(self).data(),
            final(self).data() == final(r)@,
            final(self).shape == old(self).shape,
    {
        self.values.as_mut_slice()
    }

    /// The number of elements.
    pub fn len(&self) -> (r: usize)
        ensures
            r == self.data().len(),
    {
        self.values.len()
    }

    /// A rendering of the array for diagnostics.
    ///
    /// Relies on std's `format!` (the `Debug` impls of the shape and of the
    /// element buffer); nothing is claimed about the text.
    #[verifier::external_body]
    pub fn to_string(&self) -> String {
        format!("NdArray({:?}) {:?}", self.shape, self.values)
    }

    /// The element that `coords` selects, or `None` when `coords` has the
    /// wrong rank or an out-of-range component.
    pub fn get(&self, coords: &[u32]) -> (r: Option<i64>)
        requires
            self.wf(),
        ensures
            match r {
                Some(v) => {
                    &&& coords_in_bounds(self.shape.dims_spec(), coords@)
                    &&& v == self.data()[row_major_index(self.shape.dims_spec(), coords@)]
                },
                None => !coords_in_bounds(self.shape.dims_spec(), coords@),
            },
    {
        proof {
            self.lemma_data_len_bound();
        }
        match flat_offset(&self.shape, coords) {
            Some(off) => Some(self.values[off]),
            None => None,
        }
    }

    /// Overwrites the element that `coords` selects; fails with
    /// `IndexOutOfBounds` (and leaves the array unchanged) exactly when the
    /// coordinates are invalid.
    pub fn set(&mut self, coords: &[u32], value: i64) -> (r: Result<(), NdArrayError>)
        requires
            old(self).wf(),
        ensures
            final(self).wf(),
            final(self).shape == old(self).shape,
            match r {
                Ok(()) => {
                    &&& coords_in_bounds(old(self).shape.dims_spec(), coords@)
                    &&& final(self).data() == old(self).data().update(
                        row_major_index(old(self).shape.dims_spec(), coords@),
                        value,
                    )
                },
                Err(e) => {
                    &&& e == NdArrayError::IndexOutOfBounds
                    &&& !coords_in_bounds(old(self).shape.dims_spec(), coords@)
                    &&& final(self).data() == old(self).data()
                },
            },
    {
        proof {
            self.lemma_data_len_bound();
        }
        match flat_offset(&self.shape, coords) {
            Some(off) => {
                self.values.set(off, value);
                Ok(())
            },
            None => Err(NdArrayError::IndexOutOfBounds),
        }
    }

    /// Replaces the whole buffer; fails with `LengthMismatch` (and leaves the
    /// array unchanged) exactly when the lengths differ.
    pub fn set_slice(&mut self, values: Vec<i64>) -> (r: Result<(), NdArrayError>)
        requires
            old(self).wf(),
        ensures
            final(self).wf(),
            final(self).shape == old(self).shape,
            match r {
                Ok(()) => {
                    &&& values@.len() == old(self).data().len()
                    &&& final(self).data() == values@
                },
                Err(e) => {
                    &&& e == NdArrayError::LengthMismatch
                    &&& values@.len() != old(self).data().len()
                    &&& final(self).data() == old(self).data()
                },
            },
    {
        if values.len() == self.values.len() {
            self.values = values;
            Ok(())
        } else {
            Err(NdArrayError::LengthMismatch)
        }
    }

    /// Replaces the shape metadata without touching the elements.
    ///
    /// The replacement is validated strictly: the new shape's span must equal
    /// the element count, else `LengthMismatch` is returned and nothing
    /// changes.
    pub fn reshape(&mut self, shape: Shape) -> (r: Result<(), NdArrayError>)
        requires
            old(self).wf(),
        ensures
            final(self).wf(),
            final(self).data() == old(self).data(),
            match r {
                Ok(()) => {
                    &&& dims_product(shape.dims_spec()) == old(self).data().len()
                    &&& final(self).shape == shape
                },
                Err(e) => {
                    &&& e == NdArrayError::LengthMismatch
                    &&& dims_product(shape.dims_spec()) != old(self).data().len()
                    &&& final(self).shape == old(self).shape
                },
            },
    {
        let len = self.values.len();
        match shape.span_checked() {
            Some(span) => {
                if span == len {
                    self.shape = shape;
                    Ok(())
                } else {
                    Err(NdArrayError::LengthMismatch)
                }
            },
            None => Err(NdArrayError::LengthMismatch),
        }
    }
}

/// Row-major flat offset of `coords` in `shape`, or `None` when the
/// coordinates are invalid for the shape.
fn flat_offset(shape: &Shape, coords: &[u32]) -> (r: Option<usize>)
    requires
        dims_product(shape.dims_spec()) <= usize::MAX,
    ensures
        match r {
            Some(off) => {
                &&& coords_in_bounds(shape.dims_spec(), coords@)
                &&& off == row_major_index(shape.dims_spec(), coords@)
                &&& off < dims_product(shape.dims_spec())
            },
            None => !coords_in_bounds(shape.dims_spec(), coords@),
        },
{
    let ghost ds = shape.dims_spec();
    let dims = shape.dims();
    if coords.len() != dims.len() {
        return None;
    }
    let mut i: usize = 0;
    while i < coords.len()
        invariant
            i <= coords@.len(),
            forall|j: int| 0 <= j < i ==> coords@[j] < ds[j],
        decreases coords.len() - i,
    {
        if coords[i] >= dims[i] {
            return None;
        }
        i = i + 1;
    }
    assert(coords_in_bounds(ds, coords@));
    proof {
        assert forall|k: int| 0 <= k <= ds.len() implies suffix_product(ds, k)
            <= usize::MAX by {
            lemma_suffix_product_le(ds, 0, k);
        }
    }
    let strides = shape.strides();
    proof {
        lemma_row_major_index_in_span(ds, coords@);
        lemma_flat_eq_row_major(ds, strides@, coords@, 0);
    }
    match get_index(dims.as_slice(), strides.as_slice(), coords) {
        Ok(off) => Some(off),
        Err(_) => {
            // Unreachable: the coordinates were already validated.
            proof {
                assert(false);
            }
            None
        },
    }
}

/// Length of one trailing-axis column: the last axis length, or 1 for a
/// scalar.
pub open spec fn col_len_spec(dims: Seq<u32>) -> nat {
    if dims.len() == 0 {
        1
    } else {
        dims[dims.len() - 1] as nat
    }
}

/// The leading axes: all but the last.
pub open spec fn leading_dims(dims: Seq<u32>) -> Seq<u32> {
    if dims.len() == 0 {
        dims
    } else {
        dims.take(dims.len() - 1)
    }
}

/// Number of trailing-axis columns: the product of the leading axes.
pub open spec fn col_count_spec(dims: Seq<u32>) -> nat {
    dims_product(leading_dims(dims))
}

/// The span splits into columns: `span == col_count * col_len`.
pub proof fn lemma_span_cols(dims: Seq<u32>)
    ensures
        dims_product(dims) == col_count_spec(dims) * col_len_spec(dims),
{
    if dims.len() == 0 {
        assert(col_count_spec(dims) * col_len_spec(dims) == 1) by (nonlinear_arith)
            requires
                col_count_spec(dims) == 1,
                col_len_spec(dims) == 1,
        ;
    } else {
        lemma_prod_split_last(dims);
    }
}

/// The product of the elements at positions `k` of two buffers.
pub open spec fn dot_term(a: Seq<i64>, b: Seq<i64>, k: int) -> int {
    a[k] * b[k]
}

/// Sum of the first `n` pairwise products.
pub open spec fn dot_prefix(a: Seq<i64>, b: Seq<i64>, n: int) -> int
    decreases n,
{
    if n <= 0 {
        0
    } else {
        dot_prefix(a, b, n - 1) + dot_term(a, b, n - 1)
    }
}

/// The flat inner product of two equally long buffers.
pub open spec fn dot_spec(a: Seq<i64>, b: Seq<i64>) -> int {
    dot_prefix(a, b, a.len() as int)
}

/// Every pairwise product and every partial sum of the inner product stays
/// within `i64` (a machine limit the caller must respect).
pub open spec fn dot_fits(a: Seq<i64>, b: Seq<i64>) -> bool {
    &&& forall|k: int| 0 <= k < a.len() ==> i64::MIN <= #[trigger] dot_term(a, b, k) <= i64::MAX
    &&& forall|n: int| 0 <= n <= a.len() ==> i64::MIN <= #[trigger] dot_prefix(a, b, n) <= i64::MAX
}

/// Sum of the first `n` elements.
pub open spec fn sum_prefix(s: Seq<i64>, n: int) -> int
    decreases n,
{
    if n <= 0 {
        0
    } else {
        sum_prefix(s, n - 1) + s[n - 1]
    }
}

/// The sum of all elements.
pub open spec fn sum_spec(s: Seq<i64>) -> int {
    sum_prefix(s, s.len() as int)
}

/// Every partial sum stays within `i64` (a machine limit the caller must
/// respect).
pub open spec fn sum_fits(s: Seq<i64>) -> bool {
    forall|n: int| 0 <= n <= s.len() ==> i64::MIN <= #[trigger] sum_prefix(s, n) <= i64::MAX
}

impl NdArray {
    /// The contiguous trailing-axis column that the leading-axis coordinates
    /// `coords` select, as a fresh vector; `None` exactly when `coords` is
    /// not a valid leading-axis index.
    pub fn get_column(&self, coords: &[u32]) -> (r: Option<Vec<i64>>)
        requires
            self.wf(),
            col_count_spec(self.shape.dims_spec()) <= usize::MAX,
        ensures
            match r {
                Some(col) => {
                    &&& coords_in_bounds(leading_dims(self.shape.dims_spec()), coords@)
                    &&& col@.len() == col_len_spec(self.shape.dims_spec())
                    &&& forall|t: int|
                        0 <= t < col@.len() ==> col@[t] == grid_cell(
                            self.data(),
                            0,
                            col_len_spec(self.shape.dims_spec()) as int,
                            row_major_index(leading_dims(self.shape.dims_spec()), coords@),
                            t,
                        )
                },
                None => !coords_in_bounds(leading_dims(self.shape.dims_spec()), coords@),
            },
    {
        let ghost ds = self.shape.dims_spec();
        let dims = self.shape.dims();
        let rank = dims.len();
        let lead = leading_of(&dims);
        let col_len: usize = if rank == 0 {
            1
        } else {
            dims[rank - 1] as usize
        };
        assert(col_len == col_len_spec(ds));
        let lshape = shape_of_dims(lead);
        match flat_offset(&lshape, coords) {
            Some(off) => {
                proof {
                    lemma_span_cols(ds);
                    self.lemma_data_len_bound();
                }
                let mut col: Vec<i64> = Vec::new();
                let mut t: usize = 0;
                while t < col_len
                    invariant
                        t <= col_len,
                        col@.len() == t,
                        forall|u: int|
                            0 <= u < t ==> col@[u] == grid_cell(
                                self.data(),
                                0,
                                col_len as int,
                                off as int,
                                u,
                            ),
                    decreases col_len - t,
                {
                    proof {
                        lemma_grid_cell_bound(
                            off as int,
                            t as int,
                            col_count_spec(ds) as int,
                            col_len as int,
                        );
                    }
                    col.push(self.values[off * col_len + t]);
                    t = t + 1;
                }
                Some(col)
            },
            None => None,
        }
    }

    /// All trailing-axis columns, in row-major order of their leading-axis
    /// coordinates: column `c` holds elements `c * L .. (c + 1) * L` of the
    /// buffer, where `L` is the last axis length.
    pub fn iter_cols(&self) -> (r: Vec<Vec<i64>>)
        requires
            self.wf(),
            col_count_spec(self.shape.dims_spec()) <= usize::MAX,
        ensures
            r@.len() == col_count_spec(self.shape.dims_spec()),
            forall|c: int|
                0 <= c < r@.len() ==> #[trigger] r@[c]@.len() == col_len_spec(
                    self.shape.dims_spec(),
                ),
            forall|c: int, t: int|
                0 <= c < r@.len() && 0 <= t < col_len_spec(self.shape.dims_spec())
                    ==> #[trigger] r@[c]@[t] == grid_cell(
                    self.data(),
                    0,
                    col_len_spec(self.shape.dims_spec()) as int,
                    c,
                    t,
                ),
    {
        let ghost ds = self.shape.dims_spec();
        proof {
            lemma_span_cols(ds);
            self.lemma_data_len_bound();
        }
        let dims = self.shape.dims();
        let rank = dims.len();
        let lead = leading_of(&dims);
        let lshape = shape_of_dims(lead);
        let count = lshape.span();
        let col_len: usize = if rank == 0 {
            1
        } else {
            dims[rank - 1] as usize
        };
        assert(col_len == col_len_spec(ds));
        let mut r: Vec<Vec<i64>> = Vec::new();
        let mut c: usize = 0;
        while c < count
            invariant
                c <= count,
                r@.len() == c,
                forall|u: int| 0 <= u < c ==> #[trigger] r@[u]@.len() == col_len_spec(ds),
                forall|u: int, t: int|
                    0 <= u < c && 0 <= t < col_len_spec(ds) ==> #[trigger] r@[u]@[t] == grid_cell(
                        self.data(),
                        0,
                        col_len_spec(ds) as int,
                        u,
                        t,
                    ),
            decreases count - c,
        {
            let mut col: Vec<i64> = Vec::new();
            let mut t: usize = 0;
            while t < col_len
                invariant
                    t <= col_len,
                    c < count,
                    col@.len() == t,
                    forall|u: int|
                        0 <= u < t ==> col@[u] == grid_cell(
                            self.data(),
                            0,
                            col_len as int,
                            c as int,
                            u,
                        ),
                decreases col_len - t,
            {
                proof {
                    lemma_grid_cell_bound(
                        c as int,
                        t as int,
                        col_count_spec(ds) as int,
                        col_len as int,
                    );
                }
                col.push(self.values[c * col_len + t]);
                t = t + 1;
            }
            r.push(col);
            c = c + 1;
        }
        r
    }

    /// Flat inner product: the sum over all positions of the pairwise
    /// products; `None` exactly when the element counts differ. Matrix and
    /// tensor operands are treated as flat buffers (no batched contraction).
    pub fn inner(&self, other: &NdArray) -> (r: Option<i64>)
        requires
            self.data().len() == other.data().len() ==> dot_fits(self.data(), other.data()),
        ensures
            match r {
                Some(v) => {
                    &&& self.data().len() == other.data().len()
                    &&& v == dot_spec(self.data(), other.data())
                },
                None => self.data().len() != other.data().len(),
            },
    {
        let n = self.values.len();
        if n != other.values.len() {
            return None;
        }
        let ghost a = self.data();
        let ghost b = other.data();
        let mut acc: i64 = 0;
        let mut k: usize = 0;
        while k < n
            invariant
                k <= n,
                n == a.len(),
                n == b.len(),
                dot_fits(a, b),
                acc == dot_prefix(a, b, k as int),
            decreases n - k,
        {
            proof {
                assert(dot_term(a, b, k as int) == a[k as int] * b[k as int]);
                assert(dot_prefix(a, b, k + 1 as int) == dot_prefix(a, b, k as int) + dot_term(
                    a,
                    b,
                    k as int,
                ));
            }
            let p = self.values[k] * other.values[k];
            acc = acc + p;
            k = k + 1;
        }
        Some(acc)
    }

    /// The sum of all elements.
    pub fn sum(&self) -> (r: i64)
        requires
            sum_fits(self.data()),
        ensures
            r == sum_spec(self.data()),
    {
        let ghost a = self.data();
        let n = self.values.len();
        let mut acc: i64 = 0;
        let mut k: usize = 0;
        while k < n
            invariant
                k <= n,
                n == a.len(),
                sum_fits(a),
                acc == sum_prefix(a, k as int),
            decreases n - k,
        {
            proof {
                assert(sum_prefix(a, k + 1 as int) == sum_prefix(a, k as int) + a[k as int]);
            }
            acc = acc + self.values[k];
            k = k + 1;
        }
        acc
    }

    /// The mean of all elements, rounded toward negative infinity; fails
    /// with `EmptyArray` exactly when there are no elements.
    pub fn mean(&self) -> (r: Result<i64, NdArrayError>)
        requires
            sum_fits(self.data()),
            self.data().len() <= i64::MAX,
        ensures
            match r {
                Ok(q) => {
                    &&& self.data().len() > 0
                    &&& q == sum_spec(self.data()) / (self.data().len() as int)
                },
                Err(e) => {
                    &&& e == NdArrayError::EmptyArray
                    &&& self.data().len() == 0
                },
            },
    {
        let n = self.values.len();
        if n == 0 {
            return Err(NdArrayError::EmptyArray);
        }
        let s = self.sum();
        let d = n as i64;
        proof {
            lemma_div_stays_in_range(s as int, d as int);
        }
        match s.checked_div_euclid(d) {
            Some(q) => Ok(q),
            None => {
                // Unreachable: the quotient of an `i64` by a positive
                // divisor stays within `i64`.
                proof {
                    assert(false);
                }
                Err(NdArrayError::EmptyArray)
            },
        }
    }
}

/// The leading axes of a dimension vector: all but the last entry.
pub(crate) fn leading_of(dims: &Vec<u32>) -> (r: Vec<u32>)
    ensures
        r@ == leading_dims(dims@),
{
    let lead_len: usize = if dims.len() == 0 {
        0
    } else {
        dims.len() - 1
    };
    let mut lead: Vec<u32> = Vec::new();
    let mut i: usize = 0;
    while i < lead_len
        invariant
            i <= lead_len,
            lead_len <= dims@.len(),
            lead@ =~= dims@.take(lead_len as int).take(i as int),
        decreases lead_len - i,
    {
        lead.push(dims[i]);
        assert(lead@ =~= dims@.take(lead_len as int).take(i + 1 as int));
        i = i + 1;
    }
    assert(lead@ =~= leading_dims(dims@));
    lead
}

/// The Euclidean quotient of an `i64` by a positive `i64` divisor stays
/// within `i64`.
proof fn lemma_div_stays_in_range(s: int, d: int)
    requires
        i64::MIN <= s <= i64::MAX,
        1 <= d <= i64::MAX,
    ensures
        i64::MIN <= s / d <= i64::MAX,
{
    let q = s / d;
    let r = s % d;
    vstd::arithmetic::div_mod::lemma_fundamental_div_mod(s, d);
    vstd::arithmetic::div_mod::lemma_mod_bound(s, d);
    if q > i64::MAX {
        assert(d * q + r > i64::MAX) by (nonlinear_arith)
            requires
                d >= 1,
                q > i64::MAX,
                r >= 0,
        ;
    }
    if q < i64::MIN {
        assert(d * q + r < i64::MIN) by (nonlinear_arith)
            requires
                d >= 1,
                q < i64::MIN,
                r < d,
                d <= i64::MAX,
        ;
    }
}

/// Number of independent matrices stacked in an array of rank at least 2:
/// the product of all axes but the last two.
pub open spec fn batch_count(dims: Seq<u32>) -> nat {
    dims_product(dims.take(dims.len() - 2))
}

/// Row count of the trailing matrix: the second-to-last axis.
pub open spec fn mat_rows(dims: Seq<u32>) -> nat {
    dims[dims.len() - 2] as nat
}

/// Column count of the trailing matrix: the last axis.
pub open spec fn mat_cols(dims: Seq<u32>) -> nat {
    dims[dims.len() - 1] as nat
}

/// The axis lengths with the last two swapped; ranks 0 and 1 are unchanged.
pub open spec fn swapped_dims(dims: Seq<u32>) -> Seq<u32> {
    if dims.len() < 2 {
        dims
    } else {
        dims.update(dims.len() - 2, dims[dims.len() - 1]).update(
            dims.len() - 1,
            dims[dims.len() - 2],
        )
    }
}

/// `dst` is the physically transposed copy of `src`: ranks 0 and 1 are
/// copied as they are; otherwise every batch's trailing matrix is
/// transposed, so cell `(i, j)` of batch `t` in `src` is cell `(j, i)` of
/// batch `t` in `dst`.
pub open spec fn is_transpose_of(dims: Seq<u32>, src: Seq<i64>, dst: Seq<i64>) -> bool {
    &&& src.len() == dims_product(dims)
    &&& dst.len() == src.len()
    &&& if dims.len() < 2 {
        dst == src
    } else {
        forall|t: int, i: int, j: int|
            0 <= t < batch_count(dims) && 0 <= i < mat_rows(dims) && 0 <= j < mat_cols(dims)
                ==> #[trigger] block_cell(
                dst,
                mat_cols(dims) as int,
                mat_rows(dims) as int,
                t,
                j,
                i,
            ) == block_cell(src, mat_rows(dims) as int, mat_cols(dims) as int, t, i, j)
    }
}

/// The span of a rank-2-or-more array splits into batches of matrices.
pub proof fn lemma_prod_three(dims: Seq<u32>)
    requires
        dims.len() >= 2,
    ensures
        dims_product(dims) == batch_count(dims) * (mat_rows(dims) * mat_cols(dims)),
{
    let n = dims.len() as int;
    lemma_prod_split_last(dims);
    let t = dims.take(n - 1);
    lemma_prod_split_last(t);
    assert(t.take(n - 2) =~= dims.take(n - 2));
    assert(t[n - 2] == dims[n - 2]);
    let b = batch_count(dims) as int;
    let r = mat_rows(dims) as int;
    let c = mat_cols(dims) as int;
    assert((b * r) * c == b * (r * c)) by (nonlinear_arith);
}

/// Swapping the last two axes does not change the span.
pub proof fn lemma_prod_swap(dims: Seq<u32>)
    requires
        dims.len() >= 2,
    ensures
        dims_product(swapped_dims(dims)) == dims_product(dims),
        batch_count(swapped_dims(dims)) == batch_count(dims),
        mat_rows(swapped_dims(dims)) == mat_cols(dims),
        mat_cols(swapped_dims(dims)) == mat_rows(dims),
{
    let sw = swapped_dims(dims);
    lemma_prod_three(dims);
    lemma_prod_three(sw);
    assert(sw.take(sw.len() - 2) =~= dims.take(dims.len() - 2));
    let b = batch_count(dims) as int;
    let r = mat_rows(dims) as int;
    let c = mat_cols(dims) as int;
    assert(b * (c * r) == b * (r * c)) by (nonlinear_arith);
}

/// Copies an element buffer.
fn copy_values(v: &Vec<i64>) -> (r: Vec<i64>)
    ensures
        r@ == v@,
{
    let mut r: Vec<i64> = Vec::new();
    let mut i: usize = 0;
    while i < v.len()
        invariant
            i <= v@.len(),
            r@ =~= v@.take(i as int),
        decreases v.len() - i,
    {
        r.push(v[i]);
        assert(r@ =~= v@.take(i + 1 as int));
        i = i + 1;
    }
    assert(r@ =~= v@);
    r
}

impl NdArray {
    /// The physically transposed array: the last two axes are swapped and
    /// the data is reordered so the result is row-major contiguous in the
    /// new axis order; every leading axis is an independent batch. Ranks 0
    /// and 1 are returned unchanged.
    pub fn transpose(&self) -> (r: NdArray)
        requires
            self.wf(),
            self.shape.dims_spec().len() >= 2 ==> batch_count(self.shape.dims_spec())
                <= usize::MAX,
        ensures
            r.wf(),
            r.shape.dims_spec() == swapped_dims(self.shape.dims_spec()),
            r.shape.is_canonical(),
            is_transpose_of(self.shape.dims_spec(), self.data(), r.data()),
    {
        let ghost ds = self.shape.dims_spec();
        let dims = self.shape.dims();
        let rank = dims.len();
        if rank < 2 {
            let values = copy_values(&self.values);
            let shape = shape_of_dims(dims);
            return NdArray { shape, values };
        }
        proof {
            lemma_prod_three(ds);
            lemma_prod_swap(ds);
            self.lemma_data_len_bound();
        }
        let ghost bb = batch_count(ds) as int;
        let ghost rr = mat_rows(ds) as int;
        let ghost cc = mat_cols(ds) as int;
        let rrows = dims[rank - 2] as usize;
        let ccols = dims[rank - 1] as usize;
        // The swapped dimension vector.
        let mut sdims = copy_values_u32(&dims);
        sdims.set(rank - 2, dims[rank - 1]);
        sdims.set(rank - 1, dims[rank - 2]);
        assert(sdims@ =~= swapped_dims(ds));
        let shape = shape_of_dims(sdims);
        // Batch count; a zero batch count means an empty array.
        let mut lead2: Vec<u32> = Vec::new();
        let mut li: usize = 0;
        while li < rank - 2
            invariant
                li <= rank - 2,
                lead2@ =~= ds.take((rank - 2) as int).take(li as int),
            decreases rank - 2 - li,
        {
            lead2.push(dims[li]);
            assert(lead2@ =~= ds.take((rank - 2) as int).take(li + 1 as int));
            li = li + 1;
        }
        assert(lead2@ =~= ds.take((rank - 2) as int));
        let bshape = shape_of_dims(lead2);
        let batches = bshape.span();
        if batches == 0 {
            let values: Vec<i64> = Vec::new();
            proof {
                assert(bb * (rr * cc) == 0) by (nonlinear_arith)
                    requires
                        bb == 0,
                ;
            }
            return NdArray { shape, values };
        }
        proof {
            assert(rr * cc <= bb * (rr * cc)) by (nonlinear_arith)
                requires
                    bb >= 1,
                    rr * cc >= 0,
            ;
        }
        let rc = rrows * ccols;
        let ghost src = self.data();
        let mut values: Vec<i64> = Vec::new();
        let mut b: usize = 0;
        while b < batches
            invariant
                b <= batches,
                values@.len() == b * (rc as int),
                forall|t: int, i: int, j: int|
                    0 <= t < b && 0 <= i < rr && 0 <= j < cc ==> #[trigger] block_cell(
                        values@,
                        cc,
                        rr,
                        t,
                        j,
                        i,
                    ) == block_cell(src, rr, cc, t, i, j),
            decreases batches - b,
        {
            let mut j: usize = 0;
            while j < ccols
                invariant
                    j <= ccols,
                    b < batches,
                    values@.len() == b * (rc as int) + j * rr,
                    forall|t: int, i0: int, j0: int|
                        0 <= t < b && 0 <= i0 < rr && 0 <= j0 < cc ==> #[trigger] block_cell(
                            values@,
                            cc,
                            rr,
                            t,
                            j0,
                            i0,
                        ) == block_cell(src, rr, cc, t, i0, j0),
                    forall|i0: int, j0: int|
                        0 <= j0 < j && 0 <= i0 < rr ==> #[trigger] block_cell(
                            values@,
                            cc,
                            rr,
                            b as int,
                            j0,
                            i0,
                        ) == block_cell(src, rr, cc, b as int, i0, j0),
                decreases ccols - j,
            {
                let mut i: usize = 0;
                while i < rrows
                    invariant
                        i <= rrows,
                        j < ccols,
                        b < batches,
                        values@.len() == b * (rc as int) + j * rr + i,
                        forall|t: int, i0: int, j0: int|
                            0 <= t < b && 0 <= i0 < rr && 0 <= j0 < cc ==> #[trigger] block_cell(
                                values@,
                                cc,
                                rr,
                                t,
                                j0,
                                i0,
                            ) == block_cell(src, rr, cc, t, i0, j0),
                        forall|i0: int, j0: int|
                            0 <= j0 < j && 0 <= i0 < rr ==> #[trigger] block_cell(
                                values@,
                                cc,
                                rr,
                                b as int,
                                j0,
                                i0,
                            ) == block_cell(src, rr, cc, b as int, i0, j0),
                        forall|i0: int|
                            0 <= i0 < i ==> #[trigger] block_cell(
                                values@,
                                cc,
                                rr,
                                b as int,
                                j as int,
                                i0,
                            ) == block_cell(src, rr, cc, b as int, i0, j as int),
                    decreases rrows - i,
                {
                    proof {
                        lemma_block_cell_bound(b as int, i as int, j as int, bb, rr, cc);
                        lemma_grid_cell_bound(i as int, j as int, rr, cc);
                        assert(cc * rr == rr * cc) by (nonlinear_arith);
                    }
                    let ghost before = values@;
                    values.push(self.values[b * rc + i * ccols + j]);
                    proof {
                        assert(values@ == before.push(src[b * (rr * cc) + i * cc + j as int]));
                        assert(block_cell(values@, cc, rr, b as int, j as int, i as int)
                            == block_cell(src, rr, cc, b as int, i as int, j as int));
                        // Earlier batches are untouched by the push.
                        assert forall|t: int, i0: int, j0: int|
                            0 <= t < b && 0 <= i0 < rr && 0 <= j0 < cc implies #[trigger] block_cell(
                            values@,
                            cc,
                            rr,
                            t,
                            j0,
                            i0,
                        ) == block_cell(src, rr, cc, t, i0, j0) by {
                            lemma_block_cell_bound(t, j0, i0, b as int, cc, rr);
                            assert(block_cell(before, cc, rr, t, j0, i0) == block_cell(
                                src,
                                rr,
                                cc,
                                t,
                                i0,
                                j0,
                            ));
                        }
                        // Earlier columns of the current batch are untouched.
                        assert forall|i0: int, j0: int|
                            0 <= j0 < j && 0 <= i0 < rr implies #[trigger] block_cell(
                            values@,
                            cc,
                            rr,
                            b as int,
                            j0,
                            i0,
                        ) == block_cell(src, rr, cc, b as int, i0, j0) by {
                            assert(j0 * rr + i0 < j * rr) by (nonlinear_arith)
                                requires
                                    0 <= j0 < j,
                                    0 <= i0 < rr,
                            ;
                            assert(block_cell(before, cc, rr, b as int, j0, i0) == block_cell(
                                src,
                                rr,
                                cc,
                                b as int,
                                i0,
                                j0,
                            ));
                        }
                        // Earlier rows of the current column are untouched.
                        assert forall|i0: int| 0 <= i0 < i implies #[trigger] block_cell(
                            values@,
                            cc,
                            rr,
                            b as int,
                            j as int,
                            i0,
                        ) == block_cell(src, rr, cc, b as int, i0, j as int) by {
                            assert(block_cell(before, cc, rr, b as int, j as int, i0)
                                == block_cell(src, rr, cc, b as int, i0, j as int));
                        }
                    }
                    i = i + 1;
                }
                proof {
                    assert((j + 1) * rr == j * rr + rr) by (nonlinear_arith);
                }
                j = j + 1;
            }
            proof {
                assert((b + 1) * (rc as int) == b * (rc as int) + rc) by (nonlinear_arith);
                assert(cc * rr == rr * cc) by (nonlinear_arith);
            }
            b = b + 1;
        }
        proof {
            assert(values@.len() == bb * (rr * cc)) by (nonlinear_arith)
                requires
                    values@.len() == batches * (rc as int),
                    batches == bb,
                    rc == rr * cc,
            ;
        }
        NdArray { shape, values }
    }
}

/// Copies a dimension vector.
fn copy_values_u32(v: &Vec<u32>) -> (r: Vec<u32>)
    ensures
        r@ == v@,
{
    let mut r: Vec<u32> = Vec::new();
    let mut i: usize = 0;
    while i < v.len()
        invariant
            i <= v@.len(),
            r@ =~= v@.take(i as int),
        decreases v.len() - i,
    {
        r.push(v[i]);
        assert(r@ =~= v@.take(i + 1 as int));
        i = i + 1;
    }
    assert(r@ =~= v@);
    r
}

/// Splits a flat offset of a batched row-major layout into its batch, row
/// and column indices.
pub proof fn lemma_block_decompose(f: int, b: int, rows: int, cols: int) -> (t: (int, int, int))
    requires
        b >= 0,
        rows >= 0,
        cols >= 0,
        0 <= f < b * (rows * cols),
    ensures
        0 <= t.0 < b,
        0 <= t.1 < rows,
        0 <= t.2 < cols,
        f == t.0 * (rows * cols) + t.1 * cols + t.2,
{
    let rc = rows * cols;
    assert(rc > 0 && b > 0) by (nonlinear_arith)
        requires
            0 <= f < b * rc,
            b >= 0,
            rc == rows * cols,
            rows >= 0,
            cols >= 0,
    ;
    assert(cols > 0 && rows > 0) by (nonlinear_arith)
        requires
            rows * cols > 0,
            rows >= 0,
            cols >= 0,
    ;
    let t0 = f / rc;
    let rem = f % rc;
    vstd::arithmetic::div_mod::lemma_fundamental_div_mod(f, rc);
    vstd::arithmetic::div_mod::lemma_mod_bound(f, rc);
    let i0 = rem / cols;
    let j0 = rem % cols;
    vstd::arithmetic::div_mod::lemma_fundamental_div_mod(rem, cols);
    vstd::arithmetic::div_mod::lemma_mod_bound(rem, cols);
    assert(t0 >= 0 && t0 < b) by (nonlinear_arith)
        requires
            f == rc * t0 + rem,
            0 <= rem < rc,
            0 <= f < b * rc,
            rc > 0,
    ;
    assert(i0 >= 0 && i0 < rows) by (nonlinear_arith)
        requires
            rem == cols * i0 + j0,
            0 <= j0 < cols,
            0 <= rem < rows * cols,
            cols > 0,
    ;
    assert(f == t0 * rc + i0 * cols + j0) by (nonlinear_arith)
        requires
            f == rc * t0 + rem,
            rem == cols * i0 + j0,
    ;
    (t0, i0, j0)
}

/// Law: transposing twice reproduces the original data and shape exactly,
/// for matrices and for tensors of any rank (ranks 0 and 1 are unchanged by
/// a single transpose already).
pub proof fn lemma_transpose_involution(dims: Seq<u32>, a: Seq<i64>, b: Seq<i64>, c: Seq<i64>)
    requires
        is_transpose_of(dims, a, b),
        is_transpose_of(swapped_dims(dims), b, c),
    ensures
        swapped_dims(swapped_dims(dims)) == dims,
        c == a,
{
    assert(swapped_dims(swapped_dims(dims)) =~= dims);
    if dims.len() < 2 {
        assert(c == a);
    } else {
        let sw = swapped_dims(dims);
        lemma_prod_three(dims);
        lemma_prod_swap(dims);
        let nb = batch_count(dims) as int;
        let nr = mat_rows(dims) as int;
        let nc = mat_cols(dims) as int;
        assert(a.len() == nb * (nr * nc));
        assert forall|f: int| 0 <= f < a.len() implies c[f] == a[f] by {
            let (t0, i0, j0) = lemma_block_decompose(f, nb, nr, nc);
            assert(block_cell(b, nc, nr, t0, j0, i0) == block_cell(a, nr, nc, t0, i0, j0));
            assert(block_cell(c, mat_cols(sw) as int, mat_rows(sw) as int, t0, i0, j0)
                == block_cell(b, mat_rows(sw) as int, mat_cols(sw) as int, t0, j0, i0));
            assert(block_cell(c, nr, nc, t0, i0, j0) == c[f]);
            assert(block_cell(a, nr, nc, t0, i0, j0) == a[f]);
        }
        assert(c =~= a);
    }
}

} // verus!
