//! Shape of an n-dimensional array: rank classification, row-major strides,
//! spans and flat-offset computation.

use vstd::prelude::*;

use crate::error::NdArrayError;

verus! {

broadcast use vstd::group_vstd_default;

/// Product of `dims[i..]`; the product of the empty suffix is 1.
pub open spec fn suffix_product(dims: Seq<u32>, i: int) -> nat
    decreases dims.len() - i,
{
    if i < 0 || i >= dims.len() {
        1
    } else {
        (dims[i] as nat) * suffix_product(dims, i + 1)
    }
}

/// Total element count of an array with axis lengths `dims`.
pub open spec fn dims_product(dims: Seq<u32>) -> nat {
    suffix_product(dims, 0)
}

/// The row-major stride of axis `i`: the product of all axis lengths after it.
pub open spec fn row_major_stride(dims: Seq<u32>, i: int) -> nat {
    suffix_product(dims, i + 1)
}

/// `coords` selects one element of an array with axis lengths `dims`.
pub open spec fn coords_in_bounds(dims: Seq<u32>, coords: Seq<u32>) -> bool {
    &&& coords.len() == dims.len()
    &&& forall|i: int| 0 <= i < dims.len() ==> coords[i] < dims[i]
}

/// Partial sum of `coords[j] * strides[j]` over `j >= i`.
pub open spec fn flat_index_from(coords: Seq<u32>, strides: Seq<usize>, i: int) -> int
    decreases coords.len() - i,
{
    if i < 0 || i >= coords.len() || i >= strides.len() {
        0
    } else {
        coords[i] * strides[i] + flat_index_from(coords, strides, i + 1)
    }
}

/// The manual row-major formula: the sum of `coords[i] * strides[i]`.
pub open spec fn flat_index(coords: Seq<u32>, strides: Seq<usize>) -> int {
    flat_index_from(coords, strides, 0)
}

/// Partial sum of `coords[j] * row_major_stride(dims, j)` over `j >= i`.
pub open spec fn row_major_from(dims: Seq<u32>, coords: Seq<u32>, i: int) -> int
    decreases coords.len() - i,
{
    if i < 0 || i >= coords.len() {
        0
    } else {
        coords[i] * row_major_stride(dims, i) + row_major_from(dims, coords, i + 1)
    }
}

/// Flat row-major offset of the element that `coords` selects.
pub open spec fn row_major_index(dims: Seq<u32>, coords: Seq<u32>) -> int {
    row_major_from(dims, coords, 0)
}

/// A zero axis length forces the whole product to zero.
pub proof fn lemma_suffix_product_zero(dims: Seq<u32>, i: int, j: int)
    requires
        0 <= i <= j < dims.len(),
        dims[j] == 0,
    ensures
        suffix_product(dims, i) == 0,
    decreases j - i,
{
    if i == j {
        assert(suffix_product(dims, i) == (dims[i] as nat) * suffix_product(dims, i + 1));
    } else {
        lemma_suffix_product_zero(dims, i + 1, j);
        assert(suffix_product(dims, i) == (dims[i] as nat) * 0);
    }
}

/// With no zero axis in `[i, j)`, a longer suffix has the larger product.
pub proof fn lemma_suffix_product_le(dims: Seq<u32>, i: int, j: int)
    requires
        0 <= i <= j,
        forall|k: int| i <= k < dims.len() ==> dims[k] >= 1,
    ensures
        suffix_product(dims, j) <= suffix_product(dims, i),
    decreases j - i,
{
    if i < j {
        lemma_suffix_product_le(dims, i + 1, j);
        if i < dims.len() {
            assert(suffix_product(dims, i + 1) <= (dims[i] as nat) * suffix_product(dims, i + 1))
                by (nonlinear_arith)
                requires
                    dims[i] >= 1,
            ;
        }
    }
}

/// Every partial row-major sum is non-negative.
pub proof fn lemma_row_major_from_nonneg(dims: Seq<u32>, coords: Seq<u32>, i: int)
    ensures
        row_major_from(dims, coords, i) >= 0,
    decreases coords.len() - i,
{
    if 0 <= i < coords.len() {
        lemma_row_major_from_nonneg(dims, coords, i + 1);
        assert(coords[i] * row_major_stride(dims, i) >= 0) by (nonlinear_arith)
            requires
                coords[i] >= 0,
                row_major_stride(dims, i) >= 0,
        ;
    }
}

/// For in-bounds coordinates, the row-major offset from axis `i` on lies
/// below the span of the axes from `i` on.
pub proof fn lemma_row_major_from_in_span(dims: Seq<u32>, coords: Seq<u32>, i: int)
    requires
        coords_in_bounds(dims, coords),
        0 <= i,
    ensures
        row_major_from(dims, coords, i) < suffix_product(dims, i),
    decreases coords.len() - i,
{
    if i >= coords.len() {
        assert(suffix_product(dims, i) == 1);
    } else {
        lemma_row_major_from_in_span(dims, coords, i + 1);
        let c = coords[i] as int;
        let p = suffix_product(dims, i + 1) as int;
        let rest = row_major_from(dims, coords, i + 1);
        assert(c * p + rest < (dims[i] as int) * p) by (nonlinear_arith)
            requires
                c + 1 <= dims[i] as int,
                rest < p,
                c >= 0,
                p >= 0,
        ;
        assert(suffix_product(dims, i) == (dims[i] as nat) * suffix_product(dims, i + 1));
    }
}

/// The in-bounds row-major offset lies below the whole span.
pub proof fn lemma_row_major_index_in_span(dims: Seq<u32>, coords: Seq<u32>)
    requires
        coords_in_bounds(dims, coords),
    ensures
        0 <= row_major_index(dims, coords) < dims_product(dims),
{
    lemma_row_major_from_nonneg(dims, coords, 0);
    lemma_row_major_from_in_span(dims, coords, 0);
}

/// When every stride is the row-major stride, the generic formula and the
/// row-major formula agree.
pub proof fn lemma_flat_eq_row_major(dims: Seq<u32>, strides: Seq<usize>, coords: Seq<u32>, i: int)
    requires
        strides.len() == dims.len(),
        coords.len() == dims.len(),
        forall|j: int| 0 <= j < dims.len() ==> strides[j] == row_major_stride(dims, j),
    ensures
        flat_index_from(coords, strides, i) == row_major_from(dims, coords, i),
    decreases coords.len() - i,
{
    if 0 <= i < coords.len() {
        lemma_flat_eq_row_major(dims, strides, coords, i + 1);
    }
}

/// Later partial sums of the flat-index formula are no larger (all terms are
/// non-negative), and all are non-negative.
pub proof fn lemma_flat_from_le(coords: Seq<u32>, strides: Seq<usize>, i: int, j: int)
    requires
        0 <= i <= j,
    ensures
        0 <= flat_index_from(coords, strides, j) <= flat_index_from(coords, strides, i),
    decreases j - i,
{
    lemma_flat_from_nonneg(coords, strides, j);
    lemma_flat_from_nonneg(coords, strides, i);
    if i < j {
        lemma_flat_from_le(coords, strides, i + 1, j);
        if i < coords.len() && i < strides.len() {
            assert(coords[i] * strides[i] >= 0) by (nonlinear_arith)
                requires
                    coords[i] >= 0,
                    strides[i] >= 0,
            ;
        } else {
            assert(flat_index_from(coords, strides, j) == 0);
        }
    }
}

/// Every partial sum of the flat-index formula is non-negative.
pub proof fn lemma_flat_from_nonneg(coords: Seq<u32>, strides: Seq<usize>, i: int)
    ensures
        flat_index_from(coords, strides, i) >= 0,
    decreases coords.len() - i,
{
    if 0 <= i < coords.len() && i < strides.len() {
        lemma_flat_from_nonneg(coords, strides, i + 1);
        assert(coords[i] * strides[i] >= 0) by (nonlinear_arith)
            requires
                coords[i] >= 0,
                strides[i] >= 0,
        ;
    }
}

/// The element at row `i`, column `j` of a row-major grid with `cols`
/// columns stored in `data` starting at `off`.
pub open spec fn grid_cell(data: Seq<i64>, off: int, cols: int, i: int, j: int) -> i64 {
    data[off + i * cols + j]
}

/// The element at row `i`, column `j` of batch `b` in a buffer of
/// consecutively stored row-major `rows` by `cols` grids.
pub open spec fn block_cell(data: Seq<i64>, rows: int, cols: int, b: int, i: int, j: int) -> i64 {
    data[b * (rows * cols) + i * cols + j]
}

/// A row-major cell `(i, j)` of a `rows` by `cols` grid lies inside the span
/// of the grid.
pub proof fn lemma_grid_cell_bound(i: int, j: int, rows: int, cols: int)
    by (nonlinear_arith)
    requires
        0 <= i < rows,
        0 <= j < cols,
    ensures
        0 <= i * cols + j < rows * cols,
{
}

/// Distinct cells of a grid have distinct row-major offsets.
pub proof fn lemma_grid_index_injective(i1: int, j1: int, i2: int, j2: int, cols: int)
    by (nonlinear_arith)
    requires
        0 <= j1 < cols,
        0 <= j2 < cols,
        i1 * cols + j1 == i2 * cols + j2,
    ensures
        i1 == i2,
        j1 == j2,
{
}

/// A cell `(t, i, j)` of a batch of `b` grids lies inside the whole span.
pub proof fn lemma_block_cell_bound(t: int, i: int, j: int, b: int, rows: int, cols: int)
    by (nonlinear_arith)
    requires
        0 <= t < b,
        0 <= i < rows,
        0 <= j < cols,
    ensures
        0 <= t * (rows * cols) + i * cols + j < b * (rows * cols),
{
}

/// Splits the last factor out of a suffix product.
pub proof fn lemma_suffix_product_split_last(dims: Seq<u32>, i: int)
    requires
        dims.len() >= 1,
        0 <= i <= dims.len() - 1,
    ensures
        suffix_product(dims, i) == suffix_product(dims.take(dims.len() - 1), i) * (dims[dims.len()
            - 1] as nat),
    decreases dims.len() - i,
{
    let m = dims.len() - 1;
    let t = dims.take(m);
    assert(t.len() == m);
    if i == m {
        assert(suffix_product(dims, i) == (dims[i] as nat) * suffix_product(dims, i + 1));
        assert(suffix_product(dims, i + 1) == 1);
        assert(suffix_product(t, i) == 1);
        assert((dims[i] as nat) * 1 == 1 * (dims[m] as nat));
    } else {
        lemma_suffix_product_split_last(dims, i + 1);
        assert(t[i] == dims[i]);
        assert(suffix_product(t, i) == (t[i] as nat) * suffix_product(t, i + 1));
        assert(suffix_product(dims, i) == (dims[i] as nat) * suffix_product(dims, i + 1));
        assert(suffix_product(dims, i + 1) == suffix_product(t, i + 1) * (dims[m] as nat));
        assert((dims[i] as nat) * (suffix_product(t, i + 1) * (dims[m] as nat)) == ((dims[i]
            as nat) * suffix_product(t, i + 1)) * (dims[m] as nat)) by (nonlinear_arith);
        assert(suffix_product(dims, i) == suffix_product(t, i) * (dims[m] as nat));
    }
}

/// The span of an array is the span of its leading axes times the length of
/// its last axis.
pub proof fn lemma_prod_split_last(dims: Seq<u32>)
    requires
        dims.len() >= 1,
    ensures
        dims_product(dims) == dims_product(dims.take(dims.len() - 1)) * (dims[dims.len()
            - 1] as nat),
{
    lemma_suffix_product_split_last(dims, 0);
}

/// Rank/axis-length descriptor of an array.
///
/// The variant records the rank class (scalar, vector, matrix, or a tensor of
/// rank at least 3); the payload holds the axis lengths in row-major order.
#[derive(Clone, Debug, PartialEq, Eq)]
pub enum Shape {
    /// Rank 0: exactly one element.
    Scalar,
    /// Rank 1: a contiguous run of elements.
    Vector([u32; 1]),
    /// Rank 2: rows times columns.
    Matrix([u32; 2]),
    /// Rank 3 or more.
    Tensor(Vec<u32>),
}

impl Shape {
    /// The axis lengths in row-major order; a scalar has none.
    pub open spec fn dims_spec(&self) -> Seq<u32> {
        match self {
            Shape::Scalar => Seq::<u32>::empty(),
            Shape::Vector(d) => d@,
            Shape::Matrix(d) => d@,
            Shape::Tensor(d) => d@,
        }
    }

    /// Total element count: the product of all axis lengths.
    pub open spec fn span_spec(&self) -> nat {
        dims_product(self.dims_spec())
    }

    /// The variant matches the number of axes it carries.
    pub open spec fn is_canonical(&self) -> bool {
        match self {
            Shape::Scalar => true,
            Shape::Vector(_) => true,
            Shape::Matrix(_) => true,
            Shape::Tensor(d) => d@.len() >= 3,
        }
    }

    /// Number of axes.
    pub fn rank(&self) -> (r: usize)
        ensures
            r == self.dims_spec().len(),
    {
        match self {
            Shape::Scalar => 0,
            Shape::Vector(_) => 1,
            Shape::Matrix(_) => 2,
            Shape::Tensor(d) => d.len(),
        }
    }

    /// The axis lengths as a fresh vector.
    pub fn dims(&self) -> (r: Vec<u32>)
        ensures
            r@ == self.dims_spec(),
    {
        match self {
            Shape::Scalar => {
                let r: Vec<u32> = Vec::new();
                assert(r@ =~= self.dims_spec());
                r
            },
            Shape::Vector(d) => {
                let mut r: Vec<u32> = Vec::new();
                r.push(d[0]);
                assert(r@ =~= self.dims_spec());
                r
            },
            Shape::Matrix(d) => {
                let mut r: Vec<u32> = Vec::new();
                r.push(d[0]);
                r.push(d[1]);
                assert(r@ =~= self.dims_spec());
                r
            },
            Shape::Tensor(d) => {
                let mut r: Vec<u32> = Vec::new();
                let mut i: usize = 0;
                while i < d.len()
                    invariant
                        i <= d.len(),
                        r@ =~= d@.take(i as int),
                    decreases d.len() - i,
                {
                    r.push(d[i]);
                    assert(r@ =~= d@.take(i + 1 as int));
                    i = i + 1;
                }
                assert(r@ =~= d@);
                r
            },
        }
    }

    /// Element count, or `None` when the product overflows `usize`.
    pub fn span_checked(&self) -> (r: Option<usize>)
        ensures
            match r {
                Some(n) => n == self.span_spec(),
                None => self.span_spec() > usize::MAX,
            },
    {
        let dims = self.dims();
        let ghost ds = self.dims_spec();
        // A zero axis forces the span to zero no matter how large the other
        // axes are, so it must be recognized before any multiplication.
        let mut i: usize = 0;
        while i < dims.len()
            invariant
                i <= dims.len(),
                dims@ == ds,
                forall|j: int| 0 <= j < i ==> ds[j] >= 1,
            decreases dims.len() - i,
        {
            if dims[i] == 0 {
                proof {
                    lemma_suffix_product_zero(ds, 0, i as int);
                }
                return Some(0);
            }
            i = i + 1;
        }
        // All axes are at least 1: accumulate from the back; every suffix
        // product is bounded by the total, so overflow of a step means the
        // total itself overflows.
        let mut acc: usize = 1;
        let mut k: usize = dims.len();
        while k > 0
            invariant
                k <= dims.len(),
                dims@ == ds,
                forall|j: int| 0 <= j < ds.len() ==> ds[j] >= 1,
                acc == suffix_product(ds, k as int),
            decreases k,
        {
            k = k - 1;
            let d = dims[k] as usize;
            match acc.checked_mul(d) {
                Some(next) => {
                    assert(next == suffix_product(ds, k as int)) by {
                        assert(suffix_product(ds, k as int) == (ds[k as int] as nat)
                            * suffix_product(ds, k + 1 as int));
                        assert((ds[k as int] as nat) * suffix_product(ds, k + 1 as int) == (
                        suffix_product(ds, k + 1 as int) as int) * (ds[k as int] as int))
                            by (nonlinear_arith);
                    }
                    acc = next;
                },
                None => {
                    proof {
                        assert(suffix_product(ds, k as int) == (ds[k as int] as nat)
                            * suffix_product(ds, k + 1 as int));
                        assert((ds[k as int] as nat) * suffix_product(ds, k + 1 as int) == (
                        suffix_product(ds, k + 1 as int) as int) * (ds[k as int] as int))
                            by (nonlinear_arith);
                        lemma_suffix_product_le(ds, 0, k as int);
                    }
                    return None;
                },
            }
        }
        Some(acc)
    }

    /// Element count of a shape whose span is known to fit in `usize`.
    pub fn span(&self) -> (r: usize)
        requires
            self.span_spec() <= usize::MAX,
        ensures
            r == self.span_spec(),
    {
        match self.span_checked() {
            Some(n) => n,
            None => {
                // Unreachable: the caller guarantees the span fits.
                proof {
                    assert(false);
                }
                0
            },
        }
    }

    /// Row-major strides: the stride of the last axis is 1, and the stride of
    /// axis `i` is the product of the lengths of all later axes.
    pub fn strides(&self) -> (r: Vec<usize>)
        requires
            forall|i: int|
                0 <= i <= self.dims_spec().len() ==> suffix_product(self.dims_spec(), i)
                    <= usize::MAX,
        ensures
            r@.len() == self.dims_spec().len(),
            forall|i: int| 0 <= i < r@.len() ==> r@[i] == row_major_stride(self.dims_spec(), i),
    {
        let dims = self.dims();
        let ghost ds = self.dims_spec();
        let rank = dims.len();
        let mut r: Vec<usize> = Vec::new();
        let mut i: usize = 0;
        while i < rank
            invariant
                i <= rank,
                r@.len() == i,
            decreases rank - i,
        {
            r.push(0);
            i = i + 1;
        }
        let mut acc: usize = 1;
        let mut k: usize = rank;
        while k > 0
            invariant
                k <= rank,
                rank == ds.len(),
                dims@ == ds,
                r@.len() == rank,
                acc == suffix_product(ds, k as int),
                forall|i: int|
                    0 <= i <= ds.len() ==> suffix_product(ds, i) <= usize::MAX,
                forall|j: int| k <= j < rank ==> r@[j] == row_major_stride(ds, j),
            decreases k,
        {
            k = k - 1;
            r.set(k, acc);
            assert(suffix_product(ds, k as int) == (ds[k as int] as nat) * suffix_product(
                ds,
                k + 1 as int,
            ));
            assert((ds[k as int] as nat) * suffix_product(ds, k + 1 as int) == (suffix_product(
                ds,
                k + 1 as int,
            ) as int) * (ds[k as int] as int)) by (nonlinear_arith);
            acc = acc * (dims[k] as usize);
        }
        r
    }
}

/// Flat offset of the element that `coords` selects, by the row-major formula
/// `sum of coords[i] * strides[i]`.
///
/// Returns `IndexOutOfBounds` exactly when the coordinate vector has the wrong
/// rank or some component is out of range of its axis.
pub fn get_index(dims: &[u32], strides: &[usize], coords: &[u32]) -> (r: Result<
    usize,
    NdArrayError,
>)
    requires
        coords_in_bounds(dims@, coords@) ==> flat_index(coords@, strides@) <= usize::MAX,
    ensures
        match r {
            Ok(off) => coords_in_bounds(dims@, coords@) && off == flat_index(coords@, strides@),
            Err(e) => e == NdArrayError::IndexOutOfBounds && !coords_in_bounds(dims@, coords@),
        },
{
    if coords.len() != dims.len() {
        return Err(NdArrayError::IndexOutOfBounds);
    }
    let mut i: usize = 0;
    while i < coords.len()
        invariant
            i <= coords.len(),
            coords@.len() == dims@.len(),
            forall|j: int| 0 <= j < i ==> coords@[j] < dims@[j],
        decreases coords.len() - i,
    {
        if coords[i] >= dims[i] {
            return Err(NdArrayError::IndexOutOfBounds);
        }
        i = i + 1;
    }
    assert(coords_in_bounds(dims@, coords@));
    let n = if coords.len() <= strides.len() {
        coords.len()
    } else {
        strides.len()
    };
    let mut acc: usize = 0;
    let mut k: usize = n;
    proof {
        assert(flat_index_from(coords@, strides@, n as int) == 0);
    }
    while k > 0
        invariant
            k <= n,
            n <= coords@.len(),
            n <= strides@.len(),
            coords@.len() == dims@.len(),
            flat_index(coords@, strides@) <= usize::MAX,
            acc == flat_index_from(coords@, strides@, k as int),
        decreases k,
    {
        k = k - 1;
        proof {
            lemma_flat_from_le(coords@, strides@, 0, k as int);
            lemma_flat_from_le(coords@, strides@, 0, k + 1 as int);
            assert(flat_index_from(coords@, strides@, k as int) == coords@[k as int] * strides@[k
                as int] + flat_index_from(coords@, strides@, k + 1 as int));
            assert(coords@[k as int] * strides@[k as int] >= 0) by (nonlinear_arith)
                requires
                    coords@[k as int] >= 0,
                    strides@[k as int] >= 0,
            ;
        }
        let term = (coords[k] as usize) * strides[k];
        acc = acc + term;
    }
    Ok(acc)
}

/// Classifies a dimension list into the matching `Shape` variant without
/// validating it; ranks 0, 1 and 2 get the dedicated variants.
pub fn shape_of_dims(dims: Vec<u32>) -> (r: Shape)
    ensures
        r.dims_spec() == dims@,
        r.is_canonical(),
{
    if dims.len() == 0 {
        let r = Shape::Scalar;
        assert(r.dims_spec() =~= dims@);
        r
    } else if dims.len() == 1 {
        let r = Shape::Vector([dims[0]]);
        assert(r.dims_spec() =~= dims@);
        r
    } else if dims.len() == 2 {
        let r = Shape::Matrix([dims[0], dims[1]]);
        assert(r.dims_spec() =~= dims@);
        r
    } else {
        Shape::Tensor(dims)
    }
}

/// Builds the shape with the given axis lengths, rejecting any zero axis
/// with `InvalidShape`.
pub fn make_shape(dims: &[u32]) -> (r: Result<Shape, NdArrayError>)
    ensures
        match r {
            Ok(s) => {
                &&& s.dims_spec() == dims@
                &&& s.is_canonical()
                &&& forall|i: int| 0 <= i < dims@.len() ==> dims@[i] >= 1
            },
            Err(e) => {
                &&& e == NdArrayError::InvalidShape
                &&& exists|i: int| 0 <= i < dims@.len() && dims@[i] == 0
            },
        },
{
    let mut i: usize = 0;
    while i < dims.len()
        invariant
            i <= dims@.len(),
            forall|j: int| 0 <= j < i ==> dims@[j] >= 1,
        decreases dims.len() - i,
    {
        if dims[i] == 0 {
            return Err(NdArrayError::InvalidShape);
        }
        i = i + 1;
    }
    let mut v: Vec<u32> = Vec::new();
    let mut j: usize = 0;
    while j < dims.len()
        invariant
            j <= dims@.len(),
            v@ =~= dims@.take(j as int),
        decreases dims.len() - j,
    {
        v.push(dims[j]);
        assert(v@ =~= dims@.take(j + 1 as int));
        j = j + 1;
    }
    assert(v@ =~= dims@);
    Ok(shape_of_dims(v))
}

} // verus!
