//! Whole-array operations built on the core: identity and diagonal
//! constructors, fills, per-column extrema, and scalar reductions wrapped as
//! arrays.

use vstd::prelude::*;

use crate::error::NdArrayError;
use crate::ndarray::{
    col_count_spec, col_len_spec, leading_dims, lemma_span_cols, sum_fits, sum_spec, NdArray,
};
use crate::shape::{
    dims_product, grid_cell, lemma_grid_cell_bound, lemma_grid_index_injective, shape_of_dims,
    Shape,
};

verus! {

broadcast use vstd::group_vstd_default;

/// A square matrix with `dims` columns and 1 on the main diagonal.
pub fn eye(dims: u32) -> (r: NdArray)
    requires
        (dims as nat) * (dims as nat) <= usize::MAX,
    ensures
        r.wf(),
        r.shape == Shape::Matrix([dims, dims]),
        forall|i: int, j: int|
            0 <= i < dims && 0 <= j < dims ==> #[trigger] grid_cell(r.data(), 0, dims as int, i, j)
                == (if i == j {
                1i64
            } else {
                0i64
            }),
{
    NdArray::diagonal(dims, 1)
}

/// A zero-filled array of the given shape.
pub fn zeros(shape: Shape) -> (r: NdArray)
    requires
        dims_product(shape.dims_spec()) <= usize::MAX,
    ensures
        r.wf(),
        r.shape == shape,
        forall|i: int| 0 <= i < r.data().len() ==> r.data()[i] == 0i64,
{
    NdArray::new_default(shape)
}

/// A one-filled array of the given shape.
pub fn ones(shape: Shape) -> (r: NdArray)
    requires
        dims_product(shape.dims_spec()) <= usize::MAX,
    ensures
        r.wf(),
        r.shape == shape,
        forall|i: int| 0 <= i < r.data().len() ==> r.data()[i] == 1i64,
{
    let span = shape.span();
    let values: Vec<i64> = vec![1i64; span];
    NdArray { shape, values }
}

/// A single-element rank-0 array holding `s`.
pub fn scalar(s: i64) -> (r: NdArray)
    ensures
        r.wf(),
        r.shape == Shape::Scalar,
        r.data() == seq![s],
{
    let mut values: Vec<i64> = Vec::new();
    values.push(s);
    proof {
        assert(values@ =~= seq![s]);
        assert(dims_product(Shape::Scalar.dims_spec()) == 1);
    }
    NdArray { shape: Shape::Scalar, values }
}

/// A square matrix whose main diagonal holds the (flattened) values of the
/// input and whose other cells are zero.
pub fn diagflat(inp: &NdArray) -> (r: NdArray)
    requires
        inp.data().len() <= u32::MAX,
        inp.data().len() * inp.data().len() <= usize::MAX,
    ensures
        r.wf(),
        r.shape == Shape::Matrix([inp.data().len() as u32, inp.data().len() as u32]),
        forall|i: int, j: int|
            0 <= i < inp.data().len() && 0 <= j < inp.data().len() ==> #[trigger] grid_cell(
                r.data(),
                0,
                inp.data().len() as int,
                i,
                j,
            ) == (if i == j {
                inp.data()[i]
            } else {
                0i64
            }),
{
    let n = inp.values.len() as u32;
    let nn = n as usize;
    let shape = Shape::Matrix([n, n]);
    let ghost ni = n as int;
    proof {
        let ds = shape.dims_spec();
        assert(crate::shape::suffix_product(ds, 0) == (ds[0] as nat) * crate::shape::suffix_product(
            ds,
            1,
        ));
        assert(crate::shape::suffix_product(ds, 1) == (ds[1] as nat) * crate::shape::suffix_product(
            ds,
            2,
        ));
        assert(crate::shape::suffix_product(ds, 2) == 1);
        assert((ds[0] as nat) * ((ds[1] as nat) * 1) == (n as nat) * (n as nat))
            by (nonlinear_arith)
            requires
                ds[0] == n,
                ds[1] == n,
        ;
    }
    let mut out = NdArray::new(shape);
    proof {
        assert forall|i: int, j: int| 0 <= i < n && 0 <= j < n implies grid_cell(
            out.data(),
            0,
            ni,
            i,
            j,
        ) == 0i64 by {
            lemma_grid_cell_bound(i, j, ni, ni);
        }
    }
    let mut i: usize = 0;
    while i < nn
        invariant
            i <= nn,
            nn == ni,
            out.shape == shape,
            out.data().len() == (n as nat) * (n as nat),
            inp.data().len() == ni,
            forall|r0: int, c0: int|
                0 <= r0 < n && 0 <= c0 < n ==> #[trigger] grid_cell(out.data(), 0, ni, r0, c0) == (
                if r0 == c0 && r0 < i {
                    inp.data()[r0]
                } else {
                    0i64
                }),
        decreases nn - i,
    {
        proof {
            lemma_grid_cell_bound(i as int, i as int, ni, ni);
        }
        let flat = i * nn + i;
        let ghost before = out.data();
        let v = inp.values[i];
        out.values.set(flat, v);
        proof {
            assert forall|r0: int, c0: int| 0 <= r0 < n && 0 <= c0 < n implies grid_cell(
                out.data(),
                0,
                ni,
                r0,
                c0,
            ) == (if r0 == c0 && r0 < i + 1 {
                inp.data()[r0]
            } else {
                0i64
            }) by {
                lemma_grid_cell_bound(r0, c0, ni, ni);
                assert(grid_cell(before, 0, ni, r0, c0) == (if r0 == c0 && r0 < i {
                    inp.data()[r0]
                } else {
                    0i64
                }));
                if r0 * ni + c0 == flat {
                    lemma_grid_index_injective(r0, c0, i as int, i as int, ni);
                }
            }
        }
        i = i + 1;
    }
    out
}

/// The index that `argmax`/`argmin` report for column `c`: the first
/// position of the column's extremum (`largest` picks which).
pub open spec fn is_first_extremum(
    data: Seq<i64>,
    ll: int,
    c: int,
    idx: int,
    largest: bool,
) -> bool {
    &&& 0 <= idx < ll
    &&& forall|t: int|
        0 <= t < ll ==> (if largest {
            #[trigger] grid_cell(data, 0, ll, c, t) <= grid_cell(data, 0, ll, c, idx)
        } else {
            grid_cell(data, 0, ll, c, t) >= grid_cell(data, 0, ll, c, idx)
        })
    &&& forall|t: int|
        0 <= t < idx ==> (if largest {
            #[trigger] grid_cell(data, 0, ll, c, t) < grid_cell(data, 0, ll, c, idx)
        } else {
            grid_cell(data, 0, ll, c, t) > grid_cell(data, 0, ll, c, idx)
        })
}

/// Collapses the last axis into the index of the first position of each
/// column's extremum; the result's shape is the input's leading axes.
fn extremum_indices(inp: &NdArray, largest: bool) -> (r: NdArray)
    requires
        inp.wf(),
        col_len_spec(inp.shape.dims_spec()) >= 1,
        col_count_spec(inp.shape.dims_spec()) <= usize::MAX,
    ensures
        r.wf(),
        r.shape.dims_spec() == leading_dims(inp.shape.dims_spec()),
        r.shape.is_canonical(),
        r.data().len() == col_count_spec(inp.shape.dims_spec()),
        forall|c: int|
            0 <= c < r.data().len() ==> is_first_extremum(
                inp.data(),
                col_len_spec(inp.shape.dims_spec()) as int,
                c,
                #[trigger] r.data()[c] as int,
                largest,
            ),
{
    let ghost ds = inp.shape.dims_spec();
    proof {
        lemma_span_cols(ds);
        inp.lemma_data_len_bound();
    }
    let dims = inp.shape.dims();
    let rank = dims.len();
    let col_len: usize = if rank == 0 {
        1
    } else {
        dims[rank - 1] as usize
    };
    assert(col_len == col_len_spec(ds));
    let lead = crate::ndarray::leading_of(&dims);
    let lshape = shape_of_dims(lead);
    let count = lshape.span();
    let ghost ll = col_len as int;
    let mut values: Vec<i64> = Vec::new();
    let mut c: usize = 0;
    while c < count
        invariant
            c <= count,
            count == col_count_spec(ds),
            col_len == col_len_spec(ds),
            col_len >= 1,
            inp.data().len() == col_count_spec(ds) * col_len_spec(ds),
            values@.len() == c,
            forall|u: int|
                0 <= u < c ==> is_first_extremum(
                    inp.data(),
                    ll,
                    u,
                    #[trigger] values@[u] as int,
                    largest,
                ),
        decreases count - c,
    {
        proof {
            lemma_grid_cell_bound(c as int, 0, count as int, ll);
        }
        let base = c * col_len;
        let mut best: usize = 0;
        let mut t: usize = 1;
        while t < col_len
            invariant
                1 <= t <= col_len,
                best < t,
                c < count,
                col_len == col_len_spec(ds),
                base == c * ll,
                inp.data().len() == col_count_spec(ds) * col_len_spec(ds),
                count == col_count_spec(ds),
                forall|u: int|
                    0 <= u < t ==> (if largest {
                        #[trigger] grid_cell(inp.data(), 0, ll, c as int, u) <= grid_cell(
                            inp.data(),
                            0,
                            ll,
                            c as int,
                            best as int,
                        )
                    } else {
                        grid_cell(inp.data(), 0, ll, c as int, u) >= grid_cell(
                            inp.data(),
                            0,
                            ll,
                            c as int,
                            best as int,
                        )
                    }),
                forall|u: int|
                    0 <= u < best ==> (if largest {
                        #[trigger] grid_cell(inp.data(), 0, ll, c as int, u) < grid_cell(
                            inp.data(),
                            0,
                            ll,
                            c as int,
                            best as int,
                        )
                    } else {
                        grid_cell(inp.data(), 0, ll, c as int, u) > grid_cell(
                            inp.data(),
                            0,
                            ll,
                            c as int,
                            best as int,
                        )
                    }),
            decreases col_len - t,
        {
            proof {
                lemma_grid_cell_bound(c as int, t as int, count as int, ll);
                lemma_grid_cell_bound(c as int, best as int, count as int, ll);
            }
            let cur = inp.values[base + t];
            let so_far = inp.values[base + best];
            let replace = if largest {
                so_far < cur
            } else {
                so_far > cur
            };
            if replace {
                best = t;
            }
            t = t + 1;
        }
        values.push(best as i64);
        c = c + 1;
    }
    let rshape = shape_of_dims(crate::ndarray::leading_of(&dims));
    proof {
        assert(rshape.dims_spec() =~= leading_dims(ds));
    }
    NdArray { shape: rshape, values }
}

/// Collapses the last axis into the index of its largest element (the first
/// such position when the maximum repeats).
pub fn argmax(inp: &NdArray) -> (r: NdArray)
    requires
        inp.wf(),
        col_len_spec(inp.shape.dims_spec()) >= 1,
        col_count_spec(inp.shape.dims_spec()) <= usize::MAX,
    ensures
        r.wf(),
        r.shape.dims_spec() == leading_dims(inp.shape.dims_spec()),
        r.shape.is_canonical(),
        r.data().len() == col_count_spec(inp.shape.dims_spec()),
        forall|c: int|
            0 <= c < r.data().len() ==> is_first_extremum(
                inp.data(),
                col_len_spec(inp.shape.dims_spec()) as int,
                c,
                #[trigger] r.data()[c] as int,
                true,
            ),
{
    extremum_indices(inp, true)
}

/// Collapses the last axis into the index of its smallest element (the
/// first such position when the minimum repeats).
pub fn argmin(inp: &NdArray) -> (r: NdArray)
    requires
        inp.wf(),
        col_len_spec(inp.shape.dims_spec()) >= 1,
        col_count_spec(inp.shape.dims_spec()) <= usize::MAX,
    ensures
        r.wf(),
        r.shape.dims_spec() == leading_dims(inp.shape.dims_spec()),
        r.shape.is_canonical(),
        r.data().len() == col_count_spec(inp.shape.dims_spec()),
        forall|c: int|
            0 <= c < r.data().len() ==> is_first_extremum(
                inp.data(),
                col_len_spec(inp.shape.dims_spec()) as int,
                c,
                #[trigger] r.data()[c] as int,
                false,
            ),
{
    extremum_indices(inp, false)
}

/// The sum of all elements, wrapped as a rank-0 array.
pub fn sum(inp: &NdArray) -> (r: NdArray)
    requires
        sum_fits(inp.data()),
    ensures
        r.wf(),
        r.shape == Shape::Scalar,
        r.data() == seq![sum_spec(inp.data()) as i64],
        r.data()[0] == sum_spec(inp.data()),
{
    scalar(inp.sum())
}

/// The mean of all elements (rounded toward negative infinity), wrapped as
/// a rank-0 array; fails with `EmptyArray` exactly when there are none.
pub fn mean(inp: &NdArray) -> (r: Result<NdArray, NdArrayError>)
    requires
        sum_fits(inp.data()),
        inp.data().len() <= i64::MAX,
    ensures
        match r {
            Ok(a) => {
                &&& inp.data().len() > 0
                &&& a.wf()
                &&& a.shape == Shape::Scalar
                &&& a.data() == seq![
                    (sum_spec(inp.data()) / (inp.data().len() as int)) as i64,
                ]
            },
            Err(e) => {
                &&& e == NdArrayError::EmptyArray
                &&& inp.data().len() == 0
            },
        },
{
    match inp.mean() {
        Ok(q) => Ok(scalar(q)),
        Err(e) => Err(e),
    }
}

} // verus!
