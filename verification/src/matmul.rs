//! Broadcasting matrix multiplication on flat row-major buffers, and the
//! array-level entry point built on it.

use vstd::prelude::*;

use crate::error::NdArrayError;
use crate::ndarray::{batch_count, mat_cols, mat_rows, NdArray};
use crate::shape::{
    block_cell, dims_product, grid_cell, lemma_block_cell_bound, lemma_grid_cell_bound,
    lemma_prod_split_last, lemma_suffix_product_split_last, shape_of_dims, suffix_product, Shape,
};

verus! {

broadcast use vstd::group_vstd_default;

/// One term of the contraction sum for output cell `(i, j)`: the product of
/// `a[ao + i*kk + l]` and `b[bo + l*nn + j]`, with `a` an `m` by `kk` block
/// at offset `ao` and `b` a `kk` by `nn` block at offset `bo`.
pub open spec fn mm_term(
    a: Seq<i64>,
    b: Seq<i64>,
    kk: int,
    nn: int,
    ao: int,
    bo: int,
    i: int,
    j: int,
    l: int,
) -> int {
    a[ao + i * kk + l] * b[bo + l * nn + j]
}

/// The sum of the first `t` contraction terms of output cell `(i, j)`.
pub open spec fn mm_cell_prefix(
    a: Seq<i64>,
    b: Seq<i64>,
    kk: int,
    nn: int,
    ao: int,
    bo: int,
    i: int,
    j: int,
    t: int,
) -> int
    decreases t,
{
    if t <= 0 {
        0
    } else {
        mm_cell_prefix(a, b, kk, nn, ao, bo, i, j, t - 1) + mm_term(
            a,
            b,
            kk,
            nn,
            ao,
            bo,
            i,
            j,
            t - 1,
        )
    }
}

/// The value of output cell `(i, j)`: the full contraction sum over `kk`
/// terms, `sum over l of a[ao + i*kk + l] * b[bo + l*nn + j]`.
pub open spec fn mm_cell(
    a: Seq<i64>,
    b: Seq<i64>,
    kk: int,
    nn: int,
    ao: int,
    bo: int,
    i: int,
    j: int,
) -> int {
    mm_cell_prefix(a, b, kk, nn, ao, bo, i, j, kk)
}

/// Every contraction term and every partial sum of output cell `(i, j)`
/// stays within `i64` (a machine limit the caller must respect).
pub open spec fn mm_cell_fits(
    a: Seq<i64>,
    b: Seq<i64>,
    kk: int,
    nn: int,
    ao: int,
    bo: int,
    i: int,
    j: int,
) -> bool {
    &&& forall|l: int|
        0 <= l < kk ==> i64::MIN <= #[trigger] mm_term(a, b, kk, nn, ao, bo, i, j, l) <= i64::MAX
    &&& forall|t: int|
        0 <= t <= kk ==> i64::MIN <= #[trigger] mm_cell_prefix(a, b, kk, nn, ao, bo, i, j, t)
            <= i64::MAX
}

/// The block offset of batch `t` when consecutive batches are `step`
/// elements apart (`step == 0` broadcasts one block to every batch).
pub open spec fn step_off(step: int, t: int) -> int {
    step * t
}

/// Every output cell of every batch fits in `i64` (a machine limit the
/// caller must respect).
pub open spec fn mm_fits_grid(
    a: Seq<i64>,
    b: Seq<i64>,
    batches: int,
    m: int,
    kk: int,
    nn: int,
    a_step: int,
    b_step: int,
) -> bool {
    forall|t: int, i: int, j: int|
        0 <= t < batches && 0 <= i < m && 0 <= j < nn ==> #[trigger] mm_cell_fits(
            a,
            b,
            kk,
            nn,
            step_off(a_step, t),
            step_off(b_step, t),
            i,
            j,
        )
}

/// Computes one output cell of a matrix product: the contraction sum
/// `sum over l of a[ao + i*kk + l] * b[bo + l*nn + j]`.
pub fn mm_cell_exec(
    a: &Vec<i64>,
    b: &Vec<i64>,
    kk: usize,
    nn: usize,
    ao: usize,
    bo: usize,
    i: usize,
    j: usize,
) -> (r: i64)
    requires
        ao + i * kk + kk <= a@.len(),
        kk >= 1 ==> bo + (kk - 1) * nn + j < b@.len(),
        mm_cell_fits(a@, b@, kk as int, nn as int, ao as int, bo as int, i as int, j as int),
    ensures
        r == mm_cell(a@, b@, kk as int, nn as int, ao as int, bo as int, i as int, j as int),
{
    proof {
        vstd::std_specs::vec::axiom_spec_len(a);
        vstd::std_specs::vec::axiom_spec_len(b);
    }
    let ghost ga = a@;
    let ghost gb = b@;
    let mut acc: i64 = 0;
    let mut l: usize = 0;
    while l < kk
        invariant
            l <= kk,
            acc == mm_cell_prefix(
                ga,
                gb,
                kk as int,
                nn as int,
                ao as int,
                bo as int,
                i as int,
                j as int,
                l as int,
            ),
        decreases kk - l,
    {
        proof {
            assert(l * nn <= (kk - 1) * nn) by (nonlinear_arith)
                requires
                    l <= kk - 1,
                    nn >= 0,
            ;
            assert(l * nn >= 0) by (nonlinear_arith)
                requires
                    l >= 0,
                    nn >= 0,
            ;
            assert(i * kk >= 0) by (nonlinear_arith)
                requires
                    i >= 0,
                    kk >= 0,
            ;
            assert(mm_term(
                ga,
                gb,
                kk as int,
                nn as int,
                ao as int,
                bo as int,
                i as int,
                j as int,
                l as int,
            ) == ga[ao + i * kk + l] * gb[bo + l * nn + j as int]);
            assert(mm_cell_prefix(
                ga,
                gb,
                kk as int,
                nn as int,
                ao as int,
                bo as int,
                i as int,
                j as int,
                l + 1 as int,
            ) == mm_cell_prefix(
                ga,
                gb,
                kk as int,
                nn as int,
                ao as int,
                bo as int,
                i as int,
                j as int,
                l as int,
            ) + mm_term(
                ga,
                gb,
                kk as int,
                nn as int,
                ao as int,
                bo as int,
                i as int,
                j as int,
                l as int,
            ));
        }
        let p = a[ao + i * kk + l] * b[bo + l * nn + j];
        acc = acc + p;
        l = l + 1;
    }
    acc
}

/// Fills a fresh buffer with `batches` independent `m` by `nn` matrix
/// products, batch `t` of `a` starting at `t * a_step` and batch `t` of `b`
/// at `t * b_step` (a step of 0 broadcasts that operand to every batch).
pub fn matmul_cells(
    a: &Vec<i64>,
    b: &Vec<i64>,
    batches: usize,
    m: usize,
    kk: usize,
    nn: usize,
    a_step: usize,
    b_step: usize,
) -> (r: Vec<i64>)
    requires
        a_step == 0 ==> m * kk <= a@.len(),
        a_step != 0 ==> a_step == m * kk && batches * a_step <= a@.len(),
        b_step == 0 ==> kk * nn <= b@.len(),
        b_step != 0 ==> b_step == kk * nn && batches * b_step <= b@.len(),
        batches * (m * nn) <= usize::MAX,
        mm_fits_grid(
            a@,
            b@,
            batches as int,
            m as int,
            kk as int,
            nn as int,
            a_step as int,
            b_step as int,
        ),
    ensures
        r@.len() == batches * (m * nn),
        forall|t: int, i: int, j: int|
            0 <= t < batches && 0 <= i < m && 0 <= j < nn ==> #[trigger] block_cell(
                r@,
                m as int,
                nn as int,
                t,
                i,
                j,
            ) == mm_cell(
                a@,
                b@,
                kk as int,
                nn as int,
                step_off(a_step as int, t),
                step_off(b_step as int, t),
                i,
                j,
            ),
{
    proof {
        vstd::std_specs::vec::axiom_spec_len(a);
        vstd::std_specs::vec::axiom_spec_len(b);
    }
    let ghost ga = a@;
    let ghost gb = b@;
    let mut r: Vec<i64> = Vec::new();
    let mut t: usize = 0;
    while t < batches
        invariant
            t <= batches,
            r@.len() == t * ((m * nn) as int),
            forall|t0: int, i0: int, j0: int|
                0 <= t0 < t && 0 <= i0 < m && 0 <= j0 < nn ==> #[trigger] block_cell(
                    r@,
                    m as int,
                    nn as int,
                    t0,
                    i0,
                    j0,
                ) == mm_cell(
                    ga,
                    gb,
                    kk as int,
                    nn as int,
                    step_off(a_step as int, t0),
                    step_off(b_step as int, t0),
                    i0,
                    j0,
                ),
        decreases batches - t,
    {
        proof {
            assert(t * ((m * nn) as int) + (m * nn) <= batches * ((m * nn) as int))
                by (nonlinear_arith)
                requires
                    0 <= t < batches,
                    m * nn >= 0,
            ;
        }
        let ao: usize = if a_step == 0 {
            0
        } else {
            proof {
                assert(t * a_step + a_step <= batches * a_step) by (nonlinear_arith)
                    requires
                        0 <= t < batches,
                        a_step >= 0,
                ;
                assert(t * a_step >= 0) by (nonlinear_arith)
                    requires
                        t >= 0,
                        a_step >= 0,
                ;
            }
            t * a_step
        };
        let bo: usize = if b_step == 0 {
            0
        } else {
            proof {
                assert(t * b_step + b_step <= batches * b_step) by (nonlinear_arith)
                    requires
                        0 <= t < batches,
                        b_step >= 0,
                ;
                assert(t * b_step >= 0) by (nonlinear_arith)
                    requires
                        t >= 0,
                        b_step >= 0,
                ;
            }
            t * b_step
        };
        proof {
            assert(ao == step_off(a_step as int, t as int)) by (nonlinear_arith)
                requires
                    (a_step == 0 && ao == 0) || ao == t * a_step,
                    a_step == 0 ==> ao == 0,
            ;
            assert(bo == step_off(b_step as int, t as int)) by (nonlinear_arith)
                requires
                    (b_step == 0 && bo == 0) || bo == t * b_step,
                    b_step == 0 ==> bo == 0,
            ;
        }
        let mut i: usize = 0;
        while i < m
            invariant
                i <= m,
                t < batches,
                ao == step_off(a_step as int, t as int),
                bo == step_off(b_step as int, t as int),
                ao + m * kk <= ga.len(),
                kk * nn <= gb.len() - bo,
                r@.len() == t * ((m * nn) as int) + i * (nn as int),
                forall|t0: int, i0: int, j0: int|
                    0 <= t0 < t && 0 <= i0 < m && 0 <= j0 < nn ==> #[trigger] block_cell(
                        r@,
                        m as int,
                        nn as int,
                        t0,
                        i0,
                        j0,
                    ) == mm_cell(
                        ga,
                        gb,
                        kk as int,
                        nn as int,
                        step_off(a_step as int, t0),
                        step_off(b_step as int, t0),
                        i0,
                        j0,
                    ),
                forall|i0: int, j0: int|
                    0 <= i0 < i && 0 <= j0 < nn ==> #[trigger] block_cell(
                        r@,
                        m as int,
                        nn as int,
                        t as int,
                        i0,
                        j0,
                    ) == mm_cell(
                        ga,
                        gb,
                        kk as int,
                        nn as int,
                        step_off(a_step as int, t as int),
                        step_off(b_step as int, t as int),
                        i0,
                        j0,
                    ),
            decreases m - i,
        {
            let mut j: usize = 0;
            while j < nn
                invariant
                    j <= nn,
                    i < m,
                    t < batches,
                    ao == step_off(a_step as int, t as int),
                    bo == step_off(b_step as int, t as int),
                    ao + m * kk <= ga.len(),
                    kk * nn <= gb.len() - bo,
                    r@.len() == t * ((m * nn) as int) + i * (nn as int) + j,
                    forall|t0: int, i0: int, j0: int|
                        0 <= t0 < t && 0 <= i0 < m && 0 <= j0 < nn ==> #[trigger] block_cell(
                            r@,
                            m as int,
                            nn as int,
                            t0,
                            i0,
                            j0,
                        ) == mm_cell(
                            ga,
                            gb,
                            kk as int,
                            nn as int,
                            step_off(a_step as int, t0),
                            step_off(b_step as int, t0),
                            i0,
                            j0,
                        ),
                    forall|i0: int, j0: int|
                        0 <= i0 < i && 0 <= j0 < nn ==> #[trigger] block_cell(
                            r@,
                            m as int,
                            nn as int,
                            t as int,
                            i0,
                            j0,
                        ) == mm_cell(
                            ga,
                            gb,
                            kk as int,
                            nn as int,
                            step_off(a_step as int, t as int),
                            step_off(b_step as int, t as int),
                            i0,
                            j0,
                        ),
                    forall|j0: int|
                        0 <= j0 < j ==> #[trigger] block_cell(
                            r@,
                            m as int,
                            nn as int,
                            t as int,
                            i as int,
                            j0,
                        ) == mm_cell(
                            ga,
                            gb,
                            kk as int,
                            nn as int,
                            step_off(a_step as int, t as int),
                            step_off(b_step as int, t as int),
                            i as int,
                            j0,
                        ),
                decreases nn - j,
            {
                proof {
                    assert(i * kk + kk <= m * kk) by (nonlinear_arith)
                        requires
                            0 <= i < m,
                            kk >= 0,
                    ;
                    if kk >= 1 {
                        assert((kk - 1) * nn + j < kk * nn) by (nonlinear_arith)
                            requires
                                kk >= 1,
                                0 <= j < nn,
                        ;
                    }
                }
                let v = mm_cell_exec(a, b, kk, nn, ao, bo, i, j);
                let ghost before = r@;
                r.push(v);
                proof {
                    lemma_block_cell_bound(
                        t as int,
                        i as int,
                        j as int,
                        batches as int,
                        m as int,
                        nn as int,
                    );
                    assert(block_cell(r@, m as int, nn as int, t as int, i as int, j as int) == v);
                    assert forall|t0: int, i0: int, j0: int|
                        0 <= t0 < t && 0 <= i0 < m && 0 <= j0 < nn implies #[trigger] block_cell(
                        r@,
                        m as int,
                        nn as int,
                        t0,
                        i0,
                        j0,
                    ) == mm_cell(
                        ga,
                        gb,
                        kk as int,
                        nn as int,
                        step_off(a_step as int, t0),
                        step_off(b_step as int, t0),
                        i0,
                        j0,
                    ) by {
                        lemma_block_cell_bound(t0, i0, j0, t as int, m as int, nn as int);
                        assert(block_cell(before, m as int, nn as int, t0, i0, j0) == mm_cell(
                            ga,
                            gb,
                            kk as int,
                            nn as int,
                            step_off(a_step as int, t0),
                            step_off(b_step as int, t0),
                            i0,
                            j0,
                        ));
                    }
                    assert forall|i0: int, j0: int|
                        0 <= i0 < i && 0 <= j0 < nn implies #[trigger] block_cell(
                        r@,
                        m as int,
                        nn as int,
                        t as int,
                        i0,
                        j0,
                    ) == mm_cell(
                        ga,
                        gb,
                        kk as int,
                        nn as int,
                        step_off(a_step as int, t as int),
                        step_off(b_step as int, t as int),
                        i0,
                        j0,
                    ) by {
                        assert(i0 * (nn as int) + j0 < i * (nn as int)) by (nonlinear_arith)
                            requires
                                0 <= i0 < i,
                                0 <= j0 < nn,
                        ;
                        assert(block_cell(before, m as int, nn as int, t as int, i0, j0)
                            == mm_cell(
                            ga,
                            gb,
                            kk as int,
                            nn as int,
                            step_off(a_step as int, t as int),
                            step_off(b_step as int, t as int),
                            i0,
                            j0,
                        ));
                    }
                    assert forall|j0: int| 0 <= j0 < j implies #[trigger] block_cell(
                        r@,
                        m as int,
                        nn as int,
                        t as int,
                        i as int,
                        j0,
                    ) == mm_cell(
                        ga,
                        gb,
                        kk as int,
                        nn as int,
                        step_off(a_step as int, t as int),
                        step_off(b_step as int, t as int),
                        i as int,
                        j0,
                    ) by {
                        assert(block_cell(before, m as int, nn as int, t as int, i as int, j0)
                            == mm_cell(
                            ga,
                            gb,
                            kk as int,
                            nn as int,
                            step_off(a_step as int, t as int),
                            step_off(b_step as int, t as int),
                            i as int,
                            j0,
                        ));
                    }
                }
                j = j + 1;
            }
            proof {
                assert((i + 1) * (nn as int) == i * (nn as int) + nn) by (nonlinear_arith);
            }
            i = i + 1;
        }
        proof {
            assert((t + 1) * ((m * nn) as int) == t * ((m * nn) as int) + m * nn)
                by (nonlinear_arith)
                requires
                    m * nn >= 0,
            ;
        }
        t = t + 1;
    }
    r
}

/// Batch count of a matmul operand: the product of all axes before the
/// trailing matrix; 1 for vectors and matrices.
pub open spec fn op_batch(dims: Seq<u32>) -> nat {
    if dims.len() <= 1 {
        1
    } else {
        batch_count(dims)
    }
}

/// Row count `M` of the left operand; a vector is a single row.
pub open spec fn op_rows_a(dims: Seq<u32>) -> nat {
    if dims.len() == 1 {
        1
    } else {
        mat_rows(dims)
    }
}

/// Inner dimension `K` of the left operand.
pub open spec fn op_cols_a(dims: Seq<u32>) -> nat {
    if dims.len() == 1 {
        dims[0] as nat
    } else {
        mat_cols(dims)
    }
}

/// Inner dimension `K` of the right operand.
pub open spec fn op_rows_b(dims: Seq<u32>) -> nat {
    if dims.len() == 1 {
        dims[0] as nat
    } else {
        mat_rows(dims)
    }
}

/// Column count `N` of the right operand; a vector is a single column.
pub open spec fn op_cols_b(dims: Seq<u32>) -> nat {
    if dims.len() == 1 {
        1
    } else {
        mat_cols(dims)
    }
}

/// The two operands can be contracted: neither is a scalar, the inner
/// dimensions agree, and the batch counts agree or one side broadcasts.
pub open spec fn mm_compat(sa: Seq<u32>, sb: Seq<u32>) -> bool {
    &&& sa.len() >= 1
    &&& sb.len() >= 1
    &&& op_cols_a(sa) == op_rows_b(sb)
    &&& (op_batch(sa) == op_batch(sb) || op_batch(sa) == 1 || op_batch(sb) == 1)
}

/// Number of independent matrix products: the non-broadcast batch count.
pub open spec fn mm_batches(sa: Seq<u32>, sb: Seq<u32>) -> nat {
    if op_batch(sa) == 1 {
        op_batch(sb)
    } else {
        op_batch(sa)
    }
}

/// The result's leading (batch) axes: those of the operand that is not
/// broadcast; none when both operands carry a single batch.
pub open spec fn mm_batch_dims(sa: Seq<u32>, sb: Seq<u32>) -> Seq<u32> {
    if op_batch(sa) != 1 {
        sa.take(sa.len() - 2)
    } else if op_batch(sb) != 1 {
        sb.take(sb.len() - 2)
    } else {
        Seq::<u32>::empty()
    }
}

/// The result's axes: batch axes, then `M` if the left operand has a row
/// axis, then `N` if the right operand has a column axis.
pub open spec fn mm_result_dims(sa: Seq<u32>, sb: Seq<u32>) -> Seq<u32> {
    mm_batch_dims(sa, sb) + (if sa.len() >= 2 {
        seq![sa[sa.len() - 2]]
    } else {
        Seq::<u32>::empty()
    }) + (if sb.len() >= 2 {
        seq![sb[sb.len() - 1]]
    } else {
        Seq::<u32>::empty()
    })
}

/// Element count of the result.
pub open spec fn mm_out_len(sa: Seq<u32>, sb: Seq<u32>) -> nat {
    mm_batches(sa, sb) * (op_rows_a(sa) * op_cols_b(sb))
}

/// Distance between consecutive batches of the left operand (0 broadcasts).
pub open spec fn mm_a_step(sa: Seq<u32>) -> nat {
    if op_batch(sa) == 1 {
        0
    } else {
        op_rows_a(sa) * op_cols_a(sa)
    }
}

/// Distance between consecutive batches of the right operand (0 broadcasts).
pub open spec fn mm_b_step(sb: Seq<u32>) -> nat {
    if op_batch(sb) == 1 {
        0
    } else {
        op_rows_b(sb) * op_cols_b(sb)
    }
}

proof fn lemma_suffix_concat_hi(s1: Seq<u32>, s2: Seq<u32>, k: int)
    requires
        0 <= k <= s2.len(),
    ensures
        suffix_product(s1 + s2, s1.len() + k) == suffix_product(s2, k),
    decreases s2.len() - k,
{
    if k == s2.len() {
        assert(suffix_product(s1 + s2, s1.len() + k) == 1);
        assert(suffix_product(s2, k) == 1);
    } else {
        lemma_suffix_concat_hi(s1, s2, k + 1);
        assert((s1 + s2)[s1.len() + k] == s2[k]);
        assert(suffix_product(s1 + s2, s1.len() + k) == ((s1 + s2)[s1.len() + k] as nat)
            * suffix_product(s1 + s2, s1.len() + k + 1));
        assert(suffix_product(s2, k) == (s2[k] as nat) * suffix_product(s2, k + 1));
    }
}

proof fn lemma_suffix_concat_lo(s1: Seq<u32>, s2: Seq<u32>, i: int)
    requires
        0 <= i <= s1.len(),
    ensures
        suffix_product(s1 + s2, i) == suffix_product(s1, i) * dims_product(s2),
    decreases s1.len() - i,
{
    if i == s1.len() {
        lemma_suffix_concat_hi(s1, s2, 0);
        assert(suffix_product(s1, i) == 1);
        assert(1 * dims_product(s2) == dims_product(s2)) by (nonlinear_arith);
    } else {
        lemma_suffix_concat_lo(s1, s2, i + 1);
        assert((s1 + s2)[i] == s1[i]);
        assert(suffix_product(s1 + s2, i) == ((s1 + s2)[i] as nat) * suffix_product(
            s1 + s2,
            i + 1,
        ));
        assert(suffix_product(s1, i) == (s1[i] as nat) * suffix_product(s1, i + 1));
        assert((s1[i] as nat) * (suffix_product(s1, i + 1) * dims_product(s2)) == ((s1[i] as nat)
            * suffix_product(s1, i + 1)) * dims_product(s2)) by (nonlinear_arith);
    }
}

/// The span of concatenated axis lists is the product of their spans.
pub proof fn lemma_prod_concat(s1: Seq<u32>, s2: Seq<u32>)
    ensures
        dims_product(s1 + s2) == dims_product(s1) * dims_product(s2),
{
    lemma_suffix_concat_lo(s1, s2, 0);
}

/// The span of a single axis is its length.
pub proof fn lemma_prod_single(d: Seq<u32>)
    requires
        d.len() == 1,
    ensures
        dims_product(d) == d[0] as nat,
{
    assert(suffix_product(d, 0) == (d[0] as nat) * suffix_product(d, 1));
    assert(suffix_product(d, 1) == 1);
    assert((d[0] as nat) * 1 == d[0] as nat) by (nonlinear_arith);
}

/// For compatible operands the result's span is `batches * M * N`.
pub proof fn lemma_result_prod(sa: Seq<u32>, sb: Seq<u32>)
    requires
        mm_compat(sa, sb),
    ensures
        dims_product(mm_result_dims(sa, sb)) == mm_out_len(sa, sb),
{
    let bd = mm_batch_dims(sa, sb);
    let md: Seq<u32> = if sa.len() >= 2 {
        seq![sa[sa.len() - 2]]
    } else {
        Seq::<u32>::empty()
    };
    let nd: Seq<u32> = if sb.len() >= 2 {
        seq![sb[sb.len() - 1]]
    } else {
        Seq::<u32>::empty()
    };
    lemma_prod_concat(bd + md, nd);
    lemma_prod_concat(bd, md);
    let pm = dims_product(md);
    let pn = dims_product(nd);
    if sa.len() >= 2 {
        lemma_prod_single(md);
    }
    if sb.len() >= 2 {
        lemma_prod_single(nd);
    }
    assert(pm == op_rows_a(sa));
    assert(pn == op_cols_b(sb));
    assert(dims_product(bd) == mm_batches(sa, sb));
    assert((dims_product(bd) * pm) * pn == dims_product(bd) * (pm * pn)) by (nonlinear_arith);
}

impl NdArray {
    /// Broadcasting matrix multiplication into `out`: vector-times-matrix,
    /// matrix-times-vector, matrix-times-matrix and batched tensor products,
    /// where an operand with a single batch is repeated across the other's
    /// batches. On success `out` is entirely replaced by the result; on
    /// `ShapeMismatch` it is left untouched.
    pub fn matmul(&self, other: &NdArray, out: &mut NdArray) -> (r: Result<(), NdArrayError>)
        requires
            self.wf(),
            other.wf(),
            old(out).wf(),
            mm_compat(self.shape.dims_spec(), other.shape.dims_spec()) ==> op_batch(
                self.shape.dims_spec(),
            ) <= usize::MAX && op_batch(other.shape.dims_spec()) <= usize::MAX,
            mm_compat(self.shape.dims_spec(), other.shape.dims_spec()) ==> mm_out_len(
                self.shape.dims_spec(),
                other.shape.dims_spec(),
            ) <= usize::MAX,
            mm_compat(self.shape.dims_spec(), other.shape.dims_spec()) ==> mm_fits_grid(
                self.data(),
                other.data(),
                mm_batches(self.shape.dims_spec(), other.shape.dims_spec()) as int,
                op_rows_a(self.shape.dims_spec()) as int,
                op_cols_a(self.shape.dims_spec()) as int,
                op_cols_b(other.shape.dims_spec()) as int,
                mm_a_step(self.shape.dims_spec()) as int,
                mm_b_step(other.shape.dims_spec()) as int,
            ),
        ensures
            final(out).wf(),
            match r {
                Ok(()) => {
                    &&& mm_compat(self.shape.dims_spec(), other.shape.dims_spec())
                    &&& final(out).shape.dims_spec() == mm_result_dims(
                        self.shape.dims_spec(),
                        other.shape.dims_spec(),
                    )
                    &&& final(out).shape.is_canonical()
                    &&& final(out).data().len() == mm_out_len(
                        self.shape.dims_spec(),
                        other.shape.dims_spec(),
                    )
                    &&& forall|t: int, i: int, j: int|
                        0 <= t < mm_batches(self.shape.dims_spec(), other.shape.dims_spec()) && 0
                            <= i < op_rows_a(self.shape.dims_spec()) && 0 <= j < op_cols_b(
                            other.shape.dims_spec(),
                        ) ==> #[trigger] block_cell(
                            final(out).data(),
                            op_rows_a(self.shape.dims_spec()) as int,
                            op_cols_b(other.shape.dims_spec()) as int,
                            t,
                            i,
                            j,
                        ) == mm_cell(
                            self.data(),
                            other.data(),
                            op_cols_a(self.shape.dims_spec()) as int,
                            op_cols_b(other.shape.dims_spec()) as int,
                            step_off(mm_a_step(self.shape.dims_spec()) as int, t),
                            step_off(mm_b_step(other.shape.dims_spec()) as int, t),
                            i,
                            j,
                        )
                },
                Err(e) => {
                    &&& e == NdArrayError::ShapeMismatch
                    &&& !mm_compat(self.shape.dims_spec(), other.shape.dims_spec())
                    &&& *final(out) == *old(out)
                },
            },
    {
        let ghost sa = self.shape.dims_spec();
        let ghost sb = other.shape.dims_spec();
        proof {
            self.lemma_data_len_bound();
            other.lemma_data_len_bound();
        }
        let adims = self.shape.dims();
        let bdims = other.shape.dims();
        let ra = adims.len();
        let rb = bdims.len();
        if ra == 0 || rb == 0 {
            return Err(NdArrayError::ShapeMismatch);
        }
        let m: usize = if ra == 1 {
            1
        } else {
            adims[ra - 2] as usize
        };
        let k1: usize = if ra == 1 {
            adims[0] as usize
        } else {
            adims[ra - 1] as usize
        };
        let k2: usize = if rb == 1 {
            bdims[0] as usize
        } else {
            bdims[rb - 2] as usize
        };
        let n: usize = if rb == 1 {
            1
        } else {
            bdims[rb - 1] as usize
        };
        if k1 != k2 {
            return Err(NdArrayError::ShapeMismatch);
        }
        // Batch counts; a count too large for the machine cannot belong to a
        // compatible pair under this function's preconditions.
        let mut ba: usize = 1;
        if ra >= 2 {
            let alead = two_leading(&adims);
            let ashape = shape_of_dims(alead);
            match ashape.span_checked() {
                Some(v) => {
                    ba = v;
                },
                None => {
                    proof {
                        assert(!mm_compat(sa, sb));
                    }
                    return Err(NdArrayError::ShapeMismatch);
                },
            }
        }
        let mut bb: usize = 1;
        if rb >= 2 {
            let blead = two_leading(&bdims);
            let bshape = shape_of_dims(blead);
            match bshape.span_checked() {
                Some(v) => {
                    bb = v;
                },
                None => {
                    proof {
                        assert(!mm_compat(sa, sb));
                    }
                    return Err(NdArrayError::ShapeMismatch);
                },
            }
        }
        assert(ba == op_batch(sa));
        assert(bb == op_batch(sb));
        if !(ba == bb || ba == 1 || bb == 1) {
            return Err(NdArrayError::ShapeMismatch);
        }
        assert(mm_compat(sa, sb));
        proof {
            lemma_result_prod(sa, sb);
            if ra == 1 {
                lemma_prod_single(sa);
            } else {
                crate::ndarray::lemma_prod_three(sa);
            }
            if rb == 1 {
                lemma_prod_single(sb);
            } else {
                crate::ndarray::lemma_prod_three(sb);
            }
        }
        let batches: usize = if ba == 1 {
            bb
        } else {
            ba
        };
        // The result's axis list.
        let mut rdims: Vec<u32> = Vec::new();
        if ba != 1 {
            let mut li: usize = 0;
            while li < ra - 2
                invariant
                    li <= ra - 2,
                    ra >= 2,
                    rdims@ =~= sa.take((ra - 2) as int).take(li as int),
                decreases ra - 2 - li,
            {
                rdims.push(adims[li]);
                assert(rdims@ =~= sa.take((ra - 2) as int).take(li + 1 as int));
                li = li + 1;
            }
            assert(rdims@ =~= mm_batch_dims(sa, sb));
        } else if bb != 1 {
            let mut li: usize = 0;
            while li < rb - 2
                invariant
                    li <= rb - 2,
                    rb >= 2,
                    rdims@ =~= sb.take((rb - 2) as int).take(li as int),
                decreases rb - 2 - li,
            {
                rdims.push(bdims[li]);
                assert(rdims@ =~= sb.take((rb - 2) as int).take(li + 1 as int));
                li = li + 1;
            }
            assert(rdims@ =~= mm_batch_dims(sa, sb));
        } else {
            assert(rdims@ =~= mm_batch_dims(sa, sb));
        }
        if ra >= 2 {
            rdims.push(adims[ra - 2]);
        }
        if rb >= 2 {
            rdims.push(bdims[rb - 1]);
        }
        assert(rdims@ =~= mm_result_dims(sa, sb));
        let values: Vec<i64> = if batches == 0 {
            proof {
                assert(mm_out_len(sa, sb) == 0) by (nonlinear_arith)
                    requires
                        mm_batches(sa, sb) == 0,
                        mm_out_len(sa, sb) == mm_batches(sa, sb) * (op_rows_a(sa) * op_cols_b(
                            sb,
                        )),
                ;
            }
            Vec::new()
        } else {
            let a_step: usize = if ba == 1 {
                0
            } else {
                proof {
                    assert(m * k1 <= ba * ((m * k1) as int)) by (nonlinear_arith)
                        requires
                            ba >= 1,
                            m * k1 >= 0,
                    ;
                }
                m * k1
            };
            let b_step: usize = if bb == 1 {
                0
            } else {
                proof {
                    assert(k2 * n <= bb * ((k2 * n) as int)) by (nonlinear_arith)
                        requires
                            bb >= 1,
                            k2 * n >= 0,
                    ;
                }
                k2 * n
            };
            proof {
                if ba == 1 {
                    assert(1 * ((m * k1) as int) == m * k1) by (nonlinear_arith);
                }
                if bb == 1 {
                    assert(1 * ((k2 * n) as int) == k2 * n) by (nonlinear_arith);
                }
                assert(mm_out_len(sa, sb) == batches * ((m * n) as int)) by (nonlinear_arith)
                    requires
                        mm_out_len(sa, sb) == mm_batches(sa, sb) * (op_rows_a(sa) * op_cols_b(
                            sb,
                        )),
                        mm_batches(sa, sb) == batches,
                        op_rows_a(sa) == m,
                        op_cols_b(sb) == n,
                ;
            }
            matmul_cells(&self.values, &other.values, batches, m, k1, n, a_step, b_step)
        };
        let rshape = shape_of_dims(rdims);
        proof {
            lemma_result_prod(sa, sb);
        }
        out.shape = rshape;
        out.values = values;
        proof {
            if batches != 0 {
                assert(final(out).data().len() == mm_out_len(sa, sb)) by (nonlinear_arith)
                    requires
                        final(out).data().len() == batches * ((op_rows_a(sa) * op_cols_b(
                            sb,
                        )) as int),
                        mm_out_len(sa, sb) == mm_batches(sa, sb) * (op_rows_a(sa) * op_cols_b(
                            sb,
                        )),
                        mm_batches(sa, sb) == batches,
                ;
            }
        }
        Ok(())
    }
}

/// The axes before the trailing matrix of a rank-2-or-more operand.
fn two_leading(dims: &Vec<u32>) -> (r: Vec<u32>)
    requires
        dims@.len() >= 2,
    ensures
        r@ == dims@.take(dims@.len() - 2),
{
    let mut r: Vec<u32> = Vec::new();
    let mut i: usize = 0;
    while i < dims.len() - 2
        invariant
            i <= dims@.len() - 2,
            r@ =~= dims@.take(dims@.len() - 2).take(i as int),
        decreases dims@.len() - 2 - i,
    {
        r.push(dims[i]);
        assert(r@ =~= dims@.take(dims@.len() - 2).take(i + 1 as int));
        i = i + 1;
    }
    assert(r@ =~= dims@.take(dims@.len() - 2));
    r
}

} // verus!
