//! The tiled matmul engine: the decision and merge logic of a device-assisted
//! matrix multiplication.
//!
//! A compute device covers only the full tiles of the output grid — row
//! indices below `m - m % LOCAL_SIZE_X` and column indices below
//! `n - n % LOCAL_SIZE_Y` — and hands back a chunk buffer that is zero
//! everywhere else. The CPU computes exactly the two trailing remainder
//! bands the device never reaches (their shared corner is computed twice,
//! which is redundant but harmless), and the two parts are merged by
//! addition. Rows are split into chunks of at most `ROW_SPLIT_THRESHOLD`
//! rows, each merged into its own disjoint slice of the output.

use vstd::prelude::*;

use crate::error::GpuNdArrayError;
use crate::matmul::{mm_cell, mm_cell_exec, mm_cell_fits};
use crate::shape::{grid_cell, lemma_grid_cell_bound};

verus! {

broadcast use vstd::group_vstd_default;

/// Width (in output rows) of one device workgroup tile.
pub const LOCAL_SIZE_X: usize = 32;

/// Height (in output columns) of one device workgroup tile.
pub const LOCAL_SIZE_Y: usize = 16;

/// Number of rows of the left matrix processed by one device dispatch.
pub const ROW_SPLIT_THRESHOLD: usize = 512;

/// Rows of an `rows`-row chunk that the device's tile grid covers.
pub open spec fn tiled_rows(rows: int) -> int {
    rows - (rows % (LOCAL_SIZE_X as int))
}

/// Columns of an `nn`-column output that the device's tile grid covers.
pub open spec fn tiled_cols(nn: int) -> int {
    nn - (nn % (LOCAL_SIZE_Y as int))
}

/// Cell `(i, j)` of an `rows` by `nn` chunk lies in one of the two
/// remainder bands that the device never writes.
pub open spec fn in_band(rows: int, nn: int, i: int, j: int) -> bool {
    i >= tiled_rows(rows) || j >= tiled_cols(nn)
}

/// Number of row chunks that an `m`-row product is split into.
pub open spec fn chunk_count(m: int) -> int {
    if m <= 0 {
        0
    } else {
        (m - 1) / (ROW_SPLIT_THRESHOLD as int) + 1
    }
}

/// Rows of chunk `c`: a full `ROW_SPLIT_THRESHOLD`, except for the last.
pub open spec fn chunk_rows(m: int, c: int) -> int {
    if m - c * (ROW_SPLIT_THRESHOLD as int) < ROW_SPLIT_THRESHOLD as int {
        m - c * (ROW_SPLIT_THRESHOLD as int)
    } else {
        ROW_SPLIT_THRESHOLD as int
    }
}

/// Every output cell of the whole `m` by `nn` product fits in `i64` (a
/// machine limit the caller must respect).
pub open spec fn gpu_fits(a: Seq<i64>, b: Seq<i64>, kk: int, nn: int, m: int) -> bool {
    forall|gi: int, j: int|
        0 <= gi < m && 0 <= j < nn ==> #[trigger] mm_cell_fits(a, b, kk, nn, 0, 0, gi, j)
}

/// The value a finished merge leaves at global cell `(gi, j)`: what the CPU
/// wrote for that cell (the contraction sum on the remainder bands of its
/// chunk, zero elsewhere) plus, with wrap-around, what the device chunk
/// buffer holds there.
pub open spec fn merged_cell(
    a: Seq<i64>,
    b: Seq<i64>,
    kk: int,
    nn: int,
    m: int,
    devs: Seq<Vec<i64>>,
    gi: int,
    j: int,
) -> i64 {
    let t = ROW_SPLIT_THRESHOLD as int;
    let c = gi / t;
    let li = gi % t;
    let cpu: i64 = if in_band(chunk_rows(m, c), nn, li, j) {
        mm_cell(a, b, kk, nn, 0, 0, gi, j) as i64
    } else {
        0i64
    };
    cpu.wrapping_add(devs[c]@[li * nn + j])
}

/// What a correct device returns for an `rows`-row chunk whose left block
/// starts at row `row0`: the contraction sums on the tiled region, zero on
/// the remainder bands (the output buffer is zero-initialized and the
/// shader writes only full tiles).
pub open spec fn is_correct_device_chunk(
    a: Seq<i64>,
    b: Seq<i64>,
    kk: int,
    nn: int,
    row0: int,
    rows: int,
    dev: Seq<i64>,
) -> bool {
    &&& dev.len() == rows * nn
    &&& forall|i: int, j: int|
        0 <= i < rows && 0 <= j < nn ==> #[trigger] grid_cell(dev, 0, nn, i, j) == (if !in_band(
            rows,
            nn,
            i,
            j,
        ) {
            mm_cell(a, b, kk, nn, 0, 0, row0 + i, j) as i64
        } else {
            0i64
        })
}

/// Shifting the left block offset by whole rows relabels the row index of a
/// contraction cell without changing its value or its bounds.
pub proof fn lemma_mm_cell_shift(
    a: Seq<i64>,
    b: Seq<i64>,
    kk: int,
    nn: int,
    row0: int,
    li: int,
    j: int,
    t: int,
)
    ensures
        crate::matmul::mm_cell_prefix(a, b, kk, nn, row0 * kk, 0, li, j, t)
            == crate::matmul::mm_cell_prefix(a, b, kk, nn, 0, 0, row0 + li, j, t),
    decreases t,
{
    if t > 0 {
        lemma_mm_cell_shift(a, b, kk, nn, row0, li, j, t - 1);
        assert(row0 * kk + li * kk == (row0 + li) * kk) by (nonlinear_arith);
        assert(crate::matmul::mm_term(a, b, kk, nn, row0 * kk, 0, li, j, t - 1)
            == crate::matmul::mm_term(a, b, kk, nn, 0, 0, row0 + li, j, t - 1));
    }
}

/// As `lemma_mm_cell_shift`, for the fits predicate: the shifted cell fits
/// exactly when the globally indexed cell does.
pub proof fn lemma_mm_fits_shift(a: Seq<i64>, b: Seq<i64>, kk: int, nn: int, row0: int, li: int, j: int)
    requires
        mm_cell_fits(a, b, kk, nn, 0, 0, row0 + li, j),
    ensures
        mm_cell_fits(a, b, kk, nn, row0 * kk, 0, li, j),
{
    assert(row0 * kk + li * kk == (row0 + li) * kk) by (nonlinear_arith);
    assert forall|l: int| 0 <= l < kk implies i64::MIN <= #[trigger] crate::matmul::mm_term(
        a,
        b,
        kk,
        nn,
        row0 * kk,
        0,
        li,
        j,
        l,
    ) <= i64::MAX by {
        assert(crate::matmul::mm_term(a, b, kk, nn, row0 * kk, 0, li, j, l)
            == crate::matmul::mm_term(a, b, kk, nn, 0, 0, row0 + li, j, l));
    }
    assert forall|t: int| 0 <= t <= kk implies i64::MIN
        <= #[trigger] crate::matmul::mm_cell_prefix(a, b, kk, nn, row0 * kk, 0, li, j, t)
        <= i64::MAX by {
        lemma_mm_cell_shift(a, b, kk, nn, row0, li, j, t);
    }
}

/// One part of a chunk's output: the contraction sums on either the tiled
/// region (`tile_part`, what a correct device computes) or the remainder
/// bands (`!tile_part`, what the CPU computes while the device runs), and
/// zero on the rest.
fn chunk_part(
    a: &Vec<i64>,
    b: &Vec<i64>,
    kk: usize,
    nn: usize,
    row0: usize,
    rows: usize,
    tile_part: bool,
) -> (r: Vec<i64>)
    requires
        row0 + rows <= usize::MAX,
        (row0 + rows) * kk <= a@.len(),
        kk * nn <= b@.len(),
        rows * nn <= usize::MAX,
        forall|i: int, j: int|
            0 <= i < rows && 0 <= j < nn ==> #[trigger] mm_cell_fits(
                a@,
                b@,
                kk as int,
                nn as int,
                0,
                0,
                row0 + i,
                j,
            ),
    ensures
        r@.len() == rows * nn,
        forall|i: int, j: int|
            0 <= i < rows && 0 <= j < nn ==> #[trigger] grid_cell(r@, 0, nn as int, i, j) == (
            if in_band(rows as int, nn as int, i, j) != tile_part {
                mm_cell(a@, b@, kk as int, nn as int, 0, 0, row0 + i, j) as i64
            } else {
                0i64
            }),
{
    proof {
        vstd::std_specs::vec::axiom_spec_len(a);
        vstd::std_specs::vec::axiom_spec_len(b);
    }
    let tr = rows - rows % LOCAL_SIZE_X;
    let tc = nn - nn % LOCAL_SIZE_Y;
    assert(tr == tiled_rows(rows as int));
    assert(tc == tiled_cols(nn as int));
    let mut r: Vec<i64> = Vec::new();
    let mut i: usize = 0;
    while i < rows
        invariant
            i <= rows,
            r@.len() == i * (nn as int),
            forall|i0: int, j0: int|
                0 <= i0 < i && 0 <= j0 < nn ==> #[trigger] grid_cell(r@, 0, nn as int, i0, j0) == (
                if in_band(rows as int, nn as int, i0, j0) != tile_part {
                    mm_cell(a@, b@, kk as int, nn as int, 0, 0, row0 + i0, j0) as i64
                } else {
                    0i64
                }),
        decreases rows - i,
    {
        let mut j: usize = 0;
        while j < nn
            invariant
                j <= nn,
                i < rows,
                r@.len() == i * (nn as int) + j,
                forall|i0: int, j0: int|
                    0 <= i0 < i && 0 <= j0 < nn ==> #[trigger] grid_cell(r@, 0, nn as int, i0, j0)
                        == (if in_band(rows as int, nn as int, i0, j0) != tile_part {
                        mm_cell(a@, b@, kk as int, nn as int, 0, 0, row0 + i0, j0) as i64
                    } else {
                        0i64
                    }),
                forall|j0: int|
                    0 <= j0 < j ==> #[trigger] grid_cell(r@, 0, nn as int, i as int, j0) == (
                    if in_band(rows as int, nn as int, i as int, j0) != tile_part {
                        mm_cell(a@, b@, kk as int, nn as int, 0, 0, row0 + i, j0) as i64
                    } else {
                        0i64
                    }),
            decreases nn - j,
        {
            let in_tile = i < tr && j < tc;
            let v: i64 = if in_tile == tile_part {
                proof {
                    assert((row0 + i) * kk + kk <= (row0 + rows) * kk) by (nonlinear_arith)
                        requires
                            0 <= i < rows,
                            kk >= 0,
                            row0 >= 0,
                    ;
                    if kk >= 1 {
                        assert((kk - 1) * nn + j < kk * nn) by (nonlinear_arith)
                            requires
                                kk >= 1,
                                0 <= j < nn,
                        ;
                    }
                    assert(mm_cell_fits(
                        a@,
                        b@,
                        kk as int,
                        nn as int,
                        0,
                        0,
                        row0 + i as int,
                        j as int,
                    ));
                    lemma_mm_fits_shift(
                        a@,
                        b@,
                        kk as int,
                        nn as int,
                        (row0 + i) as int,
                        0,
                        j as int,
                    );
                }
                let cell = mm_cell_exec(a, b, kk, nn, (row0 + i) * kk, 0, 0, j);
                proof {
                    crate::gpu::lemma_mm_cell_shift(
                        a@,
                        b@,
                        kk as int,
                        nn as int,
                        (row0 + i) as int,
                        0,
                        j as int,
                        kk as int,
                    );
                }
                cell
            } else {
                0i64
            };
            let ghost before = r@;
            r.push(v);
            proof {
                lemma_grid_cell_bound(i as int, j as int, rows as int, nn as int);
                assert(grid_cell(r@, 0, nn as int, i as int, j as int) == v);
                assert forall|i0: int, j0: int|
                    0 <= i0 < i && 0 <= j0 < nn implies #[trigger] grid_cell(
                    r@,
                    0,
                    nn as int,
                    i0,
                    j0,
                ) == (if in_band(rows as int, nn as int, i0, j0) != tile_part {
                    mm_cell(a@, b@, kk as int, nn as int, 0, 0, row0 + i0, j0) as i64
                } else {
                    0i64
                }) by {
                    assert(i0 * (nn as int) + j0 < i * (nn as int)) by (nonlinear_arith)
                        requires
                            0 <= i0 < i,
                            0 <= j0 < nn,
                    ;
                    assert(grid_cell(before, 0, nn as int, i0, j0) == (if in_band(
                        rows as int,
                        nn as int,
                        i0,
                        j0,
                    ) != tile_part {
                        mm_cell(a@, b@, kk as int, nn as int, 0, 0, row0 + i0, j0) as i64
                    } else {
                        0i64
                    }));
                }
                assert forall|j0: int| 0 <= j0 < j implies #[trigger] grid_cell(
                    r@,
                    0,
                    nn as int,
                    i as int,
                    j0,
                ) == (if in_band(rows as int, nn as int, i as int, j0) != tile_part {
                    mm_cell(a@, b@, kk as int, nn as int, 0, 0, row0 + i, j0) as i64
                } else {
                    0i64
                }) by {
                    assert(grid_cell(before, 0, nn as int, i as int, j0) == (if in_band(
                        rows as int,
                        nn as int,
                        i as int,
                        j0,
                    ) != tile_part {
                        mm_cell(a@, b@, kk as int, nn as int, 0, 0, row0 + i, j0) as i64
                    } else {
                        0i64
                    }));
                }
            }
            j = j + 1;
        }
        proof {
            assert((i + 1) * (nn as int) == i * (nn as int) + nn) by (nonlinear_arith);
        }
        i = i + 1;
    }
    proof {
        assert(i * (nn as int) == rows * (nn as int));
    }
    r
}

/// What a correct device computes for one chunk: contraction sums on the
/// tiled region, zero on the remainder bands. The engine's reference model
/// of the device; callers can run the whole device path against it.
pub fn simulate_device_chunk(
    a: &Vec<i64>,
    b: &Vec<i64>,
    kk: usize,
    nn: usize,
    row0: usize,
    rows: usize,
) -> (r: Vec<i64>)
    requires
        row0 + rows <= usize::MAX,
        (row0 + rows) * kk <= a@.len(),
        kk * nn <= b@.len(),
        rows * nn <= usize::MAX,
        forall|i: int, j: int|
            0 <= i < rows && 0 <= j < nn ==> #[trigger] mm_cell_fits(
                a@,
                b@,
                kk as int,
                nn as int,
                0,
                0,
                row0 + i,
                j,
            ),
    ensures
        is_correct_device_chunk(
            a@,
            b@,
            kk as int,
            nn as int,
            row0 as int,
            rows as int,
            r@,
        ),
{
    chunk_part(a, b, kk, nn, row0, rows, true)
}

/// Writes a chunk buffer over the output slice that starts at `out_off`.
fn write_chunk(out: &mut Vec<i64>, out_off: usize, chunk: &Vec<i64>)
    requires
        out_off + chunk@.len() <= old(out)@.len(),
    ensures
        final(out)@.len() == old(out)@.len(),
        forall|g: int| 0 <= g < chunk@.len() ==> final(out)@[out_off + g] == chunk@[g],
        forall|f: int|
            0 <= f < old(out)@.len() && !(out_off <= f < out_off + chunk@.len())
                ==> final(out)@[f] == old(out)@[f],
{
    let total = out.len();
    let mut g: usize = 0;
    while g < chunk.len()
        invariant
            g <= chunk@.len(),
            out@.len() == total,
            total == old(out)@.len(),
            forall|u: int| 0 <= u < g ==> out@[out_off + u] == chunk@[u],
            forall|f: int|
                0 <= f < old(out)@.len() && !(out_off <= f < out_off + chunk@.len()) ==> out@[f]
                    == old(out)@[f],
        decreases chunk.len() - g,
    {
        out.set(out_off + g, chunk[g]);
        g = g + 1;
    }
}

/// Adds a device chunk buffer, with wrap-around, into the output slice that
/// starts at `out_off` — the merge step: cells the device computed land on
/// zeros, and the device's zeros leave the CPU's remainder bands alone.
fn add_chunk(out: &mut Vec<i64>, out_off: usize, chunk: &Vec<i64>)
    requires
        out_off + chunk@.len() <= old(out)@.len(),
    ensures
        final(out)@.len() == old(out)@.len(),
        forall|g: int|
            0 <= g < chunk@.len() ==> final(out)@[out_off + g] == old(out)@[out_off + g].wrapping_add(
                chunk@[g],
            ),
        forall|f: int|
            0 <= f < old(out)@.len() && !(out_off <= f < out_off + chunk@.len())
                ==> final(out)@[f] == old(out)@[f],
{
    let total = out.len();
    let mut g: usize = 0;
    while g < chunk.len()
        invariant
            g <= chunk@.len(),
            out@.len() == total,
            total == old(out)@.len(),
            forall|u: int|
                0 <= u < g ==> out@[out_off + u] == old(out)@[out_off + u].wrapping_add(chunk@[u]),
            forall|f: int|
                0 <= f < old(out)@.len() && !(out_off <= f < out_off + g) ==> out@[f] == old(
                    out,
                )@[f],
        decreases chunk.len() - g,
    {
        let v = out[out_off + g].wrapping_add(chunk[g]);
        out.set(out_off + g, v);
        g = g + 1;
    }
}

/// Runs the chunked merge against the given per-chunk device buffers: for
/// each row chunk, the CPU part (remainder bands over zeros) is written
/// into the output slice and the device buffer is added on top. Holds for
/// every device outcome; `merged_cell` says what each cell ends up as.
pub fn gpu_matmul_with_device(
    a: &Vec<i64>,
    b: &Vec<i64>,
    m: usize,
    kk: usize,
    nn: usize,
    out: &mut Vec<i64>,
    devs: &Vec<Vec<i64>>,
)
    requires
        m * kk <= a@.len(),
        kk * nn <= b@.len(),
        m * nn <= old(out)@.len(),
        devs@.len() == chunk_count(m as int),
        forall|c: int|
            0 <= c < devs@.len() ==> (#[trigger] devs@[c])@.len() == chunk_rows(m as int, c) * nn,
        gpu_fits(a@, b@, kk as int, nn as int, m as int),
    ensures
        final(out)@.len() == old(out)@.len(),
        forall|gi: int, j: int|
            0 <= gi < m && 0 <= j < nn ==> #[trigger] grid_cell(final(out)@, 0, nn as int, gi, j)
                == merged_cell(a@, b@, kk as int, nn as int, m as int, devs@, gi, j),
        forall|f: int| m * nn <= f < old(out)@.len() ==> final(out)@[f] == old(out)@[f],
{
    let outlen = out.len();
    proof {
        vstd::std_specs::vec::axiom_spec_len(a);
        vstd::std_specs::vec::axiom_spec_len(b);
    }
    let thr = ROW_SPLIT_THRESHOLD;
    let nchunks = devs.len();
    let ghost t_int = ROW_SPLIT_THRESHOLD as int;
    let mut c: usize = 0;
    while c < nchunks
        invariant
            c <= nchunks,
            nchunks == chunk_count(m as int),
            thr == ROW_SPLIT_THRESHOLD,
            out@.len() == outlen,
            outlen == old(out)@.len(),
            c < nchunks ==> c * t_int < m,
            forall|gi: int, j: int|
                0 <= gi < c * t_int && gi < m && 0 <= j < nn ==> #[trigger] grid_cell(
                    out@,
                    0,
                    nn as int,
                    gi,
                    j,
                ) == merged_cell(a@, b@, kk as int, nn as int, m as int, devs@, gi, j),
            forall|f: int|
                0 <= f < outlen && c * t_int * nn <= f ==> out@[f] == old(out)@[f],
            forall|f: int| m * nn <= f < outlen ==> out@[f] == old(out)@[f],
        decreases nchunks - c,
    {
        proof {
            assert(c <= (m - 1) / t_int);
            vstd::arithmetic::div_mod::lemma_fundamental_div_mod(m - 1, t_int);
            vstd::arithmetic::div_mod::lemma_mod_bound(m - 1, t_int);
            assert(c * t_int <= ((m - 1) / t_int) * t_int) by (nonlinear_arith)
                requires
                    0 <= c <= (m - 1) / t_int,
                    t_int > 0,
            ;
            assert(((m - 1) / t_int) * t_int <= m - 1) by (nonlinear_arith)
                requires
                    m - 1 == t_int * ((m - 1) / t_int) + (m - 1) % t_int,
                    (m - 1) % t_int >= 0,
            ;
        }
        let row0 = c * thr;
        let rows = if m - row0 < thr {
            m - row0
        } else {
            thr
        };
        assert(rows == chunk_rows(m as int, c as int));
        proof {
            assert(row0 * (nn as int) + rows * (nn as int) == (row0 + rows) * (nn as int))
                by (nonlinear_arith);
            assert((row0 + rows) * (nn as int) <= m * (nn as int)) by (nonlinear_arith)
                requires
                    row0 + rows <= m,
                    nn >= 0,
            ;
            assert(row0 * (nn as int) >= 0) by (nonlinear_arith)
                requires
                    row0 >= 0,
                    nn >= 0,
            ;
            assert((row0 + rows) * (kk as int) <= m * (kk as int)) by (nonlinear_arith)
                requires
                    row0 + rows <= m,
                    kk >= 0,
            ;
            assert(rows * (nn as int) <= m * (nn as int)) by (nonlinear_arith)
                requires
                    rows <= m,
                    rows >= 0,
                    nn >= 0,
                    m >= 0,
            ;
        }
        let out_off = row0 * nn;
        assert forall|i: int, j: int| 0 <= i < rows && 0 <= j < nn implies #[trigger] mm_cell_fits(
            a@,
            b@,
            kk as int,
            nn as int,
            0,
            0,
            row0 + i,
            j,
        ) by {
            assert(mm_cell_fits(a@, b@, kk as int, nn as int, 0, 0, row0 + i, j));
        }
        let cpu = chunk_part(a, b, kk, nn, row0, rows, false);
        let ghost out_before = out@;
        write_chunk(out, out_off, &cpu);
        let ghost out_mid = out@;
        add_chunk(out, out_off, &devs[c]);
        proof {
            let nni = nn as int;
            // The rows of this chunk now hold their merged value.
            assert forall|gi: int, j: int|
                row0 <= gi < row0 + rows && 0 <= j < nni implies #[trigger] grid_cell(
                out@,
                0,
                nni,
                gi,
                j,
            ) == merged_cell(a@, b@, kk as int, nni, m as int, devs@, gi, j) by {
                let li = gi - row0;
                vstd::arithmetic::div_mod::lemma_fundamental_div_mod_converse_div(
                    gi,
                    t_int,
                    c as int,
                    li,
                );
                vstd::arithmetic::div_mod::lemma_fundamental_div_mod_converse_mod(
                    gi,
                    t_int,
                    c as int,
                    li,
                );
                let g = li * nni + j;
                lemma_grid_cell_bound(li, j, rows as int, nni);
                assert(gi * nni + j == out_off + g) by (nonlinear_arith)
                    requires
                        gi == row0 + li,
                        out_off == row0 * nni,
                        g == li * nni + j,
                ;
                assert(grid_cell(cpu@, 0, nni, li, j) == (if in_band(rows as int, nni, li, j) {
                    mm_cell(a@, b@, kk as int, nni, 0, 0, row0 + li, j) as i64
                } else {
                    0i64
                }));
                assert(out_mid[out_off + g] == cpu@[g]);
                assert(out@[out_off + g] == out_mid[out_off + g].wrapping_add(devs@[c as int]@[g]));
            }
            // Rows of earlier chunks kept their merged value.
            assert forall|gi: int, j: int|
                0 <= gi < row0 && 0 <= j < nni implies #[trigger] grid_cell(out@, 0, nni, gi, j)
                == merged_cell(a@, b@, kk as int, nni, m as int, devs@, gi, j) by {
                assert(gi * nni + j < row0 * nni) by (nonlinear_arith)
                    requires
                        0 <= gi < row0,
                        0 <= j < nni,
                ;
                assert(gi * nni + j >= 0) by (nonlinear_arith)
                    requires
                        gi >= 0,
                        j >= 0,
                        nni >= 0,
                ;
                assert(out_mid[gi * nni + j] == out_before[gi * nni + j]);
                assert(grid_cell(out_before, 0, nni, gi, j) == merged_cell(
                    a@,
                    b@,
                    kk as int,
                    nni,
                    m as int,
                    devs@,
                    gi,
                    j,
                ));
            }
            // Everything beyond this chunk's slice is still untouched.
            assert forall|f: int|
                0 <= f < outlen && (c + 1) * t_int * nni <= f implies out@[f] == old(out)@[f] by {
                assert((c + 1) * t_int * nni >= (row0 + rows) * nni) by (nonlinear_arith)
                    requires
                        row0 == c * t_int,
                        rows <= t_int,
                        nni >= 0,
                        (c + 1) * t_int == c * t_int + t_int,
                ;
                assert(out_mid[f] == out_before[f]);
            }
            // Cells at or beyond the product's span are never written.
            assert forall|f: int| m * nni <= f < outlen implies out@[f] == old(out)@[f] by {
                assert(out_mid[f] == out_before[f]);
            }
            assert((c + 1) * t_int == c * t_int + t_int) by (nonlinear_arith);
        }
        c = c + 1;
    }
}

/// The full device-assisted multiplication against the engine's own
/// reference device: routes the availability errors exactly as the real
/// path does, and on success leaves the exact `m` by `nn` product in the
/// leading `m * nn` elements of `out`.
pub fn gpu_matmul_simulated(
    a: &Vec<i64>,
    b: &Vec<i64>,
    m: usize,
    kk: usize,
    nn: usize,
    out: &mut Vec<i64>,
    executor_available: bool,
    shader_available: bool,
) -> (r: Result<(), GpuNdArrayError>)
    requires
        m * kk <= a@.len(),
        kk * nn <= b@.len(),
        m * nn <= old(out)@.len(),
        gpu_fits(a@, b@, kk as int, nn as int, m as int),
    ensures
        final(out)@.len() == old(out)@.len(),
        match r {
            Ok(()) => {
                &&& executor_available
                &&& shader_available
                &&& forall|gi: int, j: int|
                    0 <= gi < m && 0 <= j < nn ==> #[trigger] grid_cell(
                        final(out)@,
                        0,
                        nn as int,
                        gi,
                        j,
                    ) == mm_cell(a@, b@, kk as int, nn as int, 0, 0, gi, j)
                &&& forall|f: int| m * nn <= f < old(out)@.len() ==> final(out)@[f] == old(out)@[f]
            },
            Err(e) => {
                &&& (e == GpuNdArrayError::NoExecutor <==> !executor_available)
                &&& (e == GpuNdArrayError::NoShader <==> executor_available && !shader_available)
                &&& *final(out) == *old(out)
            },
        },
{
    if !executor_available {
        return Err(GpuNdArrayError::NoExecutor);
    }
    if !shader_available {
        return Err(GpuNdArrayError::NoShader);
    }
    proof {
        vstd::std_specs::vec::axiom_spec_len(a);
        vstd::std_specs::vec::axiom_spec_len(b);
        vstd::std_specs::vec::axiom_spec_len(out);
    }
    let thr = ROW_SPLIT_THRESHOLD;
    let ghost t_int = ROW_SPLIT_THRESHOLD as int;
    let nchunks: usize = if m == 0 {
        0
    } else {
        (m - 1) / thr + 1
    };
    let mut devs: Vec<Vec<i64>> = Vec::new();
    let mut c: usize = 0;
    while c < nchunks
        invariant
            c <= nchunks,
            nchunks == chunk_count(m as int),
            thr == ROW_SPLIT_THRESHOLD,
            devs@.len() == c,
            forall|c0: int|
                0 <= c0 < c ==> is_correct_device_chunk(
                    a@,
                    b@,
                    kk as int,
                    nn as int,
                    c0 * t_int,
                    chunk_rows(m as int, c0),
                    (#[trigger] devs@[c0])@,
                ),
        decreases nchunks - c,
    {
        proof {
            assert(c <= (m - 1) / t_int);
            vstd::arithmetic::div_mod::lemma_fundamental_div_mod(m - 1, t_int);
            vstd::arithmetic::div_mod::lemma_mod_bound(m - 1, t_int);
            assert(c * t_int <= ((m - 1) / t_int) * t_int) by (nonlinear_arith)
                requires
                    0 <= c <= (m - 1) / t_int,
                    t_int > 0,
            ;
            assert(((m - 1) / t_int) * t_int <= m - 1) by (nonlinear_arith)
                requires
                    m - 1 == t_int * ((m - 1) / t_int) + (m - 1) % t_int,
                    (m - 1) % t_int >= 0,
            ;
        }
        let row0 = c * thr;
        let rows = if m - row0 < thr {
            m - row0
        } else {
            thr
        };
        assert(rows == chunk_rows(m as int, c as int));
        proof {
            assert((row0 + rows) * (kk as int) <= m * (kk as int)) by (nonlinear_arith)
                requires
                    row0 + rows <= m,
                    kk >= 0,
            ;
            assert(rows * (nn as int) <= m * (nn as int)) by (nonlinear_arith)
                requires
                    0 <= rows <= m,
                    nn >= 0,
                    m >= 0,
            ;
        }
        assert forall|i: int, j: int| 0 <= i < rows && 0 <= j < nn implies #[trigger] mm_cell_fits(
            a@,
            b@,
            kk as int,
            nn as int,
            0,
            0,
            row0 + i,
            j,
        ) by {
            assert(mm_cell_fits(a@, b@, kk as int, nn as int, 0, 0, row0 + i, j));
        }
        let dev = simulate_device_chunk(a, b, kk, nn, row0, rows);
        devs.push(dev);
        c = c + 1;
    }
    gpu_matmul_with_device(a, b, m, kk, nn, out, &devs);
    proof {
        let nni = nn as int;
        assert forall|gi: int, j: int| 0 <= gi < m && 0 <= j < nni implies #[trigger] grid_cell(
            out@,
            0,
            nni,
            gi,
            j,
        ) == mm_cell(a@, b@, kk as int, nni, 0, 0, gi, j) by {
            let c0 = gi / t_int;
            let li = gi % t_int;
            vstd::arithmetic::div_mod::lemma_fundamental_div_mod(gi, t_int);
            vstd::arithmetic::div_mod::lemma_mod_bound(gi, t_int);
            assert(0 <= c0 < chunk_count(m as int) && c0 * t_int + li == gi && chunk_rows(
                m as int,
                c0,
            ) > li) by (nonlinear_arith)
                requires
                    gi == t_int * c0 + li,
                    0 <= li < t_int,
                    0 <= gi < m,
                    t_int > 0,
                    chunk_count(m as int) == (m - 1) / t_int + 1,
                    chunk_rows(m as int, c0) == (if m - c0 * t_int < t_int {
                        m - c0 * t_int
                    } else {
                        t_int
                    }),
                    m - 1 == t_int * ((m - 1) / t_int) + (m - 1) % t_int,
                    0 <= (m - 1) % t_int < t_int,
            ;
            let rows0 = chunk_rows(m as int, c0);
            assert(is_correct_device_chunk(
                a@,
                b@,
                kk as int,
                nni,
                c0 * t_int,
                rows0,
                devs@[c0]@,
            ));
            assert(grid_cell(devs@[c0]@, 0, nni, li, j) == (if !in_band(rows0, nni, li, j) {
                mm_cell(a@, b@, kk as int, nni, 0, 0, c0 * t_int + li, j) as i64
            } else {
                0i64
            }));
            assert(mm_cell_fits(a@, b@, kk as int, nni, 0, 0, gi, j));
            assert(i64::MIN <= crate::matmul::mm_cell_prefix(
                a@,
                b@,
                kk as int,
                nni,
                0,
                0,
                gi,
                j,
                kk as int,
            ) <= i64::MAX);
            assert(grid_cell(out@, 0, nni, gi, j) == merged_cell(
                a@,
                b@,
                kk as int,
                nni,
                m as int,
                devs@,
                gi,
                j,
            ));
        }
    }
    Ok(())
}

/// Law: the device-assisted path and the straight CPU path agree. Any
/// buffer whose cells hold the contraction sums row-major (what
/// `gpu_matmul_simulated` leaves in the output region) equals, element for
/// element, the buffer the CPU path produces for the same operands (what
/// `matmul_cells` returns for a single batch).
pub proof fn lemma_device_path_matches_cpu(
    a: Seq<i64>,
    b: Seq<i64>,
    kk: int,
    nn: int,
    m: int,
    gpu_out: Seq<i64>,
    cpu_out: Seq<i64>,
)
    requires
        m >= 0,
        nn >= 0,
        gpu_out.len() == m * nn,
        cpu_out.len() == m * nn,
        forall|gi: int, j: int|
            0 <= gi < m && 0 <= j < nn ==> #[trigger] grid_cell(gpu_out, 0, nn, gi, j) == mm_cell(
                a,
                b,
                kk,
                nn,
                0,
                0,
                gi,
                j,
            ),
        forall|gi: int, j: int|
            0 <= gi < m && 0 <= j < nn ==> #[trigger] crate::shape::block_cell(
                cpu_out,
                m,
                nn,
                0,
                gi,
                j,
            ) == mm_cell(a, b, kk, nn, 0, 0, gi, j),
    ensures
        gpu_out == cpu_out,
{
    assert forall|f: int| 0 <= f < gpu_out.len() implies gpu_out[f] == cpu_out[f] by {
        assert(m * nn <= 1 * (m * nn)) by (nonlinear_arith);
        let (t0, i0, j0) = crate::ndarray::lemma_block_decompose(f, 1, m, nn);
        assert(grid_cell(gpu_out, 0, nn, i0, j0) == gpu_out[f]);
        assert(crate::shape::block_cell(cpu_out, m, nn, 0, i0, j0) == cpu_out[f])
            by (nonlinear_arith)
            requires
                f == i0 * nn + j0,
                crate::shape::block_cell(cpu_out, m, nn, 0, i0, j0) == cpu_out[0 * (m * nn) + i0
                    * nn + j0],
        ;
        assert(grid_cell(gpu_out, 0, nn, i0, j0) == mm_cell(a, b, kk, nn, 0, 0, i0, j0));
        assert(crate::shape::block_cell(cpu_out, m, nn, 0, i0, j0) == mm_cell(
            a,
            b,
            kk,
            nn,
            0,
            0,
            i0,
            j0,
        ));
    }
    assert(gpu_out =~= cpu_out);
}

} // verus!
