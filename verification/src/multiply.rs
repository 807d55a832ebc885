//! The matrix-multiplication engine: the cache-friendly blocked
//! accumulation kernel, the quadrant split, and the band assembly that the
//! public multiply dispatches to.
//!
//! The reference semantics is the naive triple-loop product, written down
//! as the `dot_range` reduction over flat row-major buffers. The blocked
//! kernel, the quadrant bands and the public multiply all carry contracts
//! pinned to that one reduction, so every strategy provably computes the
//! same matrix.

use vstd::prelude::*;

use crate::tensor::elems_bounded;
use crate::tensor::int_seq;
use crate::tensor::lemma_dim_product_fits;
use crate::tensor::lemma_flat_decomp;
use crate::tensor::lemma_index_in_bounds;
use crate::tensor::lemma_row_major_index;
use crate::tensor::ShapeError;
use crate::tensor::Tensor;
use crate::tensor::ACC_BOUND;
use crate::tensor::DIM_BOUND;
use crate::tensor::ELEM_BOUND;

verus! {

/// Partial sum of the naive product reduction: over `a` (a row-major
/// `m` by `k` buffer) and `b` (a row-major `k` by `n` buffer), the sum of
/// `a[i][j] * b[j][l]` for `j` in `[lo, hi)`.
pub open spec fn dot_range(
    a: Seq<int>,
    b: Seq<int>,
    k: int,
    n: int,
    i: int,
    l: int,
    lo: int,
    hi: int,
) -> int
    decreases hi - lo,
{
    if hi <= lo {
        0
    } else {
        dot_range(a, b, k, n, i, l, lo, hi - 1) + a[i * k + (hi - 1)] * b[(hi - 1) * n + l]
    }
}

/// Entry `(i, l)` of the matrix product: the full reduction over all `k`
/// inner indices. This is the naive triple-loop reference that every
/// multiply strategy of this library is proved against.
pub open spec fn dot(a: Seq<int>, b: Seq<int>, k: int, n: int, i: int, l: int) -> int {
    dot_range(a, b, k, n, i, l, 0, k)
}

/// Position `p` lies in the output region that one kernel call writes:
/// some row `i < m`, column `l < n` of the block that starts at `off` and
/// advances by `stride` per row.
pub open spec fn in_block(p: int, off: int, m: int, n: int, stride: int) -> bool {
    &&& stride > 0
    &&& p - off >= 0
    &&& (p - off) / stride < m
    &&& (p - off) % stride < n
}

/// The reduction over `[lo, hi)` splits at any `mid` into the two partial
/// reductions. This is the arithmetic heart of the quadrant strategy: the
/// left and right half-products may be accumulated separately, in either
/// order, and recombine to the full product.
pub proof fn lemma_dot_range_split(
    a: Seq<int>,
    b: Seq<int>,
    k: int,
    n: int,
    i: int,
    l: int,
    lo: int,
    mid: int,
    hi: int,
)
    requires
        lo <= mid <= hi,
    ensures
        dot_range(a, b, k, n, i, l, lo, hi) == dot_range(a, b, k, n, i, l, lo, mid) + dot_range(
            a,
            b,
            k,
            n,
            i,
            l,
            mid,
            hi,
        ),
    decreases hi - mid,
{
    if hi > mid {
        lemma_dot_range_split(a, b, k, n, i, l, lo, mid, hi - 1);
    }
}

/// A reduction over a compacted sub-block equals the matching segment of
/// the reduction over the parent buffers: `aq` holds row `i` of the parent
/// `a` from inner index `j0` on, `bq` holds column `l` of the parent `b`
/// from inner row `j0` on, both re-packed with their own strides.
pub proof fn lemma_dot_range_map(
    aq: Seq<int>,
    bq: Seq<int>,
    kq: int,
    nq: int,
    iq: int,
    lq: int,
    a: Seq<int>,
    b: Seq<int>,
    k: int,
    n: int,
    i: int,
    l: int,
    j0: int,
    cnt: int,
)
    requires
        0 <= cnt <= kq,
        forall|jj: int| 0 <= jj < kq ==> #[trigger] aq[iq * kq + jj] == a[i * k + (j0 + jj)],
        forall|jj: int| 0 <= jj < kq ==> #[trigger] bq[jj * nq + lq] == b[(j0 + jj) * n + l],
    ensures
        dot_range(aq, bq, kq, nq, iq, lq, 0, cnt) == dot_range(a, b, k, n, i, l, j0, j0 + cnt),
    decreases cnt,
{
    if cnt > 0 {
        lemma_dot_range_map(aq, bq, kq, nq, iq, lq, a, b, k, n, i, l, j0, cnt - 1);
        assert(aq[iq * kq + (cnt - 1)] == a[i * k + (j0 + cnt - 1)]);
        assert(bq[(cnt - 1) * nq + lq] == b[(j0 + cnt - 1) * n + l]);
    }
}

/// The two reductions over one row of compacted left/right quadrants,
/// against the matching top/bottom quadrants of the right operand,
/// recombine into the full reduction over the parent buffers.
pub proof fn lemma_quadrant_dot(
    a_left: Seq<int>,
    a_right: Seq<int>,
    b_top: Seq<int>,
    b_bottom: Seq<int>,
    a: Seq<int>,
    b: Seq<int>,
    k: int,
    n: int,
    k1: int,
    nq: int,
    iq: int,
    lq: int,
    i: int,
    l: int,
)
    requires
        0 <= k1 <= k,
        forall|jj: int| 0 <= jj < k1 ==> #[trigger] a_left[iq * k1 + jj] == a[i * k + jj],
        forall|jj: int|
            0 <= jj < k - k1 ==> #[trigger] a_right[iq * (k - k1) + jj] == a[i * k + (k1 + jj)],
        forall|jj: int| 0 <= jj < k1 ==> #[trigger] b_top[jj * nq + lq] == b[jj * n + l],
        forall|jj: int|
            0 <= jj < k - k1 ==> #[trigger] b_bottom[jj * nq + lq] == b[(k1 + jj) * n + l],
    ensures
        dot(a_left, b_top, k1, nq, iq, lq) + dot(a_right, b_bottom, k - k1, nq, iq, lq) == dot(
            a,
            b,
            k,
            n,
            i,
            l,
        ),
{
    lemma_dot_range_map(a_left, b_top, k1, nq, iq, lq, a, b, k, n, i, l, 0, k1);
    lemma_dot_range_map(a_right, b_bottom, k - k1, nq, iq, lq, a, b, k, n, i, l, k1, k - k1);
    lemma_dot_range_split(a, b, k, n, i, l, 0, k1, k);
}

/// Magnitude bound on a partial reduction: each of the `hi - lo` terms is
/// a product of two elements bounded by `ea` and `eb`.
pub proof fn lemma_dot_range_bound(
    a: Seq<int>,
    b: Seq<int>,
    k: int,
    n: int,
    i: int,
    l: int,
    lo: int,
    hi: int,
    ea: int,
    eb: int,
)
    requires
        lo <= hi,
        ea >= 0,
        eb >= 0,
        forall|jj: int| lo <= jj < hi ==> -ea <= #[trigger] a[i * k + jj] <= ea,
        forall|jj: int| lo <= jj < hi ==> -eb <= #[trigger] b[jj * n + l] <= eb,
    ensures
        -(hi - lo) * ea * eb <= dot_range(a, b, k, n, i, l, lo, hi) <= (hi - lo) * ea * eb,
    decreases hi - lo,
{
    if hi == lo {
        assert((hi - lo) * ea * eb == 0) by (nonlinear_arith)
            requires
                hi == lo,
        ;
    }
    if hi > lo {
        lemma_dot_range_bound(a, b, k, n, i, l, lo, hi - 1, ea, eb);
        let x = a[i * k + (hi - 1)];
        let y = b[(hi - 1) * n + l];
        let s = dot_range(a, b, k, n, i, l, lo, hi - 1);
        assert(-ea <= x <= ea && -eb <= y <= eb);
        assert(-(hi - 1 - lo) * ea * eb <= s <= (hi - 1 - lo) * ea * eb);
        assert((-(hi - 1 - lo) * ea * eb) + (-ea * eb) <= s + x * y <= (hi - 1 - lo) * ea * eb + ea
            * eb) by (nonlinear_arith)
            requires
                -ea <= x <= ea,
                -eb <= y <= eb,
                ea >= 0,
                eb >= 0,
                -(hi - 1 - lo) * ea * eb <= s <= (hi - 1 - lo) * ea * eb,
        ;
        assert((hi - 1 - lo) * ea * eb + ea * eb == (hi - lo) * ea * eb) by (nonlinear_arith);
        assert((-(hi - 1 - lo) * ea * eb) + (-ea * eb) == -(hi - lo) * ea * eb)
            by (nonlinear_arith);
    }
}

/// Within one block, the flat positions of distinct `(row, column)` pairs
/// are distinct: quotient and remainder by the stride are unique.
pub proof fn lemma_stride_unique(i1: int, l1: int, i2: int, l2: int, stride: int)
    by (nonlinear_arith)
    requires
        0 <= l1 < stride,
        0 <= l2 < stride,
        i1 * stride + l1 == i2 * stride + l2,
    ensures
        i1 == i2,
        l1 == l2,
{
}

/// A cell `(i, c)` of a full-width row band lies outside the written
/// block whenever its column falls outside the block's column window
/// `[off_col, off_col + w)` or its row is at or past `m`.
pub proof fn lemma_outside_block(i: int, c: int, off_col: int, m: int, w: int, stride: int)
    requires
        0 <= c < stride,
        0 <= i,
        0 <= off_col,
        w >= 0,
        off_col + w <= stride,
        c < off_col || c >= off_col + w || i >= m,
    ensures
        !in_block(i * stride + c, off_col, m, w, stride),
{
    let p = i * stride + c;
    if c >= off_col {
        assert((p - off_col) / stride == i && (p - off_col) % stride == c - off_col)
            by (nonlinear_arith)
            requires
                0 <= c - off_col < stride,
                p == i * stride + c,
                0 <= i,
        ;
    } else {
        if i == 0 {
            assert(p - off_col < 0);
        } else {
            assert((p - off_col) % stride == stride + c - off_col) by (nonlinear_arith)
                requires
                    0 < stride,
                    0 <= c < stride,
                    c < off_col <= stride,
                    p == i * stride + c,
                    1 <= i,
            ;
            assert(stride + c - off_col >= w);
        }
    }
}

impl Tensor {
    /// The sequential blocked accumulation kernel, in i-k-j loop order:
    /// for each output row `i` and each inner index `j`, the `j`-th row
    /// segment of `b` is scaled by `a[i][j]` and accumulated into the
    /// `i`-th row segment of the output block, keeping both buffers
    /// contiguous in the innermost loop. The block starts at `off` inside
    /// `out` and each of its `m` rows is `n` wide, placed `total_stride`
    /// apart, so a call may target a sub-block of full-width rows. Every
    /// cell of the block gains exactly the naive reduction `dot`; every
    /// position outside the block is untouched.
    pub fn block_mul_at(
        a: &Vec<i64>,
        b: &Vec<i64>,
        out: &mut Vec<i64>,
        off: usize,
        m: usize,
        k: usize,
        n: usize,
        total_stride: usize,
    )
        requires
            m <= DIM_BOUND,
            k <= DIM_BOUND,
            n <= DIM_BOUND,
            total_stride <= DIM_BOUND,
            n <= total_stride,
            a@.len() >= m * k,
            b@.len() >= k * n,
            m > 0 && n > 0 ==> off + (m - 1) * total_stride + n <= old(out)@.len(),
            old(out)@.len() <= 0x40000000,
            elems_bounded(a@, ELEM_BOUND as int),
            elems_bounded(b@, ELEM_BOUND as int),
            elems_bounded(old(out)@, ACC_BOUND as int),
        ensures
            final(out)@.len() == old(out)@.len(),
            forall|i: int, l: int|
                0 <= i < m && 0 <= l < n ==> (#[trigger] final(out)@[off + i * total_stride + l])
                    as int == old(out)@[off + i * total_stride + l] as int + dot(
                    int_seq(a@),
                    int_seq(b@),
                    k as int,
                    n as int,
                    i,
                    l,
                ),
            forall|p: int|
                0 <= p < old(out)@.len() && !in_block(
                    p,
                    off as int,
                    m as int,
                    n as int,
                    total_stride as int,
                ) ==> #[trigger] final(out)@[p] == old(out)@[p],
    {
        let ghost aa = int_seq(a@);
        let ghost bb = int_seq(b@);
        let ghost ss = total_stride as int;
        let ghost kk = k as int;
        let ghost nn = n as int;
        let ghost oo = off as int;
        let mut i: usize = 0;
        while i < m
            invariant
                m <= DIM_BOUND,
                k <= DIM_BOUND,
                n <= DIM_BOUND,
                total_stride <= DIM_BOUND,
                n <= total_stride,
                a@.len() >= m * k,
                b@.len() >= k * n,
                m > 0 && n > 0 ==> off + (m - 1) * total_stride + n <= old(out)@.len(),
                old(out)@.len() <= 0x40000000,
                elems_bounded(a@, ELEM_BOUND as int),
                elems_bounded(b@, ELEM_BOUND as int),
                elems_bounded(old(out)@, ACC_BOUND as int),
                aa == int_seq(a@),
                bb == int_seq(b@),
                ss == total_stride as int,
                kk == k as int,
                nn == n as int,
                oo == off as int,
                i <= m,
                out@.len() == old(out)@.len(),
                forall|i2: int, l2: int|
                    0 <= i2 < i && 0 <= l2 < n ==> (#[trigger] out@[oo + i2 * ss + l2]) as int
                        == old(out)@[oo + i2 * ss + l2] as int + dot(aa, bb, kk, nn, i2, l2),
                forall|i2: int, l2: int|
                    i <= i2 < m && 0 <= l2 < n ==> #[trigger] out@[oo + i2 * ss + l2] == old(
                        out,
                    )@[oo + i2 * ss + l2],
                forall|p: int|
                    0 <= p < out@.len() && !in_block(p, oo, m as int, nn, ss)
                        ==> #[trigger] out@[p] == old(out)@[p],
            decreases m - i,
        {
            let mut j: usize = 0;
            while j < k
                invariant
                    m <= DIM_BOUND,
                    k <= DIM_BOUND,
                    n <= DIM_BOUND,
                    total_stride <= DIM_BOUND,
                    n <= total_stride,
                    a@.len() >= m * k,
                    b@.len() >= k * n,
                    m > 0 && n > 0 ==> off + (m - 1) * total_stride + n <= old(out)@.len(),
                    old(out)@.len() <= 0x40000000,
                    elems_bounded(a@, ELEM_BOUND as int),
                    elems_bounded(b@, ELEM_BOUND as int),
                    elems_bounded(old(out)@, ACC_BOUND as int),
                    aa == int_seq(a@),
                    bb == int_seq(b@),
                    ss == total_stride as int,
                    kk == k as int,
                    nn == n as int,
                    oo == off as int,
                    i < m,
                    j <= k,
                    out@.len() == old(out)@.len(),
                    forall|i2: int, l2: int|
                        0 <= i2 < i && 0 <= l2 < n ==> (#[trigger] out@[oo + i2 * ss + l2]) as int
                            == old(out)@[oo + i2 * ss + l2] as int + dot(aa, bb, kk, nn, i2, l2),
                    forall|i2: int, l2: int|
                        i < i2 < m && 0 <= l2 < n ==> #[trigger] out@[oo + i2 * ss + l2] == old(
                            out,
                        )@[oo + i2 * ss + l2],
                    forall|l2: int|
                        0 <= l2 < n ==> (#[trigger] out@[oo + i * ss + l2]) as int == old(
                            out,
                        )@[oo + i * ss + l2] as int + dot_range(aa, bb, kk, nn, i as int, l2, 0, j as int),
                    forall|p: int|
                        0 <= p < out@.len() && !in_block(p, oo, m as int, nn, ss)
                            ==> #[trigger] out@[p] == old(out)@[p],
                decreases k - j,
            {
                proof {
                    lemma_row_major_index(i as int, j as int, m as int, kk);
                }
                let a_val = a[i * k + j];
                let mut l: usize = 0;
                while l < n
                    invariant
                        m <= DIM_BOUND,
                        k <= DIM_BOUND,
                        n <= DIM_BOUND,
                        total_stride <= DIM_BOUND,
                        n <= total_stride,
                        a@.len() >= m * k,
                        b@.len() >= k * n,
                        m > 0 && n > 0 ==> off + (m - 1) * total_stride + n <= old(out)@.len(),
                        old(out)@.len() <= 0x40000000,
                        elems_bounded(a@, ELEM_BOUND as int),
                        elems_bounded(b@, ELEM_BOUND as int),
                        elems_bounded(old(out)@, ACC_BOUND as int),
                        aa == int_seq(a@),
                        bb == int_seq(b@),
                        ss == total_stride as int,
                        kk == k as int,
                        nn == n as int,
                        oo == off as int,
                        i < m,
                        j < k,
                        l <= n,
                        a_val == a@[i * k + j],
                        out@.len() == old(out)@.len(),
                        forall|i2: int, l2: int|
                            0 <= i2 < i && 0 <= l2 < n ==> (#[trigger] out@[oo + i2 * ss + l2])
                                as int == old(out)@[oo + i2 * ss + l2] as int + dot(
                                aa,
                                bb,
                                kk,
                                nn,
                                i2,
                                l2,
                            ),
                        forall|i2: int, l2: int|
                            i < i2 < m && 0 <= l2 < n ==> #[trigger] out@[oo + i2 * ss + l2] == old(
                                out,
                            )@[oo + i2 * ss + l2],
                        forall|l2: int|
                            0 <= l2 < l ==> (#[trigger] out@[oo + i * ss + l2]) as int == old(
                                out,
                            )@[oo + i * ss + l2] as int + dot_range(
                                aa,
                                bb,
                                kk,
                                nn,
                                i as int,
                                l2,
                                0,
                                j + 1,
                            ),
                        forall|l2: int|
                            l <= l2 < n ==> (#[trigger] out@[oo + i * ss + l2]) as int == old(
                                out,
                            )@[oo + i * ss + l2] as int + dot_range(
                                aa,
                                bb,
                                kk,
                                nn,
                                i as int,
                                l2,
                                0,
                                j as int,
                            ),
                        forall|p: int|
                            0 <= p < out@.len() && !in_block(p, oo, m as int, nn, ss)
                                ==> #[trigger] out@[p] == old(out)@[p],
                    decreases n - l,
                {
                    proof {
                        lemma_row_major_index(i as int, j as int, m as int, kk);
                        lemma_row_major_index(j as int, l as int, kk, nn);
                        lemma_row_offset_bound(
                            i as int,
                            l as int,
                            m as int,
                            nn,
                            ss,
                            oo,
                            old(out)@.len() as int,
                        );
                        assert forall|jj: int| 0 <= jj < j implies -(ELEM_BOUND as int)
                            <= #[trigger] aa[i * kk + jj] <= ELEM_BOUND as int by {
                            lemma_index_in_bounds(i as int, jj, m as int, kk);
                        }
                        assert forall|jj: int| 0 <= jj < j implies -(ELEM_BOUND as int)
                            <= #[trigger] bb[jj * nn + l] <= ELEM_BOUND as int by {
                            lemma_index_in_bounds(jj, l as int, kk, nn);
                        }
                        lemma_dot_range_bound(
                            aa,
                            bb,
                            kk,
                            nn,
                            i as int,
                            l as int,
                            0,
                            j as int,
                            ELEM_BOUND as int,
                            ELEM_BOUND as int,
                        );
                        assert(j * (ELEM_BOUND as int) * (ELEM_BOUND as int) <= 32768
                            * (ELEM_BOUND as int) * (ELEM_BOUND as int)) by (nonlinear_arith)
                            requires
                                0 <= j <= 32768,
                        ;
                    }
                    let idx = off + i * total_stride + l;
                    let b_val = b[j * n + l];
                    proof {
                        assert(-(ELEM_BOUND as int) * (ELEM_BOUND as int) <= (a_val as int) * (
                        b_val as int) <= (ELEM_BOUND as int) * (ELEM_BOUND as int))
                            by (nonlinear_arith)
                            requires
                                -(ELEM_BOUND as int) <= a_val as int <= ELEM_BOUND as int,
                                -(ELEM_BOUND as int) <= b_val as int <= ELEM_BOUND as int,
                        ;
                    }
                    let prod = a_val * b_val;
                    let cur = out[idx];
                    let ghost prev = out@;
                    out[idx] = cur + prod;
                    proof {
                        assert(in_block(idx as int, oo, m as int, nn, ss)) by {
                            lemma_row_major_index(i as int, l as int, m as int, ss);
                        }
                        assert(aa[i * kk + j] == a_val as int);
                        assert(bb[j * nn + l] == b_val as int);
                        assert forall|i2: int, l2: int|
                            0 <= i2 < i && 0 <= l2 < n implies (#[trigger] out@[oo + i2 * ss + l2])
                            as int == old(out)@[oo + i2 * ss + l2] as int + dot(
                            aa,
                            bb,
                            kk,
                            nn,
                            i2,
                            l2,
                        ) by {
                            lemma_row_offset_bound(
                                i2,
                                l2,
                                m as int,
                                nn,
                                ss,
                                oo,
                                old(out)@.len() as int,
                            );
                            if oo + i2 * ss + l2 == idx as int {
                                lemma_stride_unique(i2, l2, i as int, l as int, ss);
                            }
                            assert(out@[oo + i2 * ss + l2] == prev[oo + i2 * ss + l2]);
                        }
                        assert forall|i2: int, l2: int|
                            i < i2 < m && 0 <= l2 < n implies #[trigger] out@[oo + i2 * ss + l2]
                            == old(out)@[oo + i2 * ss + l2] by {
                            lemma_row_offset_bound(
                                i2,
                                l2,
                                m as int,
                                nn,
                                ss,
                                oo,
                                old(out)@.len() as int,
                            );
                            if oo + i2 * ss + l2 == idx as int {
                                lemma_stride_unique(i2, l2, i as int, l as int, ss);
                            }
                            assert(out@[oo + i2 * ss + l2] == prev[oo + i2 * ss + l2]);
                        }
                        assert forall|l2: int|
                            0 <= l2 < l + 1 implies (#[trigger] out@[oo + i * ss + l2]) as int
                            == old(out)@[oo + i * ss + l2] as int + dot_range(
                            aa,
                            bb,
                            kk,
                            nn,
                            i as int,
                            l2,
                            0,
                            j + 1,
                        ) by {
                            lemma_row_offset_bound(
                                i as int,
                                l2,
                                m as int,
                                nn,
                                ss,
                                oo,
                                old(out)@.len() as int,
                            );
                            if l2 == l as int {
                                assert(out@[idx as int] as int == cur as int + prod as int);
                            } else {
                                assert(out@[oo + i * ss + l2] == prev[oo + i * ss + l2]);
                            }
                        }
                        assert forall|l2: int|
                            l + 1 <= l2 < n implies (#[trigger] out@[oo + i * ss + l2]) as int
                            == old(out)@[oo + i * ss + l2] as int + dot_range(
                            aa,
                            bb,
                            kk,
                            nn,
                            i as int,
                            l2,
                            0,
                            j as int,
                        ) by {
                            lemma_row_offset_bound(
                                i as int,
                                l2,
                                m as int,
                                nn,
                                ss,
                                oo,
                                old(out)@.len() as int,
                            );
                            assert(out@[oo + i * ss + l2] == prev[oo + i * ss + l2]);
                        }
                        assert forall|p: int|
                            0 <= p < out@.len() && !in_block(p, oo, m as int, nn, ss)
                            implies #[trigger] out@[p] == old(out)@[p] by {
                            assert(p != idx as int);
                            assert(out@[p] == prev[p]);
                        }
                    }
                    l = l + 1;
                }
                j = j + 1;
            }
            i = i + 1;
        }
    }
}

/// The full reduction over two bounded quadrant buffers has magnitude at
/// most `DIM_BOUND * ELEM_BOUND * ELEM_BOUND`.
pub proof fn lemma_dot_abs(
    aq: Seq<i64>,
    bq: Seq<i64>,
    mq: int,
    kq: int,
    nq: int,
    iq: int,
    lq: int,
)
    requires
        0 <= iq < mq,
        0 <= lq < nq,
        0 <= kq <= DIM_BOUND,
        aq.len() >= mq * kq,
        bq.len() >= kq * nq,
        elems_bounded(aq, ELEM_BOUND as int),
        elems_bounded(bq, ELEM_BOUND as int),
    ensures
        -32768000000000000 <= dot(int_seq(aq), int_seq(bq), kq, nq, iq, lq)
            <= 32768000000000000,
{
    let e = ELEM_BOUND as int;
    assert forall|jj: int| 0 <= jj < kq implies -e <= #[trigger] int_seq(aq)[iq * kq + jj]
        <= e by {
        lemma_index_in_bounds(iq, jj, mq, kq);
    }
    assert forall|jj: int| 0 <= jj < kq implies -e <= #[trigger] int_seq(bq)[jj * nq + lq]
        <= e by {
        lemma_index_in_bounds(jj, lq, kq, nq);
    }
    lemma_dot_range_bound(int_seq(aq), int_seq(bq), kq, nq, iq, lq, 0, kq, e, e);
    assert(kq * e * e <= 32768000000000000 && -(kq * e * e) >= -32768000000000000)
        by (nonlinear_arith)
        requires
            0 <= kq <= 32768,
            e == 1000000,
    ;
}

/// One full-width row band of the quadrant multiply. `a_left` and
/// `a_right` are the two compacted quadrants of `rows` operand rows
/// (`rows` by `k1` and `rows` by `k2`); `b11 ..= b22` are the four
/// compacted quadrants of the right operand. The band holds `rows` rows of
/// width `n1 + n2`: its left columns accumulate
/// `a_left * b11 + a_right * b21`, its right columns
/// `a_left * b12 + a_right * b22`, each by the blocked kernel, issued with
/// the full row width as the explicit stride. Both halves of the output of
/// a multiply are computed by this one function, on disjoint buffers, so
/// a driver may run the two band computations independently.
pub fn mul_band(
    a_left: &Vec<i64>,
    a_right: &Vec<i64>,
    b11: &Vec<i64>,
    b12: &Vec<i64>,
    b21: &Vec<i64>,
    b22: &Vec<i64>,
    rows: usize,
    k1: usize,
    k2: usize,
    n1: usize,
    n2: usize,
) -> (band: Vec<i64>)
    requires
        rows <= DIM_BOUND,
        k1 + k2 <= DIM_BOUND,
        n1 + n2 <= DIM_BOUND,
        a_left@.len() == rows * k1,
        a_right@.len() == rows * k2,
        b11@.len() == k1 * n1,
        b12@.len() == k1 * n2,
        b21@.len() == k2 * n1,
        b22@.len() == k2 * n2,
        elems_bounded(a_left@, ELEM_BOUND as int),
        elems_bounded(a_right@, ELEM_BOUND as int),
        elems_bounded(b11@, ELEM_BOUND as int),
        elems_bounded(b12@, ELEM_BOUND as int),
        elems_bounded(b21@, ELEM_BOUND as int),
        elems_bounded(b22@, ELEM_BOUND as int),
    ensures
        band@.len() == rows * (n1 + n2),
        forall|i: int, l: int|
            0 <= i < rows && 0 <= l < n1 ==> (#[trigger] band@[i * (n1 + n2) as int + l]) as int
                == dot(int_seq(a_left@), int_seq(b11@), k1 as int, n1 as int, i, l) + dot(
                int_seq(a_right@),
                int_seq(b21@),
                k2 as int,
                n1 as int,
                i,
                l,
            ),
        forall|i: int, l: int|
            0 <= i < rows && 0 <= l < n2 ==> (#[trigger] band@[i * (n1 + n2) as int + n1 + l])
                as int == dot(int_seq(a_left@), int_seq(b12@), k1 as int, n2 as int, i, l) + dot(
                int_seq(a_right@),
                int_seq(b22@),
                k2 as int,
                n2 as int,
                i,
                l,
            ),
{
    let nn = n1 + n2;
    let ghost rr = rows as int;
    let ghost nni = nn as int;
    let ghost n1i = n1 as int;
    let ghost n2i = n2 as int;
    let ghost k1i = k1 as int;
    let ghost k2i = k2 as int;
    let ghost al = int_seq(a_left@);
    let ghost ar = int_seq(a_right@);
    let ghost q11 = int_seq(b11@);
    let ghost q12 = int_seq(b12@);
    let ghost q21 = int_seq(b21@);
    let ghost q22 = int_seq(b22@);
    let ghost acc = ACC_BOUND as int;
    proof {
        lemma_dim_product_fits(rr, nni);
    }
    let len = rows * nn;
    let mut band: Vec<i64> = Vec::new();
    band.resize(len, 0i64);
    let ghost s0 = band@;
    proof {
        assert forall|p: int| 0 <= p < s0.len() implies #[trigger] s0[p] == 0i64 by {}
        assert((rr - 1) * nni + nni == rr * nni) by (nonlinear_arith);
    }
    Tensor::block_mul_at(a_left, b11, &mut band, 0, rows, k1, n1, nn);
    let ghost s1 = band@;
    proof {
        assert forall|i: int, l: int|
            0 <= i < rr && 0 <= l < n1i implies (#[trigger] s1[i * nni + l]) as int == dot(
            al,
            q11,
            k1i,
            n1i,
            i,
            l,
        ) by {
            assert(s1[0 + i * nni + l] as int == s0[0 + i * nni + l] as int + dot(
                al,
                q11,
                k1i,
                n1i,
                i,
                l,
            ));
            lemma_row_offset_bound(i, l, rr, n1i, nni, 0, s0.len() as int);
        }
        assert forall|i: int, l: int|
            0 <= i < rr && 0 <= l < n2i implies #[trigger] s1[i * nni + n1i + l] == 0i64 by {
            lemma_outside_block(i, n1i + l, 0, rr, n1i, nni);
            lemma_row_offset_bound(i, n1i + l, rr, nni, nni, 0, s0.len() as int);
        }
        assert forall|p: int| 0 <= p < s1.len() implies -acc <= #[trigger] s1[p] <= acc by {
            lemma_flat_decomp(p, rr, nni);
            let i = p / nni;
            let c = p % nni;
            if c < n1i {
                assert(s1[i * nni + c] as int == dot(al, q11, k1i, n1i, i, c));
                lemma_dot_abs(a_left@, b11@, rr, k1i, n1i, i, c);
            } else {
                assert(s1[i * nni + n1i + (c - n1i)] == 0i64);
            }
        }
    }
    Tensor::block_mul_at(a_right, b21, &mut band, 0, rows, k2, n1, nn);
    let ghost s2 = band@;
    proof {
        assert forall|i: int, l: int|
            0 <= i < rr && 0 <= l < n1i implies (#[trigger] s2[i * nni + l]) as int == dot(
            al,
            q11,
            k1i,
            n1i,
            i,
            l,
        ) + dot(ar, q21, k2i, n1i, i, l) by {
            assert(s2[0 + i * nni + l] as int == s1[0 + i * nni + l] as int + dot(
                ar,
                q21,
                k2i,
                n1i,
                i,
                l,
            ));
            lemma_row_offset_bound(i, l, rr, n1i, nni, 0, s0.len() as int);
        }
        assert forall|i: int, l: int|
            0 <= i < rr && 0 <= l < n2i implies #[trigger] s2[i * nni + n1i + l] == 0i64 by {
            lemma_outside_block(i, n1i + l, 0, rr, n1i, nni);
            lemma_row_offset_bound(i, n1i + l, rr, nni, nni, 0, s0.len() as int);
        }
        assert forall|p: int| 0 <= p < s2.len() implies -acc <= #[trigger] s2[p] <= acc by {
            lemma_flat_decomp(p, rr, nni);
            let i = p / nni;
            let c = p % nni;
            if c < n1i {
                assert(s2[i * nni + c] as int == dot(al, q11, k1i, n1i, i, c) + dot(
                    ar,
                    q21,
                    k2i,
                    n1i,
                    i,
                    c,
                ));
                lemma_dot_abs(a_left@, b11@, rr, k1i, n1i, i, c);
                lemma_dot_abs(a_right@, b21@, rr, k2i, n1i, i, c);
            } else {
                assert(s2[i * nni + n1i + (c - n1i)] == 0i64);
            }
        }
    }
    Tensor::block_mul_at(a_left, b12, &mut band, n1, rows, k1, n2, nn);
    let ghost s3 = band@;
    proof {
        assert forall|i: int, l: int|
            0 <= i < rr && 0 <= l < n1i implies (#[trigger] s3[i * nni + l]) as int == dot(
            al,
            q11,
            k1i,
            n1i,
            i,
            l,
        ) + dot(ar, q21, k2i, n1i, i, l) by {
            lemma_outside_block(i, l, n1i, rr, n2i, nni);
            lemma_row_offset_bound(i, l, rr, n1i, nni, 0, s0.len() as int);
            assert(s3[i * nni + l] == s2[i * nni + l]);
        }
        assert forall|i: int, l: int|
            0 <= i < rr && 0 <= l < n2i implies (#[trigger] s3[i * nni + n1i + l]) as int == dot(
            al,
            q12,
            k1i,
            n2i,
            i,
            l,
        ) by {
            assert(s3[n1i + i * nni + l] as int == s2[n1i + i * nni + l] as int + dot(
                al,
                q12,
                k1i,
                n2i,
                i,
                l,
            ));
            lemma_row_offset_bound(i, n1i + l, rr, nni, nni, 0, s0.len() as int);
            assert(s2[i * nni + n1i + l] == 0i64);
        }
        assert forall|p: int| 0 <= p < s3.len() implies -acc <= #[trigger] s3[p] <= acc by {
            lemma_flat_decomp(p, rr, nni);
            let i = p / nni;
            let c = p % nni;
            if c < n1i {
                assert(s3[i * nni + c] as int == dot(al, q11, k1i, n1i, i, c) + dot(
                    ar,
                    q21,
                    k2i,
                    n1i,
                    i,
                    c,
                ));
                lemma_dot_abs(a_left@, b11@, rr, k1i, n1i, i, c);
                lemma_dot_abs(a_right@, b21@, rr, k2i, n1i, i, c);
            } else {
                assert(s3[i * nni + n1i + (c - n1i)] as int == dot(al, q12, k1i, n2i, i, c - n1i));
                lemma_dot_abs(a_left@, b12@, rr, k1i, n2i, i, c - n1i);
            }
        }
    }
    Tensor::block_mul_at(a_right, b22, &mut band, n1, rows, k2, n2, nn);
    proof {
        let s4 = band@;
        assert forall|i: int, l: int|
            0 <= i < rr && 0 <= l < n1i implies (#[trigger] s4[i * nni + l]) as int == dot(
            al,
            q11,
            k1i,
            n1i,
            i,
            l,
        ) + dot(ar, q21, k2i, n1i, i, l) by {
            lemma_outside_block(i, l, n1i, rr, n2i, nni);
            lemma_row_offset_bound(i, l, rr, n1i, nni, 0, s0.len() as int);
            assert(s4[i * nni + l] == s3[i * nni + l]);
        }
        assert forall|i: int, l: int|
            0 <= i < rr && 0 <= l < n2i implies (#[trigger] s4[i * nni + n1i + l]) as int == dot(
            al,
            q12,
            k1i,
            n2i,
            i,
            l,
        ) + dot(ar, q22, k2i, n2i, i, l) by {
            assert(s4[n1i + i * nni + l] as int == s3[n1i + i * nni + l] as int + dot(
                ar,
                q22,
                k2i,
                n2i,
                i,
                l,
            ));
            lemma_row_offset_bound(i, n1i + l, rr, nni, nni, 0, s0.len() as int);
            assert(s3[i * nni + n1i + l] as int == dot(al, q12, k1i, n2i, i, l));
        }
    }
    band
}

impl Tensor {
    /// A compacted copy of the rectangular sub-block with rows `r0..r1`
    /// and columns `c0..c1` of this tensor: the block's logical values in
    /// their own contiguous row-major buffer, whatever the parent's
    /// layout. The quadrant multiply materializes each operand quadrant
    /// this way before handing it to the blocked kernel.
    pub fn sub_block(&self, r0: usize, r1: usize, c0: usize, c1: usize) -> (out: Vec<i64>)
        requires
            self.wf(),
            r0 <= r1 <= self.rows,
            c0 <= c1 <= self.cols,
        ensures
            out@.len() == (r1 - r0) * (c1 - c0),
            forall|i: int, j: int|
                0 <= i < r1 - r0 && 0 <= j < c1 - c0 ==> #[trigger] int_seq(out@)[i * (c1 - c0)
                    + j] == self.vals()[(r0 + i) * self.cols + (c0 + j)],
            forall|b: int| self.bounded(b) ==> #[trigger] elems_bounded(out@, b),
    {
        let h = r1 - r0;
        let w = c1 - c0;
        let mut out: Vec<i64> = Vec::new();
        let mut i: usize = 0;
        while i < h
            invariant
                self.wf(),
                r0 + h <= self.rows,
                c0 + w <= self.cols,
                i <= h,
                out@.len() == i * w,
                forall|p: int|
                    0 <= p < out@.len() ==> (#[trigger] out@[p]) as int == self.vals()[(r0 + p / (
                    w as int)) * self.cols + (c0 + p % (w as int))],
            decreases h - i,
        {
            let mut j: usize = 0;
            while j < w
                invariant
                    self.wf(),
                    r0 + h <= self.rows,
                    c0 + w <= self.cols,
                    i < h,
                    j <= w,
                    out@.len() == i * w + j,
                    forall|p: int|
                        0 <= p < out@.len() ==> (#[trigger] out@[p]) as int == self.vals()[(r0 + p
                            / (w as int)) * self.cols + (c0 + p % (w as int))],
                decreases w - j,
            {
                let ri = r0 + i;
                let cj = c0 + j;
                proof {
                    lemma_row_major_index(i as int, j as int, h as int, w as int);
                    lemma_row_major_index(ri as int, cj as int, self.rows as int, self.cols as int);
                    lemma_row_major_index(cj as int, ri as int, self.cols as int, self.rows as int);
                    self.lemma_vals_cell();
                    assert(self.cell(ri as int, cj as int) == self.vals()[(ri as int) * self.cols
                        + (cj as int)]);
                }
                let v = if self.column_major {
                    self.data[cj * self.rows + ri]
                } else {
                    self.data[ri * self.cols + cj]
                };
                out.push(v);
                j = j + 1;
            }
            i = i + 1;
            assert(i * w == (i - 1) * w + w) by (nonlinear_arith);
        }
        proof {
            assert forall|i2: int, j2: int|
                0 <= i2 < r1 - r0 && 0 <= j2 < c1 - c0 implies #[trigger] int_seq(out@)[i2 * (c1
                - c0) + j2] == self.vals()[(r0 + i2) * self.cols + (c0 + j2)] by {
                lemma_row_major_index(i2, j2, h as int, w as int);
            }
            assert forall|b: int| self.bounded(b) implies #[trigger] elems_bounded(out@, b) by {
                assert forall|t: int| 0 <= t < out@.len() implies -b <= #[trigger] out@[t]
                    <= b by {
                    lemma_flat_decomp(t, h as int, w as int);
                    lemma_index_in_bounds(
                        r0 + t / (w as int),
                        c0 + t % (w as int),
                        self.rows as int,
                        self.cols as int,
                    );
                }
            }
        }
        out
    }

    /// Matrix multiplication by the quadrant strategy. Compatibility is
    /// decided by `check_compatible`, the rule this library's callers have
    /// always relied on (left rows against right columns); operands whose
    /// inner dimensions disagree cannot form a product at all and are
    /// likewise rejected with the same structured error, so an
    /// incompatible multiply always returns the recoverable error and
    /// never fails fatally. On success, both operands are split into
    /// quadrants at the floor-halved dimensions, each quadrant is
    /// compacted to its own contiguous buffer, and the output is split
    /// into two disjoint row-bands at row `m / 2`, each assembled by
    /// `mul_band`; the bands and quadrants tile the matrices exactly, also
    /// at odd sizes. Every output cell provably equals the naive
    /// triple-loop reduction `dot`.
    pub fn matmul(&self, other: Tensor) -> (r: Result<Tensor, ShapeError>)
        requires
            self.wf(),
            other.wf(),
            self.bounded(ELEM_BOUND as int),
            other.bounded(ELEM_BOUND as int),
        ensures
            match r {
                Ok(c) => {
                    &&& self.rows == other.cols
                    &&& self.cols == other.rows
                    &&& c.wf()
                    &&& c.rows == self.rows
                    &&& c.cols == other.cols
                    &&& !c.column_major
                    &&& forall|i: int, l: int|
                        0 <= i < self.rows && 0 <= l < other.cols ==> #[trigger] c.vals()[i
                            * other.cols + l] == dot(
                            self.vals(),
                            other.vals(),
                            self.cols as int,
                            other.cols as int,
                            i,
                            l,
                        )
                },
                Err(e) => {
                    &&& (self.rows != other.cols || self.cols != other.rows)
                    &&& e.left@ == seq![self.rows, self.cols]
                    &&& e.right@ == seq![other.rows, other.cols]
                },
            },
    {
        match Tensor::check_compatible(self, &other) {
            Err(e) => {
                return Err(e);
            },
            Ok(()) => {},
        }
        if self.cols != other.rows {
            let e = ShapeError { left: self.shape(), right: other.shape() };
            proof {
                assert(e.left@ =~= seq![self.rows, self.cols]);
                assert(e.right@ =~= seq![other.rows, other.cols]);
            }
            return Err(e);
        }
        let m = self.rows;
        let k = self.cols;
        let n = other.cols;
        let m_mid = m / 2;
        let k_mid = k / 2;
        let n_mid = n / 2;
        let ghost av = self.vals();
        let ghost bv = other.vals();
        let ghost mi = m as int;
        let ghost ki = k as int;
        let ghost ni = n as int;
        let ghost mmid = m_mid as int;
        let ghost kmid = k_mid as int;
        let ghost nmid = n_mid as int;
        let a11 = self.sub_block(0, m_mid, 0, k_mid);
        let a12 = self.sub_block(0, m_mid, k_mid, k);
        let a21 = self.sub_block(m_mid, m, 0, k_mid);
        let a22 = self.sub_block(m_mid, m, k_mid, k);
        let b11 = other.sub_block(0, k_mid, 0, n_mid);
        let b12 = other.sub_block(0, k_mid, n_mid, n);
        let b21 = other.sub_block(k_mid, k, 0, n_mid);
        let b22 = other.sub_block(k_mid, k, n_mid, n);
        proof {
            assert(elems_bounded(a11@, ELEM_BOUND as int));
            assert(elems_bounded(a12@, ELEM_BOUND as int));
            assert(elems_bounded(a21@, ELEM_BOUND as int));
            assert(elems_bounded(a22@, ELEM_BOUND as int));
            assert(elems_bounded(b11@, ELEM_BOUND as int));
            assert(elems_bounded(b12@, ELEM_BOUND as int));
            assert(elems_bounded(b21@, ELEM_BOUND as int));
            assert(elems_bounded(b22@, ELEM_BOUND as int));
        }
        let mut out_data = mul_band(
            &a11,
            &a12,
            &b11,
            &b12,
            &b21,
            &b22,
            m_mid,
            k_mid,
            k - k_mid,
            n_mid,
            n - n_mid,
        );
        let ghost top = out_data@;
        let mut bottom = mul_band(
            &a21,
            &a22,
            &b11,
            &b12,
            &b21,
            &b22,
            m - m_mid,
            k_mid,
            k - k_mid,
            n_mid,
            n - n_mid,
        );
        let ghost bot = bottom@;
        out_data.append(&mut bottom);
        proof {
            assert(top.len() == mmid * ni && bot.len() == (mi - mmid) * ni);
            assert(mmid * ni + (mi - mmid) * ni == mi * ni) by (nonlinear_arith);
        }
        let c = Tensor { data: out_data, rows: m, cols: n, column_major: false };
        proof {
            assert(c.wf());
            c.lemma_vals_cell();
            assert forall|i: int, l: int|
                0 <= i < mi && 0 <= l < ni implies #[trigger] c.vals()[i * ni + l] == dot(
                av,
                bv,
                ki,
                ni,
                i,
                l,
            ) by {
                lemma_row_major_index(i, l, mi, ni);
                assert(c.vals()[i * ni + l] == c.cell(i, l));
                if i < mmid {
                    lemma_index_in_bounds(i, l, mmid, ni);
                    assert(c.data@[i * ni + l] == top[i * ni + l]);
                    assert forall|jj: int| 0 <= jj < kmid implies #[trigger] int_seq(a11@)[i * kmid
                        + jj] == av[i * ki + jj] by {
                        assert(int_seq(a11@)[i * (kmid - 0) + jj] == av[(0 + i) * ki + (0 + jj)]);
                    }
                    assert forall|jj: int| 0 <= jj < ki - kmid implies #[trigger] int_seq(a12@)[i
                        * (ki - kmid) + jj] == av[i * ki + (kmid + jj)] by {
                        assert(int_seq(a12@)[i * (ki - kmid) + jj] == av[(0 + i) * ki + (kmid
                            + jj)]);
                    }
                    if l < nmid {
                        assert(top[i * ((n_mid + (n - n_mid)) as int) + l] as int == dot(
                            int_seq(a11@),
                            int_seq(b11@),
                            kmid,
                            nmid,
                            i,
                            l,
                        ) + dot(int_seq(a12@), int_seq(b21@), ki - kmid, nmid, i, l));
                        assert forall|jj: int| 0 <= jj < kmid implies #[trigger] int_seq(b11@)[jj
                            * nmid + l] == bv[jj * ni + l] by {
                            assert(int_seq(b11@)[jj * (nmid - 0) + l] == bv[(0 + jj) * ni + (0
                                + l)]);
                        }
                        assert forall|jj: int| 0 <= jj < ki - kmid implies #[trigger] int_seq(
                            b21@,
                        )[jj * nmid + l] == bv[(kmid + jj) * ni + l] by {
                            assert(int_seq(b21@)[jj * (nmid - 0) + l] == bv[(kmid + jj) * ni + (0
                                + l)]);
                        }
                        lemma_quadrant_dot(
                            int_seq(a11@),
                            int_seq(a12@),
                            int_seq(b11@),
                            int_seq(b21@),
                            av,
                            bv,
                            ki,
                            ni,
                            kmid,
                            nmid,
                            i,
                            l,
                            i,
                            l,
                        );
                    } else {
                        let l2 = l - nmid;
                        assert(top[i * ((n_mid + (n - n_mid)) as int) + n_mid + l2] as int == dot(
                            int_seq(a11@),
                            int_seq(b12@),
                            kmid,
                            ni - nmid,
                            i,
                            l2,
                        ) + dot(int_seq(a12@), int_seq(b22@), ki - kmid, ni - nmid, i, l2));
                        assert forall|jj: int| 0 <= jj < kmid implies #[trigger] int_seq(b12@)[jj
                            * (ni - nmid) + l2] == bv[jj * ni + l] by {
                            assert(int_seq(b12@)[jj * (ni - nmid) + l2] == bv[(0 + jj) * ni + (nmid
                                + l2)]);
                        }
                        assert forall|jj: int| 0 <= jj < ki - kmid implies #[trigger] int_seq(
                            b22@,
                        )[jj * (ni - nmid) + l2] == bv[(kmid + jj) * ni + l] by {
                            assert(int_seq(b22@)[jj * (ni - nmid) + l2] == bv[(kmid + jj) * ni + (
                            nmid + l2)]);
                        }
                        lemma_quadrant_dot(
                            int_seq(a11@),
                            int_seq(a12@),
                            int_seq(b12@),
                            int_seq(b22@),
                            av,
                            bv,
                            ki,
                            ni,
                            kmid,
                            ni - nmid,
                            i,
                            l2,
                            i,
                            l,
                        );
                    }
                } else {
                    let i2 = i - mmid;
                    lemma_index_in_bounds(i, l, mi, ni);
                    assert(i * ni >= mmid * ni && (i2) * ni == i * ni - mmid * ni)
                        by (nonlinear_arith)
                        requires
                            i >= mmid >= 0,
                            ni >= 0,
                            i2 == i - mmid,
                    ;
                    assert(c.data@[i * ni + l] == bot[i2 * ni + l]);
                    assert forall|jj: int| 0 <= jj < kmid implies #[trigger] int_seq(a21@)[i2
                        * kmid + jj] == av[i * ki + jj] by {
                        assert(int_seq(a21@)[i2 * (kmid - 0) + jj] == av[(mmid + i2) * ki + (0
                            + jj)]);
                    }
                    assert forall|jj: int| 0 <= jj < ki - kmid implies #[trigger] int_seq(a22@)[i2
                        * (ki - kmid) + jj] == av[i * ki + (kmid + jj)] by {
                        assert(int_seq(a22@)[i2 * (ki - kmid) + jj] == av[(mmid + i2) * ki + (kmid
                            + jj)]);
                    }
                    if l < nmid {
                        assert(bot[i2 * ((n_mid + (n - n_mid)) as int) + l] as int == dot(
                            int_seq(a21@),
                            int_seq(b11@),
                            kmid,
                            nmid,
                            i2,
                            l,
                        ) + dot(int_seq(a22@), int_seq(b21@), ki - kmid, nmid, i2, l));
                        assert forall|jj: int| 0 <= jj < kmid implies #[trigger] int_seq(b11@)[jj
                            * nmid + l] == bv[jj * ni + l] by {
                            assert(int_seq(b11@)[jj * (nmid - 0) + l] == bv[(0 + jj) * ni + (0
                                + l)]);
                        }
                        assert forall|jj: int| 0 <= jj < ki - kmid implies #[trigger] int_seq(
                            b21@,
                        )[jj * nmid + l] == bv[(kmid + jj) * ni + l] by {
                            assert(int_seq(b21@)[jj * (nmid - 0) + l] == bv[(kmid + jj) * ni + (0
                                + l)]);
                        }
                        lemma_quadrant_dot(
                            int_seq(a21@),
                            int_seq(a22@),
                            int_seq(b11@),
                            int_seq(b21@),
                            av,
                            bv,
                            ki,
                            ni,
                            kmid,
                            nmid,
                            i2,
                            l,
                            i,
                            l,
                        );
                    } else {
                        let l2 = l - nmid;
                        assert(bot[i2 * ((n_mid + (n - n_mid)) as int) + n_mid + l2] as int == dot(
                            int_seq(a21@),
                            int_seq(b12@),
                            kmid,
                            ni - nmid,
                            i2,
                            l2,
                        ) + dot(int_seq(a22@), int_seq(b22@), ki - kmid, ni - nmid, i2, l2));
                        assert forall|jj: int| 0 <= jj < kmid implies #[trigger] int_seq(b12@)[jj
                            * (ni - nmid) + l2] == bv[jj * ni + l] by {
                            assert(int_seq(b12@)[jj * (ni - nmid) + l2] == bv[(0 + jj) * ni + (nmid
                                + l2)]);
                        }
                        assert forall|jj: int| 0 <= jj < ki - kmid implies #[trigger] int_seq(
                            b22@,
                        )[jj * (ni - nmid) + l2] == bv[(kmid + jj) * ni + l] by {
                            assert(int_seq(b22@)[jj * (ni - nmid) + l2] == bv[(kmid + jj) * ni + (
                            nmid + l2)]);
                        }
                        lemma_quadrant_dot(
                            int_seq(a21@),
                            int_seq(a22@),
                            int_seq(b12@),
                            int_seq(b22@),
                            av,
                            bv,
                            ki,
                            ni,
                            kmid,
                            ni - nmid,
                            i2,
                            l2,
                            i,
                            l,
                        );
                    }
                }
            }
        }
        Ok(c)
    }
}

/// The row-band offset arithmetic of the kernel: the write position of an
/// in-range cell stays inside the declared output region.
pub proof fn lemma_row_offset_bound(
    i: int,
    l: int,
    m: int,
    n: int,
    stride: int,
    off: int,
    len: int,
)
    by (nonlinear_arith)
    requires
        0 <= i < m,
        0 <= l < n,
        n <= stride,
        0 <= off,
        off + (m - 1) * stride + n <= len,
        len <= 0x40000000,
    ensures
        0 <= off + i * stride + l,
        off + i * stride + l < len,
        off + i * stride + l < 0x40000000,
{
}

} // verus!
