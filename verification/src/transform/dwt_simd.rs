//! Vertical 5-3 passes over several adjacent columns of a row-major tile: each column goes
//! through the one-dimensional transform of [`crate::transform::dwt`], its low-pass samples
//! stored above its high-pass ones. The eight- and four-column forms match the widths of
//! wide and narrow vector registers; all are written with plain indexing.
use vstd::prelude::*;
use crate::transform::dwt::{
    dwt53_dec_at, dwt53_dec_ok, dwt53_enc_ok, dwt53_encoded, dwt53_shape, dwt_decode_1_53, dwt_encode_1_53,
    lemma_dwt53_roundtrip,
};

verus! {

/// Rows `0..n` of column `j` of a row-major array with `stride` samples per row.
pub open spec fn column(d: Seq<i32>, stride: int, n: int, j: int) -> Seq<i32> {
    Seq::new(n as nat, |k: int| d[k * stride + j])
}

/// The interleaved samples `y` (low-pass at even indices) with the `sn` low-pass ones
/// first and the high-pass ones after them.
pub open spec fn deinterleaved(y: Seq<i32>, sn: int) -> Seq<i32> {
    Seq::new(y.len(), |k: int| if k < sn { y[2 * k] } else { y[2 * (k - sn) + 1] })
}

/// The separated samples `y` (`sn` low-pass ones, then the high-pass ones) interleaved,
/// low-pass at even indices.
pub open spec fn interleaved(y: Seq<i32>, sn: int) -> Seq<i32> {
    Seq::new(y.len(), |k: int| if k % 2 == 0 { y[k / 2] } else { y[sn + k / 2] })
}

/// Column `j` after the forward vertical pass: transformed, then separated.
pub open spec fn enc_column(d: Seq<i32>, stride: int, sn: int, dn: int, j: int) -> Seq<i32> {
    deinterleaved(dwt53_encoded(column(d, stride, sn + dn, j), sn, dn, false), sn)
}

/// Sample `k` of column `j` after the inverse vertical pass: interleaved, then transformed.
pub open spec fn dec_column_at(d: Seq<i32>, stride: int, sn: int, dn: int, j: int, k: int) -> int {
    dwt53_dec_at(interleaved(column(d, stride, sn + dn, j), sn), sn, dn, false, k)
}

/// Index `i` lies in rows `0..n` and columns `[c0, c1)`.
pub open spec fn in_block(stride: int, n: int, c0: int, c1: int, i: int) -> bool {
    i / stride < n && c0 <= i % stride < c1
}

/// The pass is a transform (more than one sample and some low-pass ones).
pub open spec fn enc_active(sn: int, dn: int) -> bool {
    !(sn + dn <= 1 || (dn > 0 && sn == 0))
}

/// What both passes ask of the layout: the columns lie within a row, the rows within the
/// array, and the sample counts fit the rows.
pub open spec fn layout_ok(len: int, stride: int, rh: int, sn: int, dn: int, col_base: int, ncols: int) -> bool {
    &&& col_base + ncols <= stride
    &&& 0 < stride
    &&& sn + dn <= rh
    &&& rh * stride <= len
}

proof fn lemma_cell(k: int, j: int, stride: int, rh: int, len: int)
    requires
        0 <= k < rh,
        0 <= j < stride,
        rh * stride <= len,
    ensures
        0 <= k * stride + j < len,
        (k * stride + j) / stride == k,
        (k * stride + j) % stride == j,
{
    assert(k * stride + j < rh * stride) by (nonlinear_arith)
        requires
            0 <= k < rh,
            0 <= j < stride,
    ;
    assert(0 <= k * stride) by (nonlinear_arith)
        requires
            0 <= k,
            0 <= j < stride,
    ;
    vstd::arithmetic::div_mod::lemma_fundamental_div_mod_converse(k * stride + j, stride, k, j);
}

proof fn lemma_index_split(i: int, stride: int)
    requires
        0 <= i,
        0 < stride,
    ensures
        i == (i / stride) * stride + i % stride,
        0 <= i % stride < stride,
        0 <= i / stride,
{
    vstd::arithmetic::div_mod::lemma_fundamental_div_mod(i, stride);
    vstd::arithmetic::div_mod::lemma_mod_bound(i, stride);
    vstd::arithmetic::div_mod::lemma_div_pos_is_pos(i, stride);
    assert((i / stride) * stride == stride * (i / stride)) by (nonlinear_arith);
}

/// Copies rows `0..n` of column `j` out of `data`.
fn gather(data: &[i32], stride: usize, n: usize, rh: usize, j: usize) -> (col: Vec<i32>)
    requires
        j < stride,
        n <= rh,
        rh * stride <= data@.len(),
    ensures
        col@ == column(data@, stride as int, n as int, j as int),
{
    let len = data.len();
    let mut col: Vec<i32> = Vec::new();
    let mut k: usize = 0;
    while k < n
        invariant
            len == data@.len(),
            k <= n,
            n <= rh,
            j < stride,
            rh * stride <= data@.len(),
            col@ == column(data@, stride as int, k as int, j as int),
        decreases n - k,
    {
        proof {
            lemma_cell(k as int, j as int, stride as int, rh as int, data@.len() as int);
        }
        col.push(data[k * stride + j]);
        k += 1;
        assert(col@ =~= column(data@, stride as int, k as int, j as int));
    }
    col
}

/// Writes `col` into rows `0..col.len()` of column `j` of `data`, leaving the rest.
fn scatter(data: &mut [i32], stride: usize, rh: usize, j: usize, col: &Vec<i32>)
    requires
        j < stride,
        col@.len() <= rh,
        rh * stride <= old(data)@.len(),
    ensures
        final(data)@.len() == old(data)@.len(),
        forall|i: int|
            0 <= i < old(data)@.len() ==> #[trigger] final(data)@[i] == (if i % (stride as int) == j && i / (
            stride as int) < col@.len() {
                col@[i / (stride as int)]
            } else {
                old(data)@[i]
            }),
{
    let n = col.len();
    let len = data.len();
    let mut k: usize = 0;
    while k < n
        invariant
            len == data@.len(),
            k <= n,
            n == col@.len(),
            n <= rh,
            j < stride,
            rh * stride <= old(data)@.len(),
            data@.len() == old(data)@.len(),
            forall|i: int|
                0 <= i < old(data)@.len() ==> #[trigger] data@[i] == (if i % (stride as int) == j && i / (
                stride as int) < k {
                    col@[i / (stride as int)]
                } else {
                    old(data)@[i]
                }),
        decreases n - k,
    {
        proof {
            lemma_cell(k as int, j as int, stride as int, rh as int, data@.len() as int);
        }
        let idx = k * stride + j;
        let ghost before = data@;
        data[idx] = col[k];
        proof {
            assert forall|i: int| 0 <= i < old(data)@.len() implies #[trigger] data@[i] == (if i % (
            stride as int) == j && i / (stride as int) < k + 1 {
                col@[i / (stride as int)]
            } else {
                old(data)@[i]
            }) by {
                lemma_index_split(i, stride as int);
                if i != idx {
                    assert(data@[i] == before[i]);
                    if i % (stride as int) == j && i / (stride as int) == k {
                        assert(i == idx);
                    }
                }
            }
        }
        k += 1;
    }
}

/// Forward vertical 5-3 pass on columns `col_base..col_base + ncols` of `data`, rows
/// `0..sn + dn`: each column is transformed and separated, low-pass samples first. The
/// rest of `data` is left as it was; so is all of it when there is at most one sample or no
/// low-pass sample.
pub fn dwt_encode_vert_53(data: &mut [i32], stride: usize, rh: usize, sn: usize, dn: usize, col_base: usize, ncols: usize)
    requires
        layout_ok(old(data)@.len() as int, stride as int, rh as int, sn as int, dn as int, col_base as int, ncols as int),
        enc_active(sn as int, dn as int) ==> dwt53_shape((sn + dn) as int, sn as int, dn as int, false),
        enc_active(sn as int, dn as int) ==> forall|j: int|
            col_base <= j < col_base + ncols ==> #[trigger] dwt53_enc_ok(
                column(old(data)@, stride as int, (sn + dn) as int, j),
                sn as int,
                dn as int,
                false,
            ),
    ensures
        final(data)@.len() == old(data)@.len(),
        !enc_active(sn as int, dn as int) ==> final(data)@ == old(data)@,
        enc_active(sn as int, dn as int) ==> forall|i: int|
            0 <= i < old(data)@.len() ==> #[trigger] final(data)@[i] == (if in_block(
                stride as int,
                (sn + dn) as int,
                col_base as int,
                (col_base + ncols) as int,
                i,
            ) {
                enc_column(old(data)@, stride as int, sn as int, dn as int, i % (stride as int))[i / (
                stride as int)]
            } else {
                old(data)@[i]
            }),
{
    if sn + dn <= 1 || (dn > 0 && sn == 0) {
        return;
    }
    let n = sn + dn;
    let ghost d0 = data@;
    let ghost s = stride as int;
    let end = col_base + ncols;
    let mut j = col_base;
    while j < end
        invariant
            col_base <= j <= end,
            end == col_base + ncols,
            n == sn + dn,
            s == stride,
            d0 == old(data)@,
            sn >= 1,
            layout_ok(d0.len() as int, s, rh as int, sn as int, dn as int, col_base as int, ncols as int),
            dwt53_shape(n as int, sn as int, dn as int, false),
            forall|j2: int|
                col_base <= j2 < end ==> #[trigger] dwt53_enc_ok(column(d0, s, n as int, j2), sn as int, dn as int, false),
            data@.len() == d0.len(),
            forall|i: int|
                0 <= i < d0.len() ==> #[trigger] data@[i] == (if in_block(s, n as int, col_base as int, j as int, i) {
                    enc_column(d0, s, sn as int, dn as int, i % s)[i / s]
                } else {
                    d0[i]
                }),
        decreases end - j,
    {
        let mut col = gather(data, stride, n, rh, j);
        proof {
            assert forall|k: int| 0 <= k < n implies #[trigger] col@[k] == column(d0, s, n as int, j as int)[k] by {
                lemma_cell(k, j as int, s, rh as int, d0.len() as int);
                assert(!in_block(s, n as int, col_base as int, j as int, k * s + j));
            }
            assert(col@ =~= column(d0, s, n as int, j as int));
            assert(dwt53_enc_ok(column(d0, s, n as int, j as int), sn as int, dn as int, false));
        }
        dwt_encode_1_53(col.as_mut_slice(), sn, dn, false);
        let ghost y = col@;
        proof {
            assert(y =~= dwt53_encoded(column(d0, s, n as int, j as int), sn as int, dn as int, false));
        }
        let mut sep: Vec<i32> = Vec::new();
        let mut k: usize = 0;
        while k < n
            invariant
                k <= n,
                n == sn + dn,
                col@ == y,
                y.len() == n,
                dwt53_shape(n as int, sn as int, dn as int, false),
                sn >= 1,
                sep@ == deinterleaved(y, sn as int).take(k as int),
            decreases n - k,
        {
            if k < sn {
                sep.push(col[2 * k]);
            } else {
                sep.push(col[2 * (k - sn) + 1]);
            }
            k += 1;
            assert(sep@ =~= deinterleaved(y, sn as int).take(k as int));
        }
        proof {
            assert(sep@ =~= enc_column(d0, s, sn as int, dn as int, j as int));
        }
        let ghost before = data@;
        scatter(data, stride, rh, j, &sep);
        proof {
            assert forall|i: int| 0 <= i < d0.len() implies #[trigger] data@[i] == (if in_block(
                s,
                n as int,
                col_base as int,
                j + 1,
                i,
            ) {
                enc_column(d0, s, sn as int, dn as int, i % s)[i / s]
            } else {
                d0[i]
            }) by {
                lemma_index_split(i, s);
                assert(before[i] == (if in_block(s, n as int, col_base as int, j as int, i) {
                    enc_column(d0, s, sn as int, dn as int, i % s)[i / s]
                } else {
                    d0[i]
                }));
            }
        }
        j += 1;
    }
}

/// Inverse vertical 5-3 pass on columns `col_base..col_base + ncols` of `data`, rows
/// `0..sn + dn`: each column, low-pass samples first, is interleaved and transformed back.
/// The rest of `data` is left as it was; so is all of it when there is at most one sample.
pub fn dwt_decode_vert_53(data: &mut [i32], stride: usize, rh: usize, sn: usize, dn: usize, col_base: usize, ncols: usize)
    requires
        layout_ok(old(data)@.len() as int, stride as int, rh as int, sn as int, dn as int, col_base as int, ncols as int),
        dwt53_shape((sn + dn) as int, sn as int, dn as int, false),
        forall|j: int|
            col_base <= j < col_base + ncols ==> #[trigger] dwt53_dec_ok(
                interleaved(column(old(data)@, stride as int, (sn + dn) as int, j), sn as int),
                sn as int,
                dn as int,
                false,
            ),
    ensures
        final(data)@.len() == old(data)@.len(),
        sn + dn <= 1 ==> final(data)@ == old(data)@,
        sn + dn > 1 ==> forall|i: int|
            0 <= i < old(data)@.len() ==> #[trigger] final(data)@[i] == (if in_block(
                stride as int,
                (sn + dn) as int,
                col_base as int,
                (col_base + ncols) as int,
                i,
            ) {
                dec_column_at(old(data)@, stride as int, sn as int, dn as int, i % (stride as int), i / (stride as int))
            } else {
                old(data)@[i] as int
            }),
{
    if sn + dn <= 1 {
        return;
    }
    let n = sn + dn;
    let ghost d0 = data@;
    let ghost s = stride as int;
    let end = col_base + ncols;
    let mut j = col_base;
    while j < end
        invariant
            col_base <= j <= end,
            end == col_base + ncols,
            n == sn + dn,
            n > 1,
            s == stride,
            d0 == old(data)@,
            layout_ok(d0.len() as int, s, rh as int, sn as int, dn as int, col_base as int, ncols as int),
            dwt53_shape(n as int, sn as int, dn as int, false),
            forall|j2: int|
                col_base <= j2 < end ==> #[trigger] dwt53_dec_ok(
                    interleaved(column(d0, s, n as int, j2), sn as int),
                    sn as int,
                    dn as int,
                    false,
                ),
            data@.len() == d0.len(),
            forall|i: int|
                0 <= i < d0.len() ==> #[trigger] data@[i] == (if in_block(s, n as int, col_base as int, j as int, i) {
                    dec_column_at(d0, s, sn as int, dn as int, i % s, i / s)
                } else {
                    d0[i] as int
                }),
        decreases end - j,
    {
        let col = gather(data, stride, n, rh, j);
        proof {
            assert forall|k: int| 0 <= k < n implies #[trigger] col@[k] == column(d0, s, n as int, j as int)[k] by {
                lemma_cell(k, j as int, s, rh as int, d0.len() as int);
                assert(!in_block(s, n as int, col_base as int, j as int, k * s + j));
            }
            assert(col@ =~= column(d0, s, n as int, j as int));
        }
        let ghost x = col@;
        let mut z: Vec<i32> = Vec::new();
        let mut k: usize = 0;
        while k < n
            invariant
                k <= n,
                n == sn + dn,
                n > 1,
                col@ == x,
                x.len() == n,
                dwt53_shape(n as int, sn as int, dn as int, false),
                z@ == interleaved(x, sn as int).take(k as int),
            decreases n - k,
        {
            if k % 2 == 0 {
                z.push(col[k / 2]);
            } else {
                z.push(col[sn + k / 2]);
            }
            k += 1;
            assert(z@ =~= interleaved(x, sn as int).take(k as int));
        }
        proof {
            assert(z@ =~= interleaved(x, sn as int));
            assert(dwt53_dec_ok(interleaved(column(d0, s, n as int, j as int), sn as int), sn as int, dn as int, false));
        }
        let ghost zi = z@;
        dwt_decode_1_53(z.as_mut_slice(), sn, dn, false);
        let ghost before = data@;
        scatter(data, stride, rh, j, &z);
        proof {
            assert forall|i: int| 0 <= i < d0.len() implies #[trigger] data@[i] == (if in_block(
                s,
                n as int,
                col_base as int,
                j + 1,
                i,
            ) {
                dec_column_at(d0, s, sn as int, dn as int, i % s, i / s)
            } else {
                d0[i] as int
            }) by {
                lemma_index_split(i, s);
                assert(before[i] == (if in_block(s, n as int, col_base as int, j as int, i) {
                    dec_column_at(d0, s, sn as int, dn as int, i % s, i / s)
                } else {
                    d0[i] as int
                }));
                if i % s == j && i / s < n {
                    assert(data@[i] == z@[i / s]);
                }
            }
        }
        j += 1;
    }
}

/// Forward vertical pass on the eight columns from `col_base`.
pub fn dwt_encode_vert_53_avx2(data: &mut [i32], stride: usize, rh: usize, sn: usize, dn: usize, col_base: usize)
    requires
        layout_ok(old(data)@.len() as int, stride as int, rh as int, sn as int, dn as int, col_base as int, 8),
        enc_active(sn as int, dn as int) ==> dwt53_shape((sn + dn) as int, sn as int, dn as int, false),
        enc_active(sn as int, dn as int) ==> forall|j: int|
            col_base <= j < col_base + 8 ==> #[trigger] dwt53_enc_ok(
                column(old(data)@, stride as int, (sn + dn) as int, j),
                sn as int,
                dn as int,
                false,
            ),
    ensures
        final(data)@.len() == old(data)@.len(),
        !enc_active(sn as int, dn as int) ==> final(data)@ == old(data)@,
        enc_active(sn as int, dn as int) ==> forall|i: int|
            0 <= i < old(data)@.len() ==> #[trigger] final(data)@[i] == (if in_block(
                stride as int,
                (sn + dn) as int,
                col_base as int,
                col_base + 8,
                i,
            ) {
                enc_column(old(data)@, stride as int, sn as int, dn as int, i % (stride as int))[i / (
                stride as int)]
            } else {
                old(data)@[i]
            }),
{
    dwt_encode_vert_53(data, stride, rh, sn, dn, col_base, 8);
}

/// Forward vertical pass on the four columns from `col_base`.
pub fn dwt_encode_vert_53_sse2(data: &mut [i32], stride: usize, rh: usize, sn: usize, dn: usize, col_base: usize)
    requires
        layout_ok(old(data)@.len() as int, stride as int, rh as int, sn as int, dn as int, col_base as int, 4),
        enc_active(sn as int, dn as int) ==> dwt53_shape((sn + dn) as int, sn as int, dn as int, false),
        enc_active(sn as int, dn as int) ==> forall|j: int|
            col_base <= j < col_base + 4 ==> #[trigger] dwt53_enc_ok(
                column(old(data)@, stride as int, (sn + dn) as int, j),
                sn as int,
                dn as int,
                false,
            ),
    ensures
        final(data)@.len() == old(data)@.len(),
        !enc_active(sn as int, dn as int) ==> final(data)@ == old(data)@,
        enc_active(sn as int, dn as int) ==> forall|i: int|
            0 <= i < old(data)@.len() ==> #[trigger] final(data)@[i] == (if in_block(
                stride as int,
                (sn + dn) as int,
                col_base as int,
                col_base + 4,
                i,
            ) {
                enc_column(old(data)@, stride as int, sn as int, dn as int, i % (stride as int))[i / (
                stride as int)]
            } else {
                old(data)@[i]
            }),
{
    dwt_encode_vert_53(data, stride, rh, sn, dn, col_base, 4);
}

/// Inverse vertical pass on the eight columns from `col_base`.
pub fn dwt_decode_vert_53_avx2(data: &mut [i32], stride: usize, rh: usize, sn: usize, dn: usize, col_base: usize)
    requires
        layout_ok(old(data)@.len() as int, stride as int, rh as int, sn as int, dn as int, col_base as int, 8),
        dwt53_shape((sn + dn) as int, sn as int, dn as int, false),
        forall|j: int|
            col_base <= j < col_base + 8 ==> #[trigger] dwt53_dec_ok(
                interleaved(column(old(data)@, stride as int, (sn + dn) as int, j), sn as int),
                sn as int,
                dn as int,
                false,
            ),
    ensures
        final(data)@.len() == old(data)@.len(),
        sn + dn <= 1 ==> final(data)@ == old(data)@,
        sn + dn > 1 ==> forall|i: int|
            0 <= i < old(data)@.len() ==> #[trigger] final(data)@[i] == (if in_block(
                stride as int,
                (sn + dn) as int,
                col_base as int,
                col_base + 8,
                i,
            ) {
                dec_column_at(old(data)@, stride as int, sn as int, dn as int, i % (stride as int), i / (stride as int))
            } else {
                old(data)@[i] as int
            }),
{
    dwt_decode_vert_53(data, stride, rh, sn, dn, col_base, 8);
}

/// Inverse vertical pass on the four columns from `col_base`.
pub fn dwt_decode_vert_53_sse2(data: &mut [i32], stride: usize, rh: usize, sn: usize, dn: usize, col_base: usize)
    requires
        layout_ok(old(data)@.len() as int, stride as int, rh as int, sn as int, dn as int, col_base as int, 4),
        dwt53_shape((sn + dn) as int, sn as int, dn as int, false),
        forall|j: int|
            col_base <= j < col_base + 4 ==> #[trigger] dwt53_dec_ok(
                interleaved(column(old(data)@, stride as int, (sn + dn) as int, j), sn as int),
                sn as int,
                dn as int,
                false,
            ),
    ensures
        final(data)@.len() == old(data)@.len(),
        sn + dn <= 1 ==> final(data)@ == old(data)@,
        sn + dn > 1 ==> forall|i: int|
            0 <= i < old(data)@.len() ==> #[trigger] final(data)@[i] == (if in_block(
                stride as int,
                (sn + dn) as int,
                col_base as int,
                col_base + 4,
                i,
            ) {
                dec_column_at(old(data)@, stride as int, sn as int, dn as int, i % (stride as int), i / (stride as int))
            } else {
                old(data)@[i] as int
            }),
{
    dwt_decode_vert_53(data, stride, rh, sn, dn, col_base, 4);
}

/// Perfect reconstruction of a column: the inverse vertical pass applied to what the
/// forward pass left in a column gives the column back.
pub proof fn lemma_vert_roundtrip(x: Seq<i32>, sn: int, dn: int)
    requires
        0 <= sn,
        0 <= dn,
        x.len() == sn + dn,
        enc_active(sn, dn),
        dwt53_shape(sn + dn, sn, dn, false),
        dwt53_enc_ok(x, sn, dn, false),
    ensures
        interleaved(deinterleaved(dwt53_encoded(x, sn, dn, false), sn), sn) == dwt53_encoded(x, sn, dn, false),
        dwt53_dec_ok(interleaved(deinterleaved(dwt53_encoded(x, sn, dn, false), sn), sn), sn, dn, false),
        forall|k: int|
            0 <= k < x.len() ==> #[trigger] dwt53_dec_at(
                interleaved(deinterleaved(dwt53_encoded(x, sn, dn, false), sn), sn),
                sn,
                dn,
                false,
                k,
            ) == x[k],
{
    let y = dwt53_encoded(x, sn, dn, false);
    let z = interleaved(deinterleaved(y, sn), sn);
    assert forall|k: int| 0 <= k < y.len() implies z[k] == y[k] by {
        if k % 2 == 0 {
            assert(k / 2 < sn);
            assert(2 * (k / 2) == k);
        } else {
            assert(2 * (k / 2) + 1 == k);
        }
    }
    assert(z =~= y);
    lemma_dwt53_roundtrip(x, sn, dn, false);
}

} // verus!
