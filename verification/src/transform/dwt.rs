//! The reversible 5-3 wavelet transform in one dimension, by lifting, in place on
//! interleaved samples.
//!
//! With `cas == false` the low-pass samples sit at even indices and the high-pass samples
//! at odd ones; with `cas == true` it is the other way round. `sn` and `dn` count the
//! low-pass and high-pass samples.
use vstd::prelude::*;
use vstd::arithmetic::power2::pow2;
use crate::arith::{trunc_div, lemma_i32_shr_floor};

verus! {

/// `i` clamped to the last index below `n`.
pub open spec fn cl(i: int, n: int) -> int {
    if i < n { i } else { n - 1 }
}

/// The index before `i`, clamped to `[0, n)`.
pub open spec fn prev_cl(i: int, n: int) -> int {
    if i > 0 { cl(i - 1, n) } else { 0 }
}

/// The index before `i`, or 0.
pub open spec fn before(i: int) -> int {
    if i > 0 { i - 1 } else { 0 }
}

/// Whether `v` is an `i32` value.
pub open spec fn fits(v: int) -> bool {
    i32::MIN <= v <= i32::MAX
}

/// Sum of the two low-pass neighbours of high-pass sample `i` (even origin).
pub open spec fn p0(x: Seq<i32>, sn: int, i: int) -> int {
    x[2 * i] + x[2 * cl(i + 1, sn)]
}

/// High-pass sample `i` after the predict step (even origin).
pub open spec fn pd0(x: Seq<i32>, sn: int, i: int) -> int {
    x[2 * i + 1] - p0(x, sn, i) / 2
}

/// Sample `k` after the predict step (even origin).
pub open spec fn ap0(x: Seq<i32>, sn: int, dn: int, k: int) -> int {
    if k % 2 == 1 && k / 2 < dn { pd0(x, sn, k / 2) } else { x[k] as int }
}

/// Sum of the two predicted high-pass neighbours of low-pass sample `i`, plus 2 (even origin).
pub open spec fn u0(x: Seq<i32>, sn: int, dn: int, i: int) -> int {
    ap0(x, sn, dn, 2 * before(i) + 1) + ap0(x, sn, dn, 2 * cl(i, dn) + 1) + 2
}

/// Sample `k` after the forward transform (even origin).
pub open spec fn enc0(x: Seq<i32>, sn: int, dn: int, k: int) -> int {
    if k % 2 == 0 && k / 2 < sn { x[k] + u0(x, sn, dn, k / 2) / 4 } else { ap0(x, sn, dn, k) }
}

/// The forward transform (even origin) stays within `i32` at each step.
pub open spec fn enc0_ok(x: Seq<i32>, sn: int, dn: int) -> bool {
    &&& forall|i: int| 0 <= i < dn ==> #[trigger] fits(p0(x, sn, i)) && fits(pd0(x, sn, i))
    &&& forall|i: int| 0 <= i < sn ==> #[trigger] fits(u0(x, sn, dn, i)) && fits(u0(x, sn, dn, i) - 2) && fits(x[2 * i] + u0(x, sn, dn, i) / 4)
}

/// Sum of the two high-pass neighbours of low-pass sample `i`, plus 2, before the inverse
/// transform (even origin).
pub open spec fn du0(y: Seq<i32>, dn: int, i: int) -> int {
    y[2 * before(i) + 1] + y[2 * cl(i, dn) + 1] + 2
}

/// Sample `k` after undoing the update step (even origin).
pub open spec fn aq0(y: Seq<i32>, sn: int, dn: int, k: int) -> int {
    if k % 2 == 0 && k / 2 < sn { y[k] - du0(y, dn, k / 2) / 4 } else { y[k] as int }
}

/// Sum of the two restored low-pass neighbours of high-pass sample `i` (even origin).
pub open spec fn dp0(y: Seq<i32>, sn: int, dn: int, i: int) -> int {
    aq0(y, sn, dn, 2 * i) + aq0(y, sn, dn, 2 * cl(i + 1, sn))
}

/// Sample `k` after the inverse transform (even origin).
pub open spec fn dec0(y: Seq<i32>, sn: int, dn: int, k: int) -> int {
    if k % 2 == 1 && k / 2 < dn { y[k] + dp0(y, sn, dn, k / 2) / 2 } else { aq0(y, sn, dn, k) }
}

/// The inverse transform (even origin) stays within `i32` at each step.
pub open spec fn dec0_ok(y: Seq<i32>, sn: int, dn: int) -> bool {
    &&& forall|i: int| 0 <= i < sn ==> #[trigger] fits(du0(y, dn, i)) && fits(du0(y, dn, i) - 2) && fits(y[2 * i] - du0(y, dn, i) / 4)
    &&& forall|i: int| 0 <= i < dn ==> #[trigger] fits(dp0(y, sn, dn, i)) && fits(y[2 * i + 1] + dp0(y, sn, dn, i) / 2)
}

/// Sum of the two low-pass neighbours of high-pass sample `i` (odd origin).
pub open spec fn p1(x: Seq<i32>, sn: int, i: int) -> int {
    x[2 * cl(i, sn) + 1] + x[2 * prev_cl(i, sn) + 1]
}

/// High-pass sample `i` after the predict step (odd origin).
pub open spec fn pd1(x: Seq<i32>, sn: int, i: int) -> int {
    x[2 * i] - p1(x, sn, i) / 2
}

/// Sample `k` after the predict step (odd origin).
pub open spec fn ap1(x: Seq<i32>, sn: int, dn: int, k: int) -> int {
    if k % 2 == 0 && k / 2 < dn { pd1(x, sn, k / 2) } else { x[k] as int }
}

/// Sum of the two predicted high-pass neighbours of low-pass sample `i`, plus 2 (odd origin).
pub open spec fn u1(x: Seq<i32>, sn: int, dn: int, i: int) -> int {
    ap1(x, sn, dn, 2 * cl(i, dn)) + ap1(x, sn, dn, 2 * cl(i + 1, dn)) + 2
}

/// Sample `k` after the forward transform (odd origin).
pub open spec fn enc1(x: Seq<i32>, sn: int, dn: int, k: int) -> int {
    if k % 2 == 1 && k / 2 < sn { x[k] + u1(x, sn, dn, k / 2) / 4 } else { ap1(x, sn, dn, k) }
}

/// The forward transform (odd origin) stays within `i32` at each step.
pub open spec fn enc1_ok(x: Seq<i32>, sn: int, dn: int) -> bool {
    &&& forall|i: int| 0 <= i < dn ==> #[trigger] fits(p1(x, sn, i)) && fits(pd1(x, sn, i))
    &&& forall|i: int| 0 <= i < sn ==> #[trigger] fits(u1(x, sn, dn, i)) && fits(u1(x, sn, dn, i) - 2) && fits(x[2 * i + 1] + u1(x, sn, dn, i) / 4)
}

/// Sum of the two high-pass neighbours of low-pass sample `i`, plus 2, before the inverse
/// transform (odd origin).
pub open spec fn du1(y: Seq<i32>, dn: int, i: int) -> int {
    y[2 * cl(i, dn)] + y[2 * cl(i + 1, dn)] + 2
}

/// Sample `k` after undoing the update step (odd origin).
pub open spec fn aq1(y: Seq<i32>, sn: int, dn: int, k: int) -> int {
    if k % 2 == 1 && k / 2 < sn { y[k] - du1(y, dn, k / 2) / 4 } else { y[k] as int }
}

/// Sum of the two restored low-pass neighbours of high-pass sample `i` (odd origin).
pub open spec fn dp1(y: Seq<i32>, sn: int, dn: int, i: int) -> int {
    aq1(y, sn, dn, 2 * cl(i, sn) + 1) + aq1(y, sn, dn, 2 * prev_cl(i, sn) + 1)
}

/// Sample `k` after the inverse transform (odd origin).
pub open spec fn dec1(y: Seq<i32>, sn: int, dn: int, k: int) -> int {
    if k % 2 == 0 && k / 2 < dn { y[k] + dp1(y, sn, dn, k / 2) / 2 } else { aq1(y, sn, dn, k) }
}

/// The inverse transform (odd origin) stays within `i32` at each step.
pub open spec fn dec1_ok(y: Seq<i32>, sn: int, dn: int) -> bool {
    &&& forall|i: int| 0 <= i < sn ==> #[trigger] fits(du1(y, dn, i)) && fits(du1(y, dn, i) - 2) && fits(y[2 * i + 1] - du1(y, dn, i) / 4)
    &&& forall|i: int| 0 <= i < dn ==> #[trigger] fits(dp1(y, sn, dn, i)) && fits(y[2 * i] + dp1(y, sn, dn, i) / 2)
}

/// The sample counts fit a buffer of `len` samples: every index the transform touches lies
/// in it.
pub open spec fn dwt53_shape(len: int, sn: int, dn: int, cas: bool) -> bool {
    &&& sn + dn <= usize::MAX
    &&& if !cas {
        sn + dn > 1 ==> 1 <= sn && 1 <= dn && 2 * dn <= len && 2 * sn <= len + 1
    } else if sn == 0 && dn == 1 {
        len >= 1
    } else {
        sn + dn > 1 ==> 1 <= sn && 1 <= dn && 2 * sn <= len && 2 * dn <= len + 1
    }
}

/// Sample `k` after the forward transform.
pub open spec fn dwt53_enc_at(x: Seq<i32>, sn: int, dn: int, cas: bool, k: int) -> int {
    if !cas {
        if sn + dn <= 1 { x[k] as int } else { enc0(x, sn, dn, k) }
    } else if sn == 0 && dn == 1 {
        if k == 0 { 2 * x[0] } else { x[k] as int }
    } else if sn + dn <= 1 {
        x[k] as int
    } else {
        enc1(x, sn, dn, k)
    }
}

/// The forward transform stays within `i32`.
pub open spec fn dwt53_enc_ok(x: Seq<i32>, sn: int, dn: int, cas: bool) -> bool {
    if !cas {
        sn + dn > 1 ==> enc0_ok(x, sn, dn)
    } else if sn == 0 && dn == 1 {
        fits(2 * x[0])
    } else {
        sn + dn > 1 ==> enc1_ok(x, sn, dn)
    }
}

/// Sample `k` after the inverse transform.
pub open spec fn dwt53_dec_at(y: Seq<i32>, sn: int, dn: int, cas: bool, k: int) -> int {
    if !cas {
        if sn + dn <= 1 { y[k] as int } else { dec0(y, sn, dn, k) }
    } else if sn == 0 && dn == 1 {
        if k == 0 { trunc_div(y[0] as int, 2) } else { y[k] as int }
    } else if sn + dn <= 1 {
        y[k] as int
    } else {
        dec1(y, sn, dn, k)
    }
}

/// The inverse transform stays within `i32`.
pub open spec fn dwt53_dec_ok(y: Seq<i32>, sn: int, dn: int, cas: bool) -> bool {
    if !cas {
        sn + dn > 1 ==> dec0_ok(y, sn, dn)
    } else if sn == 0 && dn == 1 {
        true
    } else {
        sn + dn > 1 ==> dec1_ok(y, sn, dn)
    }
}

proof fn lemma_half(v: i32)
    ensures
        (v >> 1u32) as int == (v as int) / 2,
{
    lemma_i32_shr_floor(v, 1);
    vstd::arithmetic::power2::lemma2_to64();
}

proof fn lemma_quarter(v: i32)
    ensures
        (v >> 2u32) as int == (v as int) / 4,
{
    lemma_i32_shr_floor(v, 2);
    vstd::arithmetic::power2::lemma2_to64();
}

/// The lifting steps of the forward transform, on the samples themselves: each high-pass
/// sample loses half the sum of its two low-pass neighbours (rounded down, the neighbour
/// past either end of the line taken from the nearest low-pass sample), and each low-pass
/// sample then gains a quarter of the sum of its two new high-pass neighbours plus 2
/// (rounded down, clamped alike). With even origin (`cas` false) high-pass sample `i`
/// sits between low-pass samples `i` and `i + 1`; with odd origin, between `i - 1` and
/// `i`. A lone high-pass sample at odd origin is doubled; a shorter line is unchanged.
pub proof fn lemma_dwt53_forward_lifting(x: Seq<i32>, y: Seq<i32>, sn: int, dn: int, cas: bool)
    requires
        0 <= sn,
        0 <= dn,
        dwt53_shape(x.len() as int, sn, dn, cas),
        y.len() == x.len(),
        forall|k: int| 0 <= k < x.len() ==> #[trigger] y[k] as int == dwt53_enc_at(x, sn, dn, cas, k),
    ensures
        cas && sn == 0 && dn == 1 ==> y[0] == 2 * x[0],
        sn + dn <= 1 && !(cas && sn == 0 && dn == 1) ==> y == x,
        !cas && sn + dn > 1 ==> forall|i: int|
            0 <= i < dn ==> #[trigger] y[2 * i + 1] == x[2 * i + 1] - (x[2 * i] + x[2 * (if i + 1 < sn { i + 1 } else { sn - 1 })]) / 2,
        !cas && sn + dn > 1 ==> forall|i: int|
            0 <= i < sn ==> #[trigger] y[2 * i] == x[2 * i] + (y[2 * (if i > 0 { i - 1 } else { 0 }) + 1] + y[2 * (if i < dn { i } else { dn - 1 }) + 1] + 2) / 4,
        cas && sn + dn > 1 && !(sn == 0 && dn == 1) ==> forall|i: int|
            0 <= i < dn ==> #[trigger] y[2 * i] == x[2 * i] - (x[2 * (if i < sn { i } else { sn - 1 }) + 1] + x[2 * (if i == 0 { 0 } else if i - 1 < sn { i - 1 } else { sn - 1 }) + 1]) / 2,
        cas && sn + dn > 1 && !(sn == 0 && dn == 1) ==> forall|i: int|
            0 <= i < sn ==> #[trigger] y[2 * i + 1] == x[2 * i + 1] + (y[2 * (if i < dn { i } else { dn - 1 })] + y[2 * (if i + 1 < dn { i + 1 } else { dn - 1 })] + 2) / 4,
{
    if cas && sn == 0 && dn == 1 {
        assert(y[0] as int == dwt53_enc_at(x, sn, dn, cas, 0));
    } else if sn + dn <= 1 {
        assert(y =~= x) by {
            assert forall|k: int| 0 <= k < x.len() implies y[k] == x[k] by {
                assert(y[k] as int == dwt53_enc_at(x, sn, dn, cas, k));
            }
        }
    } else if !cas {
        assert forall|i: int| 0 <= i < dn implies #[trigger] y[2 * i + 1] == x[2 * i + 1] - (x[2 * i] + x[2 * (if i + 1 < sn { i + 1 } else { sn - 1 })]) / 2 by {
            assert(y[2 * i + 1] as int == dwt53_enc_at(x, sn, dn, cas, 2 * i + 1));
        }
        assert forall|i: int| 0 <= i < sn implies #[trigger] y[2 * i] == x[2 * i] + (y[2 * (if i > 0 { i - 1 } else { 0 }) + 1] + y[2 * (if i < dn { i } else { dn - 1 }) + 1] + 2) / 4 by {
            let a = 2 * (if i > 0 { i - 1 } else { 0 }) + 1;
            let b = 2 * (if i < dn { i } else { dn - 1 }) + 1;
            assert(y[2 * i] as int == dwt53_enc_at(x, sn, dn, cas, 2 * i));
            assert(y[a] as int == dwt53_enc_at(x, sn, dn, cas, a));
            assert(y[b] as int == dwt53_enc_at(x, sn, dn, cas, b));
        }
    } else {
        assert forall|i: int| 0 <= i < dn implies #[trigger] y[2 * i] == x[2 * i] - (x[2 * (if i < sn { i } else { sn - 1 }) + 1] + x[2 * (if i == 0 { 0 } else if i - 1 < sn { i - 1 } else { sn - 1 }) + 1]) / 2 by {
            assert(y[2 * i] as int == dwt53_enc_at(x, sn, dn, cas, 2 * i));
        }
        assert forall|i: int| 0 <= i < sn implies #[trigger] y[2 * i + 1] == x[2 * i + 1] + (y[2 * (if i < dn { i } else { dn - 1 })] + y[2 * (if i + 1 < dn { i + 1 } else { dn - 1 })] + 2) / 4 by {
            let a = 2 * (if i < dn { i } else { dn - 1 });
            let b = 2 * (if i + 1 < dn { i + 1 } else { dn - 1 });
            assert(y[2 * i + 1] as int == dwt53_enc_at(x, sn, dn, cas, 2 * i + 1));
            assert(y[a] as int == dwt53_enc_at(x, sn, dn, cas, a));
            assert(y[b] as int == dwt53_enc_at(x, sn, dn, cas, b));
        }
    }
}

/// Forward 5-3 transform of `data`, in place (see `lemma_dwt53_forward_lifting` for its
/// lifting steps on the samples).
pub fn dwt_encode_1_53(data: &mut [i32], sn: usize, dn: usize, cas: bool)
    requires
        dwt53_shape(old(data)@.len() as int, sn as int, dn as int, cas),
        dwt53_enc_ok(old(data)@, sn as int, dn as int, cas),
    ensures
        final(data)@.len() == old(data)@.len(),
        forall|k: int|
            0 <= k < old(data)@.len() ==> #[trigger] final(data)@[k] as int == dwt53_enc_at(
                old(data)@,
                sn as int,
                dn as int,
                cas,
                k,
            ),
        cas && sn == 0 && dn == 1 ==> final(data)@[0] == 2 * old(data)@[0],
        sn + dn <= 1 && !(cas && sn == 0 && dn == 1) ==> final(data)@ == old(data)@,
        !cas && sn + dn > 1 ==> forall|i: int|
            0 <= i < dn ==> #[trigger] final(data)@[2 * i + 1] == old(data)@[2 * i + 1] - (old(data)@[2 * i] + old(data)@[2 * (if i + 1 < sn { i + 1 } else { sn - 1 })]) / 2,
        !cas && sn + dn > 1 ==> forall|i: int|
            0 <= i < sn ==> #[trigger] final(data)@[2 * i] == old(data)@[2 * i] + (final(data)@[2 * (if i > 0 { i - 1 } else { 0 }) + 1] + final(data)@[2 * (if i < dn { i } else { dn - 1 }) + 1] + 2) / 4,
        cas && sn + dn > 1 && !(sn == 0 && dn == 1) ==> forall|i: int|
            0 <= i < dn ==> #[trigger] final(data)@[2 * i] == old(data)@[2 * i] - (old(data)@[2 * (if i < sn { i } else { sn - 1 }) + 1] + old(data)@[2 * (if i == 0 { 0 } else if i - 1 < sn { i - 1 } else { sn - 1 }) + 1]) / 2,
        cas && sn + dn > 1 && !(sn == 0 && dn == 1) ==> forall|i: int|
            0 <= i < sn ==> #[trigger] final(data)@[2 * i + 1] == old(data)@[2 * i + 1] + (final(data)@[2 * (if i < dn { i } else { dn - 1 })] + final(data)@[2 * (if i + 1 < dn { i + 1 } else { dn - 1 })] + 2) / 4,
{
    encode_lifting(data, sn, dn, cas);
    proof {
        lemma_dwt53_forward_lifting(old(data)@, data@, sn as int, dn as int, cas);
    }
}

/// The lifting steps of the forward 5-3 transform of `data`, in place.
fn encode_lifting(data: &mut [i32], sn: usize, dn: usize, cas: bool)
    requires
        dwt53_shape(old(data)@.len() as int, sn as int, dn as int, cas),
        dwt53_enc_ok(old(data)@, sn as int, dn as int, cas),
    ensures
        final(data)@.len() == old(data)@.len(),
        forall|k: int|
            0 <= k < old(data)@.len() ==> #[trigger] final(data)@[k] as int == dwt53_enc_at(
                old(data)@,
                sn as int,
                dn as int,
                cas,
                k,
            ),
{
    let ghost x = data@;
    let ghost len = x.len() as int;
    if !cas {
        if sn + dn <= 1 {
            return;
        }
        let mut i: usize = 0;
        while i < dn
            invariant
                x == old(data)@,
                data@.len() == len,
                i <= dn,
                sn + dn > 1,
                dwt53_shape(len, sn as int, dn as int, cas),
                !cas,
                enc0_ok(x, sn as int, dn as int),
                forall|k: int|
                    0 <= k < len ==> #[trigger] data@[k] as int == (if k % 2 == 1 && k / 2 < i {
                        pd0(x, sn as int, k / 2)
                    } else {
                        x[k] as int
                    }),
            decreases dn - i,
        {
            let j = if i + 1 < sn { i + 1 } else { sn - 1 };
            let si = data[2 * i];
            let si1 = data[2 * j];
            proof {
                assert(fits(p0(x, sn as int, i as int)) && fits(pd0(x, sn as int, i as int)));
                assert(data@[2 * i as int] == x[2 * i as int]);
                assert(data@[2 * j as int] == x[2 * j as int]);
                assert(data@[2 * i as int + 1] == x[2 * i as int + 1]);
            }
            let sum = si + si1;
            proof {
                lemma_half(sum);
            }
            data[2 * i + 1] -= sum >> 1;
            i += 1;
        }
        let mut i: usize = 0;
        while i < sn
            invariant
                x == old(data)@,
                data@.len() == len,
                i <= sn,
                sn + dn > 1,
                dwt53_shape(len, sn as int, dn as int, cas),
                !cas,
                enc0_ok(x, sn as int, dn as int),
                forall|k: int|
                    0 <= k < len ==> #[trigger] data@[k] as int == (if k % 2 == 0 && k / 2 < i {
                        enc0(x, sn as int, dn as int, k)
                    } else {
                        ap0(x, sn as int, dn as int, k)
                    }),
            decreases sn - i,
        {
            let a = if i > 0 { i - 1 } else { 0 };
            let b = if i < dn { i } else { dn - 1 };
            let dim1 = data[2 * a + 1];
            let di = data[2 * b + 1];
            proof {
                assert(fits(u0(x, sn as int, dn as int, i as int)));
                assert(fits(x[2 * i as int] + u0(x, sn as int, dn as int, i as int) / 4));
                assert(data@[2 * a + 1] as int == ap0(x, sn as int, dn as int, 2 * a + 1));
                assert(data@[2 * b + 1] as int == ap0(x, sn as int, dn as int, 2 * b + 1));
                assert(data@[2 * i as int] as int == x[2 * i as int]);
            }
            let t = dim1 + di + 2;
            proof {
                lemma_quarter(t);
            }
            data[2 * i] += t >> 2;
            i += 1;
        }
    } else {
        if sn == 0 && dn == 1 {
            data[0] *= 2;
            return;
        }
        if sn + dn <= 1 {
            return;
        }
        let mut i: usize = 0;
        while i < dn
            invariant
                x == old(data)@,
                data@.len() == len,
                i <= dn,
                sn + dn > 1,
                !(sn == 0 && dn == 1),
                dwt53_shape(len, sn as int, dn as int, cas),
                cas,
                enc1_ok(x, sn as int, dn as int),
                forall|k: int|
                    0 <= k < len ==> #[trigger] data@[k] as int == (if k % 2 == 0 && k / 2 < i {
                        pd1(x, sn as int, k / 2)
                    } else {
                        x[k] as int
                    }),
            decreases dn - i,
        {
            let a = if i < sn { i } else { sn - 1 };
            let b = if i > 0 {
                if i - 1 < sn { i - 1 } else { sn - 1 }
            } else {
                0
            };
            let dd_i = data[2 * a + 1];
            let dd_im1 = data[2 * b + 1];
            proof {
                assert(fits(p1(x, sn as int, i as int)));
                assert(fits(pd1(x, sn as int, i as int)));
                assert(data@[2 * a + 1] == x[2 * a + 1]);
                assert(data@[2 * b + 1] == x[2 * b + 1]);
                assert(data@[2 * i as int] == x[2 * i as int]);
            }
            let sum = dd_i + dd_im1;
            proof {
                lemma_half(sum);
            }
            data[2 * i] -= sum >> 1;
            i += 1;
        }
        let mut i: usize = 0;
        while i < sn
            invariant
                x == old(data)@,
                data@.len() == len,
                i <= sn,
                sn + dn > 1,
                !(sn == 0 && dn == 1),
                dwt53_shape(len, sn as int, dn as int, cas),
                cas,
                enc1_ok(x, sn as int, dn as int),
                forall|k: int|
                    0 <= k < len ==> #[trigger] data@[k] as int == (if k % 2 == 1 && k / 2 < i {
                        enc1(x, sn as int, dn as int, k)
                    } else {
                        ap1(x, sn as int, dn as int, k)
                    }),
            decreases sn - i,
        {
            let a = if i < dn { i } else { dn - 1 };
            let b = if i + 1 < dn { i + 1 } else { dn - 1 };
            let ss_i = data[2 * a];
            let ss_ip1 = data[2 * b];
            proof {
                assert(fits(u1(x, sn as int, dn as int, i as int)));
                assert(fits(x[2 * i as int + 1] + u1(x, sn as int, dn as int, i as int) / 4));
                assert(data@[2 * a] as int == ap1(x, sn as int, dn as int, 2 * a));
                assert(data@[2 * b] as int == ap1(x, sn as int, dn as int, 2 * b));
                assert(data@[2 * i as int + 1] as int == x[2 * i as int + 1]);
            }
            let t = ss_i + ss_ip1 + 2;
            proof {
                lemma_quarter(t);
            }
            data[2 * i + 1] += t >> 2;
            i += 1;
        }
    }
}

/// Inverse 5-3 transform of `data`, in place.
pub fn dwt_decode_1_53(data: &mut [i32], sn: usize, dn: usize, cas: bool)
    requires
        dwt53_shape(old(data)@.len() as int, sn as int, dn as int, cas),
        dwt53_dec_ok(old(data)@, sn as int, dn as int, cas),
    ensures
        final(data)@.len() == old(data)@.len(),
        forall|k: int|
            0 <= k < old(data)@.len() ==> #[trigger] final(data)@[k] as int == dwt53_dec_at(
                old(data)@,
                sn as int,
                dn as int,
                cas,
                k,
            ),
{
    let ghost y = data@;
    let ghost len = y.len() as int;
    if !cas {
        if sn + dn <= 1 {
            return;
        }
        let mut i: usize = 0;
        while i < sn
            invariant
                y == old(data)@,
                data@.len() == len,
                i <= sn,
                sn + dn > 1,
                dwt53_shape(len, sn as int, dn as int, cas),
                !cas,
                dec0_ok(y, sn as int, dn as int),
                forall|k: int|
                    0 <= k < len ==> #[trigger] data@[k] as int == (if k % 2 == 0 && k / 2 < i {
                        aq0(y, sn as int, dn as int, k)
                    } else {
                        y[k] as int
                    }),
            decreases sn - i,
        {
            let a = if i > 0 { i - 1 } else { 0 };
            let b = if i < dn { i } else { dn - 1 };
            let dim1 = data[2 * a + 1];
            let di = data[2 * b + 1];
            proof {
                assert(fits(du0(y, dn as int, i as int)));
                assert(fits(du0(y, dn as int, i as int) - 2));
                assert(fits(y[2 * i as int] - du0(y, dn as int, i as int) / 4));
                assert(data@[2 * a + 1] == y[2 * a + 1]);
                assert(data@[2 * b + 1] == y[2 * b + 1]);
                assert(data@[2 * i as int] == y[2 * i as int]);
            }
            let t = dim1 + di + 2;
            proof {
                lemma_quarter(t);
            }
            data[2 * i] -= t >> 2;
            i += 1;
        }
        let mut i: usize = 0;
        while i < dn
            invariant
                y == old(data)@,
                data@.len() == len,
                i <= dn,
                sn + dn > 1,
                dwt53_shape(len, sn as int, dn as int, cas),
                !cas,
                dec0_ok(y, sn as int, dn as int),
                forall|k: int|
                    0 <= k < len ==> #[trigger] data@[k] as int == (if k % 2 == 1 && k / 2 < i {
                        dec0(y, sn as int, dn as int, k)
                    } else {
                        aq0(y, sn as int, dn as int, k)
                    }),
            decreases dn - i,
        {
            let j = if i + 1 < sn { i + 1 } else { sn - 1 };
            let si = data[2 * i];
            let si1 = data[2 * j];
            proof {
                assert(fits(dp0(y, sn as int, dn as int, i as int)));
                assert(fits(y[2 * i as int + 1] + dp0(y, sn as int, dn as int, i as int) / 2));
                assert(data@[2 * i as int] as int == aq0(y, sn as int, dn as int, 2 * i as int));
                assert(data@[2 * j as int] as int == aq0(y, sn as int, dn as int, 2 * j as int));
                assert(data@[2 * i as int + 1] == y[2 * i as int + 1]);
            }
            let sum = si + si1;
            proof {
                lemma_half(sum);
            }
            data[2 * i + 1] += sum >> 1;
            i += 1;
        }
    } else {
        if sn == 0 && dn == 1 {
            let v = data[0];
            data[0] = v / 2;
            return;
        }
        if sn + dn <= 1 {
            return;
        }
        let mut i: usize = 0;
        while i < sn
            invariant
                y == old(data)@,
                data@.len() == len,
                i <= sn,
                sn + dn > 1,
                !(sn == 0 && dn == 1),
                dwt53_shape(len, sn as int, dn as int, cas),
                cas,
                dec1_ok(y, sn as int, dn as int),
                forall|k: int|
                    0 <= k < len ==> #[trigger] data@[k] as int == (if k % 2 == 1 && k / 2 < i {
                        aq1(y, sn as int, dn as int, k)
                    } else {
                        y[k] as int
                    }),
            decreases sn - i,
        {
            let a = if i < dn { i } else { dn - 1 };
            let b = if i + 1 < dn { i + 1 } else { dn - 1 };
            let ss_i = data[2 * a];
            let ss_ip1 = data[2 * b];
            proof {
                assert(fits(du1(y, dn as int, i as int)));
                assert(fits(du1(y, dn as int, i as int) - 2));
                assert(fits(y[2 * i as int + 1] - du1(y, dn as int, i as int) / 4));
                assert(data@[2 * a] == y[2 * a]);
                assert(data@[2 * b] == y[2 * b]);
                assert(data@[2 * i as int + 1] == y[2 * i as int + 1]);
            }
            let t = ss_i + ss_ip1 + 2;
            proof {
                lemma_quarter(t);
            }
            data[2 * i + 1] -= t >> 2;
            i += 1;
        }
        let mut i: usize = 0;
        while i < dn
            invariant
                y == old(data)@,
                data@.len() == len,
                i <= dn,
                sn + dn > 1,
                !(sn == 0 && dn == 1),
                dwt53_shape(len, sn as int, dn as int, cas),
                cas,
                dec1_ok(y, sn as int, dn as int),
                forall|k: int|
                    0 <= k < len ==> #[trigger] data@[k] as int == (if k % 2 == 0 && k / 2 < i {
                        dec1(y, sn as int, dn as int, k)
                    } else {
                        aq1(y, sn as int, dn as int, k)
                    }),
            decreases dn - i,
        {
            let a = if i < sn { i } else { sn - 1 };
            let b = if i > 0 {
                if i - 1 < sn { i - 1 } else { sn - 1 }
            } else {
                0
            };
            let dd_i = data[2 * a + 1];
            let dd_im1 = data[2 * b + 1];
            proof {
                assert(fits(dp1(y, sn as int, dn as int, i as int)));
                assert(fits(y[2 * i as int] + dp1(y, sn as int, dn as int, i as int) / 2));
                assert(data@[2 * a + 1] as int == aq1(y, sn as int, dn as int, 2 * a + 1));
                assert(data@[2 * b + 1] as int == aq1(y, sn as int, dn as int, 2 * b + 1));
                assert(data@[2 * i as int] == y[2 * i as int]);
            }
            let sum = dd_i + dd_im1;
            proof {
                lemma_half(sum);
            }
            data[2 * i] += sum >> 1;
            i += 1;
        }
    }
}

/// The samples after the forward transform.
pub open spec fn dwt53_encoded(x: Seq<i32>, sn: int, dn: int, cas: bool) -> Seq<i32> {
    Seq::new(x.len(), |k: int| dwt53_enc_at(x, sn, dn, cas, k) as i32)
}

#[verifier::spinoff_prover]
proof fn lemma_roundtrip0(x: Seq<i32>, sn: int, dn: int)
    requires
        1 <= sn,
        1 <= dn,
        dwt53_shape(x.len() as int, sn, dn, false),
        enc0_ok(x, sn, dn),
    ensures
        forall|k: int| 0 <= k < x.len() ==> #[trigger] fits(dwt53_enc_at(x, sn, dn, false, k)),
        dec0_ok(dwt53_encoded(x, sn, dn, false), sn, dn),
        forall|k: int| 0 <= k < x.len() ==> #[trigger] dec0(dwt53_encoded(x, sn, dn, false), sn, dn, k) == x[k],
{
    let cas = false;
    let y = dwt53_encoded(x, sn, dn, cas);
    let len = x.len() as int;
    assert forall|k: int| 0 <= k < len implies #[trigger] fits(dwt53_enc_at(x, sn, dn, cas, k)) by {
        if k % 2 == 0 && k / 2 < sn {
            assert(fits(u0(x, sn, dn, k / 2)));
        } else if k % 2 == 1 && k / 2 < dn {
            assert(fits(p0(x, sn, k / 2)));
            assert(fits(pd0(x, sn, k / 2)));
        }
    }
    assert forall|j: int| 0 <= j < len && j % 2 == 1 implies #[trigger] y[j] as int == ap0(x, sn, dn, j) by {
        assert(fits(dwt53_enc_at(x, sn, dn, cas, j)));
    }
    assert forall|k: int| 0 <= k < len && k % 2 == 0 implies #[trigger] aq0(y, sn, dn, k) == x[k] by {
        assert(fits(dwt53_enc_at(x, sn, dn, cas, k)));
        if k / 2 < sn {
            let i = k / 2;
            assert(y[2 * before(i) + 1] as int == ap0(x, sn, dn, 2 * before(i) + 1));
            assert(y[2 * cl(i, dn) + 1] as int == ap0(x, sn, dn, 2 * cl(i, dn) + 1));
            assert(du0(y, dn, i) == u0(x, sn, dn, i));
        }
    }
    assert forall|i: int| 0 <= i < sn implies #[trigger] fits(du0(y, dn, i)) && fits(du0(y, dn, i) - 2) && fits(
        y[2 * i] - du0(y, dn, i) / 4,
    ) by {
        assert(y[2 * before(i) + 1] as int == ap0(x, sn, dn, 2 * before(i) + 1));
        assert(y[2 * cl(i, dn) + 1] as int == ap0(x, sn, dn, 2 * cl(i, dn) + 1));
        assert(fits(u0(x, sn, dn, i)));
        assert(aq0(y, sn, dn, 2 * i) == x[2 * i]);
    }
    assert forall|i: int| 0 <= i < dn implies #[trigger] dp0(y, sn, dn, i) == p0(x, sn, i) by {
        assert(aq0(y, sn, dn, 2 * i) == x[2 * i]);
        assert(aq0(y, sn, dn, 2 * cl(i + 1, sn)) == x[2 * cl(i + 1, sn)]);
    }
    assert forall|i: int| 0 <= i < dn implies #[trigger] fits(dp0(y, sn, dn, i)) && fits(
        y[2 * i + 1] + dp0(y, sn, dn, i) / 2,
    ) by {
        assert(dp0(y, sn, dn, i) == p0(x, sn, i));
        assert(fits(p0(x, sn, i)));
        assert(y[2 * i + 1] as int == ap0(x, sn, dn, 2 * i + 1));
    }
    assert forall|k: int| 0 <= k < len implies #[trigger] dec0(y, sn, dn, k) == x[k] by {
        if k % 2 == 1 {
            assert(y[k] as int == ap0(x, sn, dn, k));
            if k / 2 < dn {
                assert(dp0(y, sn, dn, k / 2) == p0(x, sn, k / 2));
            }
        } else {
            assert(aq0(y, sn, dn, k) == x[k]);
        }
    }
}

#[verifier::spinoff_prover]
proof fn lemma_roundtrip1(x: Seq<i32>, sn: int, dn: int)
    requires
        1 <= sn,
        1 <= dn,
        dwt53_shape(x.len() as int, sn, dn, true),
        enc1_ok(x, sn, dn),
    ensures
        forall|k: int| 0 <= k < x.len() ==> #[trigger] fits(dwt53_enc_at(x, sn, dn, true, k)),
        dec1_ok(dwt53_encoded(x, sn, dn, true), sn, dn),
        forall|k: int| 0 <= k < x.len() ==> #[trigger] dec1(dwt53_encoded(x, sn, dn, true), sn, dn, k) == x[k],
{
    let cas = true;
    let y = dwt53_encoded(x, sn, dn, cas);
    let len = x.len() as int;
    assert forall|k: int| 0 <= k < len implies #[trigger] fits(dwt53_enc_at(x, sn, dn, cas, k)) by {
        if k % 2 == 1 && k / 2 < sn {
            assert(fits(u1(x, sn, dn, k / 2)));
        } else if k % 2 == 0 && k / 2 < dn {
            assert(fits(p1(x, sn, k / 2)));
            assert(fits(pd1(x, sn, k / 2)));
        }
    }
    assert forall|j: int| 0 <= j < len && j % 2 == 0 implies #[trigger] y[j] as int == ap1(x, sn, dn, j) by {
        assert(fits(dwt53_enc_at(x, sn, dn, cas, j)));
    }
    assert forall|k: int| 0 <= k < len && k % 2 == 1 implies #[trigger] aq1(y, sn, dn, k) == x[k] by {
        assert(fits(dwt53_enc_at(x, sn, dn, cas, k)));
        if k / 2 < sn {
            let i = k / 2;
            assert(y[2 * cl(i, dn)] as int == ap1(x, sn, dn, 2 * cl(i, dn)));
            assert(y[2 * cl(i + 1, dn)] as int == ap1(x, sn, dn, 2 * cl(i + 1, dn)));
            assert(du1(y, dn, i) == u1(x, sn, dn, i));
        }
    }
    assert forall|i: int| 0 <= i < sn implies #[trigger] fits(du1(y, dn, i)) && fits(du1(y, dn, i) - 2) && fits(
        y[2 * i + 1] - du1(y, dn, i) / 4,
    ) by {
        assert(y[2 * cl(i, dn)] as int == ap1(x, sn, dn, 2 * cl(i, dn)));
        assert(y[2 * cl(i + 1, dn)] as int == ap1(x, sn, dn, 2 * cl(i + 1, dn)));
        assert(fits(u1(x, sn, dn, i)));
        assert(aq1(y, sn, dn, 2 * i + 1) == x[2 * i + 1]);
    }
    assert forall|i: int| 0 <= i < dn implies #[trigger] dp1(y, sn, dn, i) == p1(x, sn, i) by {
        assert(aq1(y, sn, dn, 2 * cl(i, sn) + 1) == x[2 * cl(i, sn) + 1]);
        assert(aq1(y, sn, dn, 2 * prev_cl(i, sn) + 1) == x[2 * prev_cl(i, sn) + 1]);
    }
    assert forall|i: int| 0 <= i < dn implies #[trigger] fits(dp1(y, sn, dn, i)) && fits(
        y[2 * i] + dp1(y, sn, dn, i) / 2,
    ) by {
        assert(dp1(y, sn, dn, i) == p1(x, sn, i));
        assert(fits(p1(x, sn, i)));
        assert(y[2 * i] as int == ap1(x, sn, dn, 2 * i));
    }
    assert forall|k: int| 0 <= k < len implies #[trigger] dec1(y, sn, dn, k) == x[k] by {
        if k % 2 == 0 {
            assert(y[k] as int == ap1(x, sn, dn, k));
            if k / 2 < dn {
                assert(dp1(y, sn, dn, k / 2) == p1(x, sn, k / 2));
            }
        } else {
            assert(aq1(y, sn, dn, k) == x[k]);
        }
    }
}

/// Perfect reconstruction: whenever the forward transform of `x` stays within `i32`, the
/// inverse transform of its result stays within `i32` too and gives back `x`.
pub proof fn lemma_dwt53_roundtrip(x: Seq<i32>, sn: int, dn: int, cas: bool)
    requires
        0 <= sn,
        0 <= dn,
        dwt53_shape(x.len() as int, sn, dn, cas),
        dwt53_enc_ok(x, sn, dn, cas),
    ensures
        forall|k: int| 0 <= k < x.len() ==> #[trigger] fits(dwt53_enc_at(x, sn, dn, cas, k)),
        dwt53_dec_ok(dwt53_encoded(x, sn, dn, cas), sn, dn, cas),
        forall|k: int|
            0 <= k < x.len() ==> #[trigger] dwt53_dec_at(dwt53_encoded(x, sn, dn, cas), sn, dn, cas, k) == x[k],
{
    let y = dwt53_encoded(x, sn, dn, cas);
    let len = x.len() as int;
    if !cas && sn + dn > 1 {
        lemma_roundtrip0(x, sn, dn);
    } else if cas && !(sn == 0 && dn == 1) && sn + dn > 1 {
        lemma_roundtrip1(x, sn, dn);
    } else {
        assert forall|k: int| 0 <= k < len implies #[trigger] fits(dwt53_enc_at(x, sn, dn, cas, k)) by {
            assert(fits(x[k] as int));
        }
        assert forall|k: int| 0 <= k < len implies #[trigger] dwt53_dec_at(y, sn, dn, cas, k) == x[k] by {
            assert(fits(x[k] as int));
        }
    }
}

} // verus!
