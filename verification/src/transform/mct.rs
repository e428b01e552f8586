//! The reversible multi-component (colour) transform.
use vstd::prelude::*;
use crate::arith::lemma_i32_shr_floor;
use crate::transform::dwt::fits;

verus! {

/// Luma of the reversible transform: `(r + 2g + b) / 4`, rounded down.
pub open spec fn rct_y(r: int, g: int, b: int) -> int {
    (r + 2 * g + b) / 4
}

/// The forward transform of `(r, g, b)` stays within `i32` at each step.
pub open spec fn rct_enc_ok(r: int, g: int, b: int) -> bool {
    fits(2 * g) && fits(r + 2 * g) && fits(r + 2 * g + b) && fits(b - g) && fits(r - g)
}

/// Green of the inverse transform of `(y, u, v)`: `y - (u + v) / 4`, rounded down.
pub open spec fn rct_g(y: int, u: int, v: int) -> int {
    y - (u + v) / 4
}

/// The inverse transform of `(y, u, v)` stays within `i32` at each step.
pub open spec fn rct_dec_ok(y: int, u: int, v: int) -> bool {
    fits(u + v) && fits(rct_g(y, u, v)) && fits(v + rct_g(y, u, v)) && fits(u + rct_g(y, u, v))
}

/// Forward reversible colour transform of three components of equal length, in place:
/// `(r, g, b)` becomes `((r + 2g + b) >> 2, b - g, r - g)`.
pub fn mct_encode(c0: &mut [i32], c1: &mut [i32], c2: &mut [i32])
    requires
        old(c0)@.len() == old(c1)@.len(),
        old(c1)@.len() == old(c2)@.len(),
        forall|i: int|
            0 <= i < old(c0)@.len() ==> #[trigger] rct_enc_ok(
                old(c0)@[i] as int,
                old(c1)@[i] as int,
                old(c2)@[i] as int,
            ),
    ensures
        final(c0)@.len() == old(c0)@.len(),
        final(c1)@.len() == old(c1)@.len(),
        final(c2)@.len() == old(c2)@.len(),
        forall|i: int|
            0 <= i < old(c0)@.len() ==> {
                &&& #[trigger] final(c0)@[i] as int == rct_y(old(c0)@[i] as int, old(c1)@[i] as int, old(c2)@[i] as int)
                &&& final(c1)@[i] as int == old(c2)@[i] - old(c1)@[i]
                &&& final(c2)@[i] as int == old(c0)@[i] - old(c1)@[i]
            },
{
    let n = c0.len();
    let mut i: usize = 0;
    while i < n
        invariant
            n == c0@.len() && n == c1@.len() && n == c2@.len(),
            n == old(c0)@.len(),
            i <= n,
            forall|j: int| 0 <= j < n ==> #[trigger] rct_enc_ok(old(c0)@[j] as int, old(c1)@[j] as int, old(c2)@[j] as int),
            forall|j: int| i <= j < n ==> #[trigger] c0@[j] == old(c0)@[j],
            forall|j: int| i <= j < n ==> #[trigger] c1@[j] == old(c1)@[j],
            forall|j: int| i <= j < n ==> #[trigger] c2@[j] == old(c2)@[j],
            forall|j: int|
                0 <= j < i ==> #[trigger] c0@[j] as int == rct_y(old(c0)@[j] as int, old(c1)@[j] as int, old(c2)@[j] as int),
            forall|j: int| 0 <= j < i ==> #[trigger] c1@[j] as int == old(c2)@[j] - old(c1)@[j],
            forall|j: int| 0 <= j < i ==> #[trigger] c2@[j] as int == old(c0)@[j] - old(c1)@[j],
        decreases n - i,
    {
        proof {
            assert(c0@[i as int] == old(c0)@[i as int]);
            assert(c1@[i as int] == old(c1)@[i as int]);
            assert(c2@[i as int] == old(c2)@[i as int]);
            assert(rct_enc_ok(old(c0)@[i as int] as int, old(c1)@[i as int] as int, old(c2)@[i as int] as int));
        }
        let r = c0[i];
        let g = c1[i];
        let b = c2[i];
        let t = r + (g * 2) + b;
        proof {
            lemma_i32_shr_floor(t, 2);
            vstd::arithmetic::power2::lemma2_to64();
        }
        c0[i] = t >> 2;
        c1[i] = b - g;
        c2[i] = r - g;
        i += 1;
    }
}

/// Inverse reversible colour transform of three components of equal length, in place:
/// `(y, u, v)` becomes `(v + g, g, u + g)` with `g = y - ((u + v) >> 2)`.
pub fn mct_decode(c0: &mut [i32], c1: &mut [i32], c2: &mut [i32])
    requires
        old(c0)@.len() == old(c1)@.len(),
        old(c1)@.len() == old(c2)@.len(),
        forall|i: int|
            0 <= i < old(c0)@.len() ==> #[trigger] rct_dec_ok(
                old(c0)@[i] as int,
                old(c1)@[i] as int,
                old(c2)@[i] as int,
            ),
    ensures
        final(c0)@.len() == old(c0)@.len(),
        final(c1)@.len() == old(c1)@.len(),
        final(c2)@.len() == old(c2)@.len(),
        forall|i: int|
            0 <= i < old(c0)@.len() ==> {
                let g = rct_g(old(c0)@[i] as int, old(c1)@[i] as int, old(c2)@[i] as int);
                &&& #[trigger] final(c1)@[i] as int == g
                &&& final(c0)@[i] as int == old(c2)@[i] + g
                &&& final(c2)@[i] as int == old(c1)@[i] + g
            },
{
    let n = c0.len();
    let mut i: usize = 0;
    while i < n
        invariant
            n == c0@.len() && n == c1@.len() && n == c2@.len(),
            n == old(c0)@.len(),
            i <= n,
            forall|j: int| 0 <= j < n ==> #[trigger] rct_dec_ok(old(c0)@[j] as int, old(c1)@[j] as int, old(c2)@[j] as int),
            forall|j: int| i <= j < n ==> #[trigger] c0@[j] == old(c0)@[j],
            forall|j: int| i <= j < n ==> #[trigger] c1@[j] == old(c1)@[j],
            forall|j: int| i <= j < n ==> #[trigger] c2@[j] == old(c2)@[j],
            forall|j: int|
                0 <= j < i ==> #[trigger] c1@[j] as int == rct_g(old(c0)@[j] as int, old(c1)@[j] as int, old(c2)@[j] as int),
            forall|j: int|
                0 <= j < i ==> #[trigger] c0@[j] as int == old(c2)@[j] + rct_g(old(c0)@[j] as int, old(c1)@[j] as int, old(c2)@[j] as int),
            forall|j: int|
                0 <= j < i ==> #[trigger] c2@[j] as int == old(c1)@[j] + rct_g(old(c0)@[j] as int, old(c1)@[j] as int, old(c2)@[j] as int),
        decreases n - i,
    {
        proof {
            assert(c0@[i as int] == old(c0)@[i as int]);
            assert(c1@[i as int] == old(c1)@[i as int]);
            assert(c2@[i as int] == old(c2)@[i as int]);
            assert(rct_dec_ok(old(c0)@[i as int] as int, old(c1)@[i as int] as int, old(c2)@[i as int] as int));
        }
        let y = c0[i];
        let u = c1[i];
        let v = c2[i];
        let s = u + v;
        proof {
            lemma_i32_shr_floor(s, 2);
            vstd::arithmetic::power2::lemma2_to64();
        }
        let g = y - (s >> 2);
        c0[i] = v + g;
        c1[i] = g;
        c2[i] = u + g;
        i += 1;
    }
}

/// The inverse transform undoes the forward one, wherever neither leaves `i32`.
pub proof fn lemma_rct_roundtrip(r: int, g: int, b: int)
    ensures
        rct_g(rct_y(r, g, b), b - g, r - g) == g,
        (r - g) + rct_g(rct_y(r, g, b), b - g, r - g) == r,
        (b - g) + rct_g(rct_y(r, g, b), b - g, r - g) == b,
{
    let t = r + b - 2 * g;
    vstd::arithmetic::div_mod::lemma_hoist_over_denominator(t, g, 4);
    assert(t + g * 4 == r + 2 * g + b);
    assert(b - g + (r - g) == t);
}

} // verus!
