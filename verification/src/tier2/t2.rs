//! Packet header codes: comma codes, numbers of coding passes, segment set-up.
use vstd::prelude::*;
use vstd::arithmetic::power2::pow2;
use crate::error::{Error, Result};
use crate::io::bio::{
    Bio, wrote, value_bits, bits_value, write_model, lemma_write_model_append,
    lemma_value_bits_single, lemma_bits_value_single, lemma_bits_value_bound,
    lemma_bits_value_of_value_bits, lemma_unstuffed_len_mono,
};
use crate::tcd::{TcdSeg, empty_seg};
use crate::types::{J2K_CCP_CBLKSTY_LAZY, J2K_CCP_CBLKSTY_TERMALL};

verus! {

/// `n` one bits.
pub open spec fn ones(n: nat) -> Seq<bool> {
    Seq::new(n, |i: int| true)
}

/// The comma code of `n`: `n` ones and a zero.
pub open spec fn comma_bits(n: nat) -> Seq<bool> {
    ones(n).push(false)
}

/// The code of a number of coding passes.
pub open spec fn numpasses_bits(n: nat) -> Seq<bool> {
    if n == 1 {
        value_bits(0, 1)
    } else if n == 2 {
        value_bits(2, 2)
    } else if 3 <= n <= 5 {
        value_bits((0xc + n - 3) as u32, 4)
    } else if 6 <= n <= 36 {
        value_bits((0x1e0 + n - 6) as u32, 9)
    } else if 37 <= n <= 164 {
        value_bits((0xff80 + n - 37) as u32, 16)
    } else {
        Seq::empty()
    }
}

/// The number of coding passes coded at index `p` of `s`, with the number of bits of its
/// code, or `None` when `s` ends inside the code.
pub open spec fn numpasses_code(s: Seq<bool>, p: int) -> Option<(nat, nat)> {
    if p + 1 > s.len() {
        None
    } else if !s[p] {
        Some((1nat, 1nat))
    } else if p + 2 > s.len() {
        None
    } else if !s[p + 1] {
        Some((2nat, 2nat))
    } else if p + 4 > s.len() {
        None
    } else if bits_value(s.subrange(p + 2, p + 4)) != 3 {
        Some((3 + bits_value(s.subrange(p + 2, p + 4)), 4nat))
    } else if p + 9 > s.len() {
        None
    } else if bits_value(s.subrange(p + 4, p + 9)) != 31 {
        Some((6 + bits_value(s.subrange(p + 4, p + 9)), 9nat))
    } else if p + 16 > s.len() {
        None
    } else {
        Some((37 + bits_value(s.subrange(p + 9, p + 16)), 16nat))
    }
}

/// Writes `n` as a comma code: `n` ones followed by a zero.
pub fn t2_putcommacode(bio: &mut Bio, n: u32) -> (r: Result<()>)
    requires
        old(bio).enc_wf(),
    ensures
        final(final(bio).data)@ == final(old(bio).data)@,
        final(bio).data@.len() == old(bio).data@.len(),
        wrote(*old(bio), *final(bio), comma_bits(n as nat), r is Ok),
{
    let ghost s0 = *bio;
    let ghost len = bio.data@.len() as int;
    let mut k: u32 = 0;
    let mut failed = false;
    proof {
        assert(ones(0) =~= Seq::<bool>::empty());
        assert(s0.enc_bits() + ones(0) =~= s0.enc_bits());
    }
    while k < n && !failed
        invariant
            k <= n,
            final(bio.data)@ == final(s0.data)@,
            bio.data@.len() == len,
            len == s0.data@.len(),
            !failed ==> {
                &&& bio.enc_wf()
                &&& write_model(s0.model(), ones(k as nat), len) == Some(bio.model())
                &&& bio.enc_bits() == s0.enc_bits() + ones(k as nat)
            },
            failed ==> write_model(s0.model(), comma_bits(n as nat), len) is None,
        decreases n - k,
    {
        let r = bio.write(1, 1);
        proof {
            lemma_value_bits_single(1);
            lemma_write_model_append(s0.model(), ones(k as nat), seq![true], len);
            assert(ones(k as nat) + seq![true] =~= ones((k + 1) as nat));
        }
        if r.is_err() {
            proof {
                let rest = comma_bits(n as nat).skip(k + 1);
                lemma_write_model_append(s0.model(), ones((k + 1) as nat), rest, len);
                assert(ones((k + 1) as nat) + rest =~= comma_bits(n as nat));
            }
            failed = true;
        } else {
            proof {
                assert(bio.enc_bits() =~= s0.enc_bits() + ones((k + 1) as nat));
            }
        }
        k += 1;
    }
    if failed {
        return Err(Error::BufferTooSmall);
    }
    let r = bio.write(0, 1);
    proof {
        lemma_value_bits_single(0);
        lemma_write_model_append(s0.model(), ones(n as nat), seq![false], len);
        assert(ones(n as nat) + seq![false] =~= comma_bits(n as nat));
        assert(s0.enc_bits() + ones(n as nat) + seq![false] =~= s0.enc_bits() + comma_bits(n as nat));
    }
    r
}

/// Reads a comma code: counts the one bits before the first zero bit.
pub fn t2_getcommacode(bio: &mut Bio) -> (r: Result<u32>)
    requires
        old(bio).dec_wf(),
        old(bio).dec_stream().len() < u32::MAX,
    ensures
        final(final(bio).data)@ == final(old(bio).data)@,
        final(bio).data@ == old(bio).data@,
        match r {
            Ok(n) => {
                &&& final(bio).dec_wf()
                &&& old(bio).dec_pos() + n < old(bio).dec_stream().len()
                &&& old(bio).dec_stream().subrange(old(bio).dec_pos(), old(bio).dec_pos() + n + 1)
                    == comma_bits(n as nat)
                &&& final(bio).dec_pos() == old(bio).dec_pos() + n + 1
            },
            Err(_) => forall|i: int|
                old(bio).dec_pos() <= i < old(bio).dec_stream().len() ==> #[trigger] old(
                    bio,
                ).dec_stream()[i],
        },
{
    let ghost s0 = *bio;
    let ghost p0 = bio.dec_pos();
    let ghost st = bio.dec_stream();
    proof {
        lemma_unstuffed_len_mono(bio.data@, bio.pos as nat, bio.data@.len());
    }
    let mut n: u32 = 0;
    let mut done = false;
    let mut failed = false;
    while !done && !failed
        invariant
            final(bio.data)@ == final(s0.data)@,
            bio.data@ == s0.data@,
            st == bio.dec_stream(),
            st.len() < u32::MAX,
            0 <= p0,
            p0 + n <= st.len(),
            forall|i: int| p0 <= i < p0 + n ==> #[trigger] st[i],
            !failed ==> bio.dec_wf() && bio.dec_pos() == p0 + n + (if done { 1int } else { 0int }),
            done ==> !failed && p0 + n < st.len() && !st[p0 + n],
            failed ==> p0 + n == st.len(),
        decreases st.len() - p0 - n + (if done || failed { 0int } else { 1int }),
    {
        let b = bio.read(1);
        match b {
            Err(_) => {
                failed = true;
            },
            Ok(bit) => {
                proof {
                    lemma_bits_value_single(st.subrange(p0 + n, p0 + n + 1));
                }
                if bit == 0 {
                    done = true;
                } else {
                    n += 1;
                }
            },
        }
    }
    if failed {
        return Err(Error::EndOfStream);
    }
    proof {
        assert(st.subrange(p0, p0 + n + 1) =~= comma_bits(n as nat));
    }
    Ok(n)
}

/// Writes the code of a number of coding passes; writes nothing above 164.
pub fn t2_putnumpasses(bio: &mut Bio, n: u32) -> (r: Result<()>)
    requires
        old(bio).enc_wf(),
        n >= 1,
    ensures
        final(final(bio).data)@ == final(old(bio).data)@,
        final(bio).data@.len() == old(bio).data@.len(),
        wrote(*old(bio), *final(bio), numpasses_bits(n as nat), r is Ok),
{
    if n == 1 {
        bio.write(0, 1)
    } else if n == 2 {
        bio.write(2, 2)
    } else if n <= 5 {
        let m = n - 3;
        assert(0xc | m == 0xc + m) by (bit_vector)
            requires
                m <= 2,
        ;
        bio.write(0xc | (n - 3), 4)
    } else if n <= 36 {
        let m = n - 6;
        assert(0x1e0 | m == 0x1e0 + m) by (bit_vector)
            requires
                m <= 30,
        ;
        bio.write(0x1e0 | (n - 6), 9)
    } else if n <= 164 {
        let m = n - 37;
        assert(0xff80 | m == 0xff80 + m) by (bit_vector)
            requires
                m <= 127,
        ;
        bio.write(0xff80 | (n - 37), 16)
    } else {
        proof {
            assert(bio.enc_bits() + numpasses_bits(n as nat) =~= bio.enc_bits());
        }
        Ok(())
    }
}

/// Reads the code of a number of coding passes.
pub fn t2_getnumpasses(bio: &mut Bio) -> (r: Result<u32>)
    requires
        old(bio).dec_wf(),
    ensures
        final(final(bio).data)@ == final(old(bio).data)@,
        final(bio).data@ == old(bio).data@,
        match numpasses_code(old(bio).dec_stream(), old(bio).dec_pos()) {
            Some((v, c)) => {
                &&& r matches Ok(x) && x == v
                &&& final(bio).dec_wf()
                &&& final(bio).dec_pos() == old(bio).dec_pos() + c
            },
            None => r is Err,
        },
{
    let ghost st = bio.dec_stream();
    let ghost p0 = bio.dec_pos();
    proof {
        vstd::arithmetic::power2::lemma2_to64();
    }
    let b0 = bio.read(1)?;
    proof {
        lemma_bits_value_single(st.subrange(p0, p0 + 1));
    }
    if b0 == 0 {
        return Ok(1);
    }
    let b1 = bio.read(1)?;
    proof {
        lemma_bits_value_single(st.subrange(p0 + 1, p0 + 2));
    }
    if b1 == 0 {
        return Ok(2);
    }
    let n = bio.read(2)?;
    proof {
        lemma_bits_value_bound(st.subrange(p0 + 2, p0 + 4));
    }
    if n != 3 {
        return Ok(3 + n);
    }
    let n = bio.read(5)?;
    proof {
        lemma_bits_value_bound(st.subrange(p0 + 4, p0 + 9));
    }
    if n != 31 {
        return Ok(6 + n);
    }
    let n = bio.read(7)?;
    proof {
        lemma_bits_value_bound(st.subrange(p0 + 9, p0 + 16));
    }
    Ok(37 + n)
}

/// Clears segment `index` of `segs`, first growing `segs` with empty segments up to it,
/// and sets the number of passes it may hold from the code-block style: one with
/// termination on each pass; with the arithmetic-coding bypass, 10 for the first segment,
/// then 2 after a segment of 1 or 10 and 1 otherwise; 109 by default.
pub fn t2_init_seg(segs: &mut Vec<TcdSeg>, index: usize, cblksty: u32, first: bool)
    requires
        index < usize::MAX,
    ensures
        final(segs)@.len() == (if old(segs)@.len() > index { old(segs)@.len() as int } else { index + 1 }),
        forall|i: int| 0 <= i < old(segs)@.len() && i != index ==> #[trigger] final(segs)@[i] == old(segs)@[i],
        forall|i: int| old(segs)@.len() <= i < index ==> #[trigger] final(segs)@[i] == empty_seg(),
        final(segs)@[index as int] == (TcdSeg {
            maxpasses: seg_maxpasses(
                cblksty,
                first,
                if index == 0 {
                    0u32
                } else if index - 1 < old(segs)@.len() {
                    old(segs)@[index - 1].maxpasses
                } else {
                    0u32
                },
            ),
            ..empty_seg()
        }),
{
    let ghost s0 = segs@;
    while segs.len() <= index
        invariant
            index < usize::MAX,
            segs@.len() >= s0.len(),
            segs@.len() <= (if s0.len() > index { s0.len() as int } else { index + 1 }),
            forall|i: int| 0 <= i < s0.len() ==> #[trigger] segs@[i] == s0[i],
            forall|i: int| s0.len() <= i < segs@.len() ==> #[trigger] segs@[i] == empty_seg(),
        decreases index + 1 - segs@.len(),
    {
        segs.push(TcdSeg::default());
    }
    let prev_maxpasses = if index > 0 && index <= segs.len() {
        segs[index - 1].maxpasses
    } else {
        0
    };
    let maxpasses = if (cblksty & J2K_CCP_CBLKSTY_TERMALL) != 0 {
        1
    } else if (cblksty & J2K_CCP_CBLKSTY_LAZY) != 0 {
        if first {
            10
        } else if prev_maxpasses == 1 || prev_maxpasses == 10 {
            2
        } else {
            1
        }
    } else {
        109
    };
    segs.set(
        index,
        TcdSeg { len: 0, numpasses: 0, real_num_passes: 0, maxpasses, numnewpasses: 0, newlen: 0 },
    );
}

/// The number of passes a new segment may hold.
pub open spec fn seg_maxpasses(cblksty: u32, first: bool, prev: u32) -> u32 {
    if cblksty & J2K_CCP_CBLKSTY_TERMALL != 0 {
        1
    } else if cblksty & J2K_CCP_CBLKSTY_LAZY != 0 {
        if first {
            10
        } else if prev == 1 || prev == 10 {
            2
        } else {
            1
        }
    } else {
        109
    }
}

/// Number of bits of the length indicator added for `numpasses` passes.
pub fn t2_getpassbits(numpasses: u32) -> (r: u32)
    ensures
        r == (if numpasses < 2 {
            1u32
        } else if numpasses < 6 {
            2u32
        } else if numpasses < 37 {
            4u32
        } else if numpasses < 165 {
            6u32
        } else {
            8u32
        }),
{
    if numpasses < 2 {
        1
    } else if numpasses < 6 {
        2
    } else if numpasses < 37 {
        4
    } else if numpasses < 165 {
        6
    } else {
        8
    }
}

/// A run of code bits taken out of the `k` low bits of `v` is itself the low bits of `v`
/// shifted right.
pub proof fn lemma_value_bits_subrange(v: u32, k: nat, a: nat, c: nat)
    requires
        a <= c <= k <= 32,
    ensures
        value_bits(v, k).subrange(a as int, c as int) == value_bits(v >> ((k - c) as u32), (c - a) as nat),
{
    let x = (k - c) as u32;
    assert forall|i: int| 0 <= i < c - a implies #[trigger] value_bits(v, k).subrange(a as int, c as int)[i]
        == value_bits(v >> x, (c - a) as nat)[i] by {
        let y = (c - a - 1 - i) as u32;
        let z = (k - 1 - a - i) as u32;
        assert((v >> z) & 1u32 == ((v >> x) >> y) & 1u32) by (bit_vector)
            requires
                z == x + y,
                z < 32,
        ;
    }
    assert(value_bits(v, k).subrange(a as int, c as int) =~= value_bits(v >> x, (c - a) as nat));
}

/// The comma code is a prefix code: a reader that finds `m` ones and a zero at the front
/// of `comma_bits(n)` followed by anything has found `n`.
pub proof fn lemma_comma_code_unique(n: nat, m: nat, rest: Seq<bool>)
    requires
        m + 1 <= (comma_bits(n) + rest).len(),
        (comma_bits(n) + rest).subrange(0, m + 1int) == comma_bits(m),
    ensures
        m == n,
{
    let s = comma_bits(n) + rest;
    if m < n {
        assert(s.subrange(0, m + 1int)[m as int] == s[m as int]);
    } else if m > n {
        assert(s.subrange(0, m + 1int)[n as int] == s[n as int]);
    }
}

/// Reading back the code of a number of coding passes gives that number, whatever follows.
pub proof fn lemma_numpasses_roundtrip(n: nat, rest: Seq<bool>)
    requires
        1 <= n <= 164,
    ensures
        numpasses_code(numpasses_bits(n) + rest, 0) == Some((n, numpasses_bits(n).len())),
{
    vstd::arithmetic::power2::lemma2_to64();
    let b = numpasses_bits(n);
    let s = b + rest;
    assert forall|a: int, c: int| 0 <= a <= c <= b.len() implies #[trigger] s.subrange(a, c) == b.subrange(a, c) by {
        assert(s.subrange(a, c) =~= b.subrange(a, c));
    }
    if n == 1 {
        assert(((0u32 >> 0u32) & 1u32) == 0u32) by (bit_vector);
    } else if n == 2 {
        assert(((2u32 >> 1u32) & 1u32) == 1u32 && ((2u32 >> 0u32) & 1u32) == 0u32) by (bit_vector);
    } else if n <= 5 {
        let v = (0xc + n - 3) as u32;
        assert((v >> 3u32) & 1u32 == 1u32 && (v >> 2u32) & 1u32 == 1u32 && v >> 0u32 == v) by (bit_vector)
            requires
                12 <= v <= 14,
        ;
        lemma_value_bits_subrange(v, 4, 2, 4);
        lemma_bits_value_of_value_bits(v, 2);
        assert(s[0] == b[0] && s[1] == b[1]);
    } else if n <= 36 {
        let v = (0x1e0 + n - 6) as u32;
        assert((v >> 8u32) & 1u32 == 1u32 && (v >> 7u32) & 1u32 == 1u32 && (v >> 5u32) % 4 == 3 && v >> 0u32 == v)
            by (bit_vector)
            requires
                0x1e0 <= v <= 0x1fe,
        ;
        lemma_value_bits_subrange(v, 9, 2, 4);
        lemma_bits_value_of_value_bits(v >> 5u32, 2);
        lemma_value_bits_subrange(v, 9, 4, 9);
        lemma_bits_value_of_value_bits(v, 5);
        assert(s[0] == b[0] && s[1] == b[1]);
    } else {
        let v = (0xff80 + n - 37) as u32;
        assert((v >> 15u32) & 1u32 == 1u32 && (v >> 14u32) & 1u32 == 1u32 && (v >> 12u32) % 4 == 3 && (v >> 7u32)
            % 32 == 31 && v >> 0u32 == v) by (bit_vector)
            requires
                0xff80 <= v <= 0xffff,
        ;
        lemma_value_bits_subrange(v, 16, 2, 4);
        lemma_bits_value_of_value_bits(v >> 12u32, 2);
        lemma_value_bits_subrange(v, 16, 4, 9);
        lemma_bits_value_of_value_bits(v >> 7u32, 5);
        lemma_value_bits_subrange(v, 16, 9, 16);
        lemma_bits_value_of_value_bits(v, 7);
        assert(s[0] == b[0] && s[1] == b[1]);
    }
}

} // verus!
