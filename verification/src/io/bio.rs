//! Bit-level packet header I/O with JPEG 2000 bit stuffing: after a 0xFF byte the next
//! byte carries only 7 payload bits, its most significant bit being zero.
use vstd::prelude::*;
use vstd::arithmetic::power2::pow2;
use crate::error::{Error, Result};
use crate::bits::{lemma_low_masks, lemma_shift_byte_up};

verus! {

/// Number of payload bits in byte `k` of a stuffed stream: 7 after a 0xFF byte, 8 otherwise.
pub open spec fn byte_width(data: Seq<u8>, k: int) -> nat {
    if k > 0 && data[k - 1] == 0xff { 7 } else { 8 }
}

/// The first `w - ct` of the `w` low bits of `x`, most significant first.
pub open spec fn cur_bits(x: u32, w: nat, ct: nat) -> Seq<bool> {
    Seq::new((w - ct) as nat, |i: int| (x >> ((w - 1 - i) as u32)) & 1u32 == 1u32)
}

/// The `w` payload bits of byte `b`, most significant first.
pub open spec fn byte_bits(b: u8, w: nat) -> Seq<bool> {
    cur_bits(b as u32, w, 0)
}

/// The payload bits of the first `n` bytes of a stuffed stream.
pub open spec fn unstuffed(data: Seq<u8>, n: nat) -> Seq<bool>
    decreases n,
{
    if n == 0 {
        Seq::empty()
    } else {
        unstuffed(data, (n - 1) as nat) + byte_bits(data[n - 1], byte_width(data, n - 1))
    }
}

/// The `n` low bits of `v`, most significant first.
pub open spec fn value_bits(v: u32, n: nat) -> Seq<bool> {
    Seq::new(n, |i: int| (v >> ((n - 1 - i) as u32)) & 1u32 == 1u32)
}

/// The number whose binary digits, most significant first, are `s`.
pub open spec fn bits_value(s: Seq<bool>) -> nat
    decreases s.len(),
{
    if s.len() == 0 {
        0
    } else {
        2 * bits_value(s.drop_last()) + (if s.last() { 1nat } else { 0nat })
    }
}

/// Bit-level encoder/decoder over a byte buffer.
///
/// `buf` holds the previous byte in its high half and the current byte in its low half;
/// `ct` counts the bits still free (encoder) or still unread (decoder) in the current byte.
pub struct Bio<'a> {
    pub data: &'a mut [u8],
    pub pos: usize,
    pub buf: u32,
    pub ct: u32,
}

/// Writer state `(pos, buf, ct)` after putting bit `b`, with an unbounded buffer.
pub open spec fn put_model(m: (int, int, int), b: bool) -> (int, int, int) {
    let (pos1, buf1, ct1) = if m.2 == 0 {
        let nb = (m.1 % 256) * 256;
        (m.0 + 1, nb, if nb == 0xff00 { 7int } else { 8int })
    } else {
        m
    };
    (pos1, buf1 + (if b { pow2((ct1 - 1) as nat) as int } else { 0int }), ct1 - 1)
}

/// Writer state after putting `bits` into a buffer of `len` bytes, or `None` when it runs out.
pub open spec fn write_model(m: (int, int, int), bits: Seq<bool>, len: int) -> Option<(int, int, int)>
    decreases bits.len(),
{
    if bits.len() == 0 {
        Some(m)
    } else {
        match write_model(m, bits.drop_last(), len) {
            None => None,
            Some(m1) => if m1.2 == 0 && m1.0 >= len {
                None
            } else {
                Some(put_model(m1, bits.last()))
            },
        }
    }
}

impl<'a> Bio<'a> {
    /// The writer's state as a triple.
    pub open spec fn model(&self) -> (int, int, int) {
        (self.pos as int, self.buf as int, self.ct as int)
    }

    /// The width of the current byte.
    pub open spec fn cur_width(&self) -> nat {
        if self.buf / 256 == 0xff { 7 } else { 8 }
    }

    /// Well-formed writer state.
    pub open spec fn enc_wf(&self) -> bool {
        &&& self.buf < 0x10000
        &&& self.pos <= self.data@.len()
        &&& self.buf / 256 == (if self.pos == 0 { 0 } else { self.data@[self.pos - 1] as int })
        &&& self.ct <= self.cur_width()
        &&& ((self.buf as int) % 256) % (pow2(self.ct as nat) as int) == 0
        &&& (self.cur_width() == 7 ==> self.buf % 256 < 128)
    }

    /// All bits written so far: those in complete bytes, then those in the current byte.
    pub open spec fn enc_bits(&self) -> Seq<bool> {
        unstuffed(self.data@, self.pos as nat) + cur_bits(
            (self.buf % 256) as u32,
            self.cur_width(),
            self.ct as nat,
        )
    }

    /// Well-formed reader state.
    pub open spec fn dec_wf(&self) -> bool {
        &&& self.buf < 0x10000
        &&& self.pos <= self.data@.len()
        &&& self.buf % 256 == (if self.pos == 0 { 0 } else { self.data@[self.pos - 1] as int })
        &&& self.buf / 256 == (if self.pos <= 1 { 0 } else { self.data@[self.pos - 2] as int })
        &&& self.ct <= (if self.pos == 0 { 0 } else { byte_width(self.data@, self.pos - 1) })
    }

    /// All payload bits of the buffer.
    pub open spec fn dec_stream(&self) -> Seq<bool> {
        unstuffed(self.data@, self.data@.len())
    }

    /// Index in `dec_stream` of the next bit to read.
    pub open spec fn dec_pos(&self) -> int {
        unstuffed(self.data@, self.pos as nat).len() - self.ct
    }

    /// Creates an encoder writing from the start of `buf`.
    pub fn encoder(buf: &'a mut [u8]) -> (r: Self)
        ensures
            r.data@ == old(buf)@,
            final(buf)@ == final(r.data)@,
            r.pos == 0 && r.buf == 0 && r.ct == 8,
            r.enc_wf(),
            r.enc_bits() == Seq::<bool>::empty(),
    {
        let r = Bio { data: buf, pos: 0, buf: 0, ct: 8 };
        proof {
            vstd::arithmetic::power2::lemma2_to64();
        }
        r
    }

    /// Creates a decoder reading from the start of `buf`.
    pub fn decoder(buf: &'a mut [u8]) -> (r: Self)
        ensures
            r.data@ == old(buf)@,
            final(buf)@ == final(r.data)@,
            r.pos == 0 && r.buf == 0 && r.ct == 0,
            r.dec_wf(),
            r.dec_pos() == 0,
    {
        Bio { data: buf, pos: 0, buf: 0, ct: 0 }
    }

    /// Number of bytes of the buffer.
    pub open spec fn capacity(&self) -> nat {
        self.data@.len()
    }

    /// Whether a reader has a bit left to read.
    pub fn bit_available(&self) -> (r: bool)
        requires
            self.dec_wf(),
        ensures
            r <==> self.dec_pos() < self.dec_stream().len(),
    {
        proof {
            lemma_unstuffed_len_mono(self.data@, self.pos as nat, self.data@.len());
        }
        self.ct > 0 || self.pos < self.data.len()
    }

    /// Whether a writer has room for one more bit.
    pub open spec fn can_put(&self) -> bool {
        !(self.ct == 0 && self.pos >= self.capacity())
    }

    /// Whether a writer has room for one more bit.
    pub fn has_room(&self) -> (r: bool)
        requires
            self.enc_wf(),
        ensures
            r == self.can_put(),
    {
        self.ct > 0 || self.pos < self.data.len()
    }

    /// Number of bytes written or read so far.
    pub fn num_bytes(&self) -> (r: usize)
        ensures
            r == self.pos,
    {
        self.pos
    }

    /// Moves the current byte out to the buffer.
    fn byte_out(&mut self) -> (r: Result<()>)
        requires
            old(self).enc_wf(),
        ensures
            final(final(self).data)@ == final(old(self).data)@,
            final(self).data@.len() == old(self).data@.len(),
            r is Ok <==> old(self).pos < old(self).data@.len(),
            !(r is Ok) ==> r matches Err(Error::BufferTooSmall),
            r is Ok ==> {
                &&& final(self).enc_wf()
                &&& final(self).pos == old(self).pos + 1
                &&& final(self).model() == ({
                    let nb = (old(self).buf % 256) * 256;
                    (old(self).pos + 1, nb, if nb == 0xff00 { 7int } else { 8int })
                })
                &&& final(self).data@[old(self).pos as int] == old(self).buf % 256
                &&& final(self).enc_bits() == unstuffed(old(self).data@, old(self).pos as nat)
                    + cur_bits((old(self).buf % 256) as u32, old(self).cur_width(), 0)
                &&& final(self).data@.take(old(self).pos as int) == old(self).data@.take(
                    old(self).pos as int,
                )
            },
    {
        let ghost old_data = self.data@;
        let ghost low = self.buf % 256;
        let ghost w = self.cur_width();
        let b = self.buf;
        proof {
            lemma_shift_byte_up(b);
        }
        self.buf = (self.buf << 8) & 0xffff;
        self.ct = if self.buf == 0xff00 { 7 } else { 8 };
        if self.pos >= self.data.len() {
            return Err(Error::BufferTooSmall);
        }
        let nb = self.buf;
        assert(nb >> 8 == nb / 256) by (bit_vector)
            requires
                nb < 0x10000,
        ;
        self.data[self.pos] = (self.buf >> 8) as u8;
        self.pos += 1;
        proof {
            vstd::arithmetic::power2::lemma2_to64();
            assert(self.data@.take(self.pos - 1) =~= old_data.take(self.pos - 1));
            lemma_unstuffed_take(old_data, self.data@, (self.pos - 1) as nat);
            assert(byte_width(self.data@, self.pos - 1) == w);
            assert(cur_bits(low as u32, w, 0) == byte_bits(self.data@[self.pos - 1], w));
            assert(cur_bits(0u32, self.cur_width(), self.ct as nat) =~= Seq::<bool>::empty());
            assert(unstuffed(self.data@, self.pos as nat) =~= unstuffed(old_data, (self.pos - 1) as nat)
                + cur_bits(low as u32, w, 0));
        }
        Ok(())
    }

    /// Writes one bit.
    pub(crate) fn put_bit(&mut self, b: u32) -> (r: Result<()>)
        requires
            old(self).enc_wf(),
            b <= 1,
        ensures
            final(final(self).data)@ == final(old(self).data)@,
            final(self).data@.len() == old(self).data@.len(),
            r is Ok <==> !(old(self).ct == 0 && old(self).pos >= old(self).data@.len()),
            r is Ok ==> {
                &&& final(self).enc_wf()
                &&& final(self).model() == put_model(old(self).model(), b == 1)
                &&& final(self).enc_bits() == old(self).enc_bits().push(b == 1)
                &&& final(self).data@.take(old(self).pos as int) == old(self).data@.take(
                    old(self).pos as int,
                )
                &&& final(self).data@.len() == old(self).data@.len()
            },
    {
        let ghost s0 = *self;
        if self.ct == 0 {
            self.byte_out()?;
            proof {
                assert(cur_bits((s0.buf % 256) as u32, s0.cur_width(), 0) =~= cur_bits(
                    (s0.buf % 256) as u32,
                    s0.cur_width(),
                    s0.ct as nat,
                ));
            }
        }
        let ghost s1 = *self;
        self.ct -= 1;
        let c = self.ct;
        let x = self.buf;
        proof {
            vstd::arithmetic::power2::lemma2_to64();
            lemma_put_bit_bits(x, c, b);
        }
        self.buf |= b << self.ct;
        proof {
            let w = s1.cur_width();
            assert(self.buf / 256 == s1.buf / 256);
            assert(self.cur_width() == w);
            assert(cur_bits((self.buf % 256) as u32, w, self.ct as nat) =~= cur_bits(
                (s1.buf % 256) as u32,
                w,
                s1.ct as nat,
            ).push(b == 1));
        }
        Ok(())
    }

    /// Writes the `n` low bits of `v`, most significant first.
    pub fn write(&mut self, v: u32, n: u32) -> (r: Result<()>)
        requires
            old(self).enc_wf(),
            0 < n <= 32,
        ensures
            final(final(self).data)@ == final(old(self).data)@,
            final(self).data@.len() == old(self).data@.len(),
            match write_model(old(self).model(), value_bits(v, n as nat), old(self).data@.len() as int) {
                Some(m) => {
                    &&& r is Ok
                    &&& final(self).enc_wf()
                    &&& final(self).model() == m
                    &&& final(self).enc_bits() == old(self).enc_bits() + value_bits(v, n as nat)
                    &&& final(self).data@.take(old(self).pos as int) == old(self).data@.take(
                        old(self).pos as int,
                    )
                },
                None => r is Err,
            },
    {
        let ghost s0 = *self;
        let ghost len = self.data@.len() as int;
        let mut i: u32 = n;
        let mut failed = false;
        while i > 0 && !failed
            invariant
                i <= n <= 32,
                final(self.data)@ == final(s0.data)@,
                self.data@.len() == len,
                !failed ==> {
                    &&& self.enc_wf()
                    &&& write_model(s0.model(), value_bits(v, n as nat).take((n - i) as int), len)
                        == Some(self.model())
                    &&& self.enc_bits() == s0.enc_bits() + value_bits(v, n as nat).take(
                        (n - i) as int,
                    )
                    &&& self.data@.take(s0.pos as int) == s0.data@.take(s0.pos as int)
                    &&& s0.pos <= self.pos
                },
                failed ==> write_model(s0.model(), value_bits(v, n as nat), len) is None,
            decreases i,
        {
            let ghost prev = *self;
            let ghost k = (n - i) as int;
            i -= 1;
            let bit = (v >> i) & 1;
            proof {
                lemma_low_masks(v >> i);
            }
            let ghost vb = value_bits(v, n as nat);
            assert(vb.take(k + 1).drop_last() =~= vb.take(k));
            assert(vb[k] == (bit == 1));
            let r = self.put_bit(bit);
            if r.is_err() {
                proof {
                    lemma_write_model_none(s0.model(), vb, k + 1, len);
                }
                failed = true;
            } else {
                proof {
                    assert(self.data@.take(s0.pos as int) =~= prev.data@.take(prev.pos as int).take(
                        s0.pos as int,
                    ));
                    assert(s0.data@.take(s0.pos as int) =~= prev.data@.take(s0.pos as int));
                    assert(self.enc_bits() =~= s0.enc_bits() + vb.take(k + 1));
                }
            }
        }
        if failed {
            return Err(Error::BufferTooSmall);
        }
        assert(value_bits(v, n as nat).take(n as int) =~= value_bits(v, n as nat));
        Ok(())
    }

    /// Flushes the current byte; a byte following 0xFF is flushed too, so the output
    /// never ends with 0xFF.
    pub fn flush(&mut self) -> (r: Result<()>)
        requires
            old(self).enc_wf(),
        ensures
            final(final(self).data)@ == final(old(self).data)@,
            final(self).data@.len() == old(self).data@.len(),
            r is Ok <==> old(self).pos + (if old(self).buf % 256 == 0xff { 2int } else { 1int })
                <= old(self).data@.len(),
            !(r is Ok) ==> r matches Err(Error::BufferTooSmall),
            r is Ok ==> {
                &&& final(self).enc_wf()
                &&& final(self).data@.take(old(self).pos as int) == old(self).data@.take(
                    old(self).pos as int,
                )
                &&& final(self).data@[old(self).pos as int] == old(self).buf % 256
                &&& final(self).pos == old(self).pos + (if old(self).buf % 256 == 0xff {
                    2int
                } else {
                    1int
                })
                &&& old(self).buf % 256 == 0xff ==> final(self).data@[old(self).pos + 1] == 0
                &&& unstuffed(final(self).data@, final(self).pos as nat).len() >= old(
                    self,
                ).enc_bits().len()
                &&& unstuffed(final(self).data@, final(self).pos as nat).take(
                    old(self).enc_bits().len() as int,
                ) == old(self).enc_bits()
            },
    {
        let ghost s0 = *self;
        proof {
            lemma_pad_current_byte(s0.buf, s0.cur_width(), s0.ct as nat);
        }
        let ghost s_pad = Bio { data: s0.data, pos: s0.pos, buf: s0.buf, ct: 0 };
        self.ct = 0;
        assert(self.enc_wf()) by {
            vstd::arithmetic::power2::lemma2_to64();
        }
        self.byte_out()?;
        let ghost s1 = *self;
        if self.ct == 7 {
            proof {
                assert(s1.buf == 0xff00);
                assert(s1.enc_bits() =~= unstuffed(s1.data@, s1.pos as nat));
            }
            self.byte_out()?;
            proof {
                assert(self.data@[s0.pos as int] == self.data@.take(s1.pos as int)[s0.pos as int]);
                assert(s1.data@[s0.pos as int] == s1.data@.take(s1.pos as int)[s0.pos as int]);
                assert(self.data@[s1.pos as int] == 0);
                assert(self.enc_bits() =~= unstuffed(self.data@, self.pos as nat));
                assert(self.data@.take(s0.pos as int) =~= s1.data@.take(s1.pos as int).take(
                    s0.pos as int,
                ));
            }
        } else {
            proof {
                assert(s1.buf % 256 == 0);
                assert(s1.enc_bits() =~= unstuffed(s1.data@, s1.pos as nat));
            }
        }
        proof {
            assert(s0.data@.take(s0.pos as int) =~= s0.data@.take(s0.pos as int));
            lemma_unstuffed_prefix(self.data@, (s0.pos + 1) as nat, self.pos as nat);
            let eb = s0.enc_bits();
            let ub = unstuffed(self.data@, self.pos as nat);
            assert(ub.take(eb.len() as int) =~= eb);
        }
        Ok(())
    }

    /// Reads a new byte into the current byte.
    fn byte_in(&mut self) -> (r: Result<()>)
        requires
            old(self).dec_wf(),
            old(self).ct == 0,
        ensures
            final(final(self).data)@ == final(old(self).data)@,
            final(self).data@ == old(self).data@,
            r is Ok <==> old(self).pos < old(self).data@.len(),
            r is Ok ==> {
                &&& final(self).dec_wf()
                &&& final(self).pos == old(self).pos + 1
                &&& final(self).ct == byte_width(old(self).data@, old(self).pos as int)
                &&& final(self).dec_pos() == old(self).dec_pos()
            },
    {
        let b = self.buf;
        proof {
            lemma_shift_byte_up(b);
        }
        self.buf = (self.buf << 8) & 0xffff;
        self.ct = if self.buf == 0xff00 { 7 } else { 8 };
        if self.pos >= self.data.len() {
            return Err(Error::EndOfStream);
        }
        let nb = self.buf;
        let d = self.data[self.pos] as u32;
        assert(nb | d == (nb + d) as u32 && ((nb + d) as u32) % 256 == d && ((nb + d) as u32) / 256 == nb / 256) by (bit_vector)
            requires
                nb % 256 == 0,
                nb < 0x10000,
                d < 256,
        ;
        self.buf |= self.data[self.pos] as u32;
        self.pos += 1;
        proof {
            reveal_with_fuel(unstuffed, 2);
        }
        Ok(())
    }

    /// Reads one bit.
    pub(crate) fn get_bit(&mut self) -> (r: Result<u32>)
        requires
            old(self).dec_wf(),
        ensures
            final(final(self).data)@ == final(old(self).data)@,
            final(self).data@ == old(self).data@,
            r is Ok <==> old(self).dec_pos() < old(self).dec_stream().len(),
            r matches Ok(v) ==> {
                &&& final(self).dec_wf()
                &&& final(self).dec_pos() == old(self).dec_pos() + 1
                &&& v == (if old(self).dec_stream()[old(self).dec_pos()] { 1u32 } else { 0u32 })
            },
    {
        let ghost s0 = *self;
        proof {
            lemma_unstuffed_len_mono(self.data@, self.pos as nat, self.data@.len());
            if self.ct == 0 && self.pos >= self.data@.len() {
                assert(self.pos == self.data@.len());
            }
        }
        if self.ct == 0 {
            let r = self.byte_in();
            if r.is_err() {
                proof {
                    assert(s0.pos == s0.data@.len());
                }
                return Err(Error::EndOfStream);
            }
        }
        let ghost s1 = *self;
        self.ct -= 1;
        let c = self.ct;
        let x = self.buf;
        let v = (self.buf >> self.ct) & 1;
        proof {
            let k = (s1.pos - 1) as int;
            let w = byte_width(s1.data@, k);
            assert(v == ((x % 256) >> c) & 1) by (bit_vector)
                requires
                    v == (x >> c) & 1,
                    c < 8,
                    x < 0x10000,
            ;
            assert(v <= 1) by (bit_vector)
                requires
                    v == (x >> c) & 1,
            ;
            lemma_unstuffed_index(s1.data@, k as nat, (w - 1 - c) as nat);
            lemma_unstuffed_prefix(s1.data@, (k + 1) as nat, s1.data@.len());
            lemma_unstuffed_len_mono(s1.data@, (k + 1) as nat, s1.data@.len());
        }
        Ok(v)
    }

    /// Reads `n` bits, most significant first.
    pub fn read(&mut self, n: u32) -> (r: Result<u32>)
        requires
            old(self).dec_wf(),
            0 < n <= 32,
        ensures
            final(final(self).data)@ == final(old(self).data)@,
            final(self).data@ == old(self).data@,
            r is Ok <==> old(self).dec_pos() + n <= old(self).dec_stream().len(),
            r matches Ok(v) ==> {
                &&& final(self).dec_wf()
                &&& final(self).dec_pos() == old(self).dec_pos() + n
                &&& v as nat == bits_value(
                    old(self).dec_stream().subrange(old(self).dec_pos(), old(self).dec_pos() + n),
                )
            },
    {
        let ghost s0 = *self;
        let ghost p0 = self.dec_pos();
        let ghost st = self.dec_stream();
        let mut v: u32 = 0;
        let mut i: u32 = n;
        let mut failed = false;
        proof {
            vstd::arithmetic::power2::lemma2_to64();
            lemma_unstuffed_len_mono(self.data@, self.pos as nat, self.data@.len());
            assert(st.subrange(p0, p0) =~= Seq::<bool>::empty());
            let z = bits_value(st.subrange(p0, p0 + (n - i)));
            assert(z == 0);
            assert(z * pow2(i as nat) == 0) by (nonlinear_arith)
                requires
                    z == 0,
            ;
        }
        while i > 0 && !failed
            invariant
                i <= n <= 32,
                final(self.data)@ == final(s0.data)@,
                self.data@ == s0.data@,
                st == self.dec_stream(),
                0 <= p0,
                !failed ==> {
                    &&& self.dec_wf()
                    &&& self.dec_pos() == p0 + (n - i)
                    &&& p0 + (n - i) <= st.len()
                    &&& v as nat == bits_value(st.subrange(p0, p0 + (n - i))) * pow2(i as nat)
                    &&& bits_value(st.subrange(p0, p0 + (n - i))) < pow2((n - i) as nat)
                },
                failed ==> p0 + n > st.len(),
            decreases i,
        {
            let ghost k = (n - i) as int;
            i -= 1;
            let b = self.get_bit();
            match b {
                Err(_) => {
                    failed = true;
                },
                Ok(bit) => {
                    proof {
                        let pre = st.subrange(p0, p0 + k);
                        let post = st.subrange(p0, p0 + k + 1);
                        assert(post.drop_last() =~= pre);
                        lemma_bits_value_step(pre, post, bit, i, v);
                    }
                    v |= bit << i;
                },
            }
        }
        if failed {
            return Err(Error::EndOfStream);
        }
        proof {
            vstd::arithmetic::power2::lemma2_to64();
            assert(i == 0);
            assert(v as nat == bits_value(st.subrange(p0, p0 + n)));
        }
        Ok(v)
    }

    /// Aligns the reader on a byte boundary, skipping the byte stuffed after a 0xFF.
    pub fn inalign(&mut self) -> (r: Result<()>)
        requires
            old(self).dec_wf(),
        ensures
            final(final(self).data)@ == final(old(self).data)@,
            final(self).data@ == old(self).data@,
            r is Ok <==> !(old(self).buf % 256 == 0xff && old(self).pos >= old(self).data@.len()),
            r is Ok ==> {
                &&& final(self).dec_wf()
                &&& final(self).ct == 0
                &&& final(self).pos == old(self).pos + (if old(self).buf % 256 == 0xff {
                    1int
                } else {
                    0int
                })
            },
    {
        let x = self.buf;
        assert(x & 0xff == x % 256) by (bit_vector);
        if (self.buf & 0xff) == 0xff {
            self.ct = 0;
            self.byte_in()?;
        }
        self.ct = 0;
        Ok(())
    }
}

/// What a write of `bits` does to a writer: on success the bits are appended to what was
/// written; it fails exactly when the buffer runs out.
pub open spec fn wrote(pre: Bio, post: Bio, bits: Seq<bool>, ok: bool) -> bool {
    match write_model(pre.model(), bits, pre.data@.len() as int) {
        Some(m) => {
            &&& ok
            &&& post.enc_wf()
            &&& post.model() == m
            &&& post.enc_bits() == pre.enc_bits() + bits
        },
        None => !ok,
    }
}

/// A one-bit value is its single bit.
/// A reader's position lies within its stream.
pub proof fn lemma_dec_pos_in_stream(bio: &Bio)
    requires
        bio.dec_wf(),
    ensures
        0 <= bio.dec_pos() <= bio.dec_stream().len(),
{
    lemma_unstuffed_len_mono(bio.data@, bio.pos as nat, bio.data@.len());
    if bio.pos > 0 {
        let d = bio.data@;
        let k = (bio.pos - 1) as nat;
        assert(unstuffed(d, bio.pos as nat) == unstuffed(d, k) + byte_bits(d[k as int], byte_width(d, k as int)));
    }
}

pub proof fn lemma_value_bits_single(v: u32)
    requires
        v <= 1,
    ensures
        value_bits(v, 1) == seq![v == 1],
{
    assert((v >> 0u32) & 1u32 == v) by (bit_vector)
        requires
            v <= 1,
    ;
    assert(value_bits(v, 1) =~= seq![v == 1]);
}

/// A one-bit sequence has the value of its bit.
pub proof fn lemma_bits_value_single(s: Seq<bool>)
    requires
        s.len() == 1,
    ensures
        bits_value(s) == (if s[0] { 1nat } else { 0nat }),
{
    assert(s.drop_last() =~= Seq::<bool>::empty());
    assert(bits_value(s.drop_last()) == 0);
    assert(s.last() == s[0]);
}

/// The value of `k` bits is below `2^k`.
pub proof fn lemma_bits_value_bound(s: Seq<bool>)
    ensures
        bits_value(s) < pow2(s.len()),
    decreases s.len(),
{
    vstd::arithmetic::power2::lemma2_to64();
    if s.len() > 0 {
        lemma_bits_value_bound(s.drop_last());
        vstd::arithmetic::power2::lemma_pow2_adds(1, (s.len() - 1) as nat);
    }
}

/// Reading back the `k` low bits of `v` gives `v` modulo `2^k`.
pub proof fn lemma_bits_value_of_value_bits(v: u32, k: nat)
    requires
        k <= 32,
    ensures
        bits_value(value_bits(v, k)) == (v as nat) % pow2(k),
    decreases k,
{
    vstd::arithmetic::power2::lemma2_to64();
    if k == 0 {
        assert(value_bits(v, k) =~= Seq::<bool>::empty());
    } else {
        let h = v >> 1u32;
        lemma_bits_value_of_value_bits(h, (k - 1) as nat);
        assert forall|i: int| 0 <= i < k - 1 implies #[trigger] value_bits(v, k)[i] == value_bits(h, (k - 1) as nat)[i] by {
            let j = (k - 1 - i) as u32;
            assert((v >> j) & 1u32 == (h >> ((j - 1) as u32)) & 1u32) by (bit_vector)
                requires
                    h == v >> 1u32,
                    1 <= j < 32,
            ;
        }
        assert(value_bits(v, k).drop_last() =~= value_bits(h, (k - 1) as nat));
        assert(h == v / 2 && ((v >> 0u32) & 1u32 == 1u32) == (v % 2 == 1)) by (bit_vector)
            requires
                h == v >> 1u32,
        ;
        let p = pow2((k - 1) as nat);
        vstd::arithmetic::power2::lemma_pow2_adds((k - 1) as nat, 1);
        vstd::arithmetic::power2::lemma_pow2_pos((k - 1) as nat);
        vstd::arithmetic::div_mod::lemma_mod_breakdown(v as int, 2, p as int);
        assert(p * 2 == pow2(k));
    }
}

/// Bits that a flushed writer left at the front of its buffer are the first bits a
/// fresh reader of that buffer sees.
pub proof fn lemma_flushed_bits_read_back(d: Seq<u8>, pos: nat, bits: Seq<bool>)
    requires
        pos <= d.len(),
        unstuffed(d, pos).len() >= bits.len(),
        unstuffed(d, pos).take(bits.len() as int) == bits,
    ensures
        unstuffed(d, d.len()).len() >= bits.len(),
        unstuffed(d, d.len()).take(bits.len() as int) == bits,
{
    lemma_unstuffed_prefix(d, pos, d.len());
    let a = unstuffed(d, pos);
    let b = unstuffed(d, d.len());
    assert(b.take(bits.len() as int) =~= b.take(a.len() as int).take(bits.len() as int));
}

/// Writing `a + b` is writing `a`, then `b` from the state reached.
pub proof fn lemma_write_model_append(m: (int, int, int), a: Seq<bool>, b: Seq<bool>, len: int)
    ensures
        write_model(m, a + b, len) == match write_model(m, a, len) {
            None => None,
            Some(m1) => write_model(m1, b, len),
        },
    decreases b.len(),
{
    if b.len() == 0 {
        assert(a + b =~= a);
    } else {
        assert((a + b).drop_last() =~= a + b.drop_last());
        assert((a + b).last() == b.last());
        lemma_write_model_append(m, a, b.drop_last(), len);
    }
}

/// `unstuffed` depends only on the bytes it covers.
pub proof fn lemma_unstuffed_take(d1: Seq<u8>, d2: Seq<u8>, n: nat)
    requires
        n <= d1.len(),
        n <= d2.len(),
        d1.take(n as int) == d2.take(n as int),
    ensures
        unstuffed(d1, n) == unstuffed(d2, n),
    decreases n,
{
    if n > 0 {
        assert(d1.take(n - 1) =~= d1.take(n as int).take(n - 1));
        assert(d2.take(n - 1) =~= d2.take(n as int).take(n - 1));
        assert(d1[n - 1] == d1.take(n as int)[n - 1]);
        assert(d2[n - 1] == d2.take(n as int)[n - 1]);
        if n > 1 {
            assert(d1[n - 2] == d1.take(n as int)[n - 2]);
            assert(d2[n - 2] == d2.take(n as int)[n - 2]);
        }
        lemma_unstuffed_take(d1, d2, (n - 1) as nat);
    }
}

/// The payload length of `n` bytes grows with `n`.
pub proof fn lemma_unstuffed_len_mono(d: Seq<u8>, m: nat, n: nat)
    requires
        m <= n,
    ensures
        unstuffed(d, m).len() <= unstuffed(d, n).len(),
        m < n ==> unstuffed(d, m).len() + 7 <= unstuffed(d, n).len(),
    decreases n,
{
    if m < n {
        lemma_unstuffed_len_mono(d, m, (n - 1) as nat);
    }
}

/// The payload of fewer bytes is a prefix of the payload of more.
pub proof fn lemma_unstuffed_prefix(d: Seq<u8>, m: nat, n: nat)
    requires
        m <= n,
    ensures
        unstuffed(d, m).len() <= unstuffed(d, n).len(),
        unstuffed(d, n).take(unstuffed(d, m).len() as int) == unstuffed(d, m),
    decreases n,
{
    lemma_unstuffed_len_mono(d, m, n);
    if m < n {
        lemma_unstuffed_prefix(d, m, (n - 1) as nat);
        let a = unstuffed(d, (n - 1) as nat);
        let b = byte_bits(d[n - 1], byte_width(d, n - 1));
        assert((a + b).take(unstuffed(d, m).len() as int) =~= a.take(unstuffed(d, m).len() as int));
    } else {
        assert(unstuffed(d, n).take(unstuffed(d, n).len() as int) =~= unstuffed(d, n));
    }
}

/// Bit `j` of byte `k`'s payload sits right after the payload of the bytes before it.
pub proof fn lemma_unstuffed_index(d: Seq<u8>, k: nat, j: nat)
    requires
        j < byte_width(d, k as int),
    ensures
        unstuffed(d, k + 1)[unstuffed(d, k).len() + j as int] == byte_bits(d[k as int], byte_width(d, k as int))[j as int],
{
}

proof fn lemma_put_bit_bits(x: u32, c: u32, b: u32)
    requires
        x < 0x10000,
        c < 8,
        b <= 1,
        ((x as int) % 256) % (pow2((c + 1) as nat) as int) == 0,
    ensures
        (x | (b << c)) == x + b * pow2(c as nat),
        (x | (b << c)) / 256 == x / 256,
        (((x | (b << c)) as int) % 256) % (pow2(c as nat) as int) == 0,
        x % 256 < 128 && c < 7 ==> (x | (b << c)) % 256 < 128,
        forall|j: u32|
            j < 8 ==> #[trigger] (((x | (b << c)) % 256) >> j) & 1u32 == if j == c {
                b
            } else {
                ((x % 256) >> j) & 1u32
            },
{
    vstd::arithmetic::power2::lemma2_to64();
    let p1: u32 = 1u32 << ((c + 1) as u32);
    let p0: u32 = 1u32 << c;
    crate::arith::lemma_u32_shl_pow2((c + 1) as u32);
    crate::arith::lemma_u32_shl_pow2(c);
    assert((x | (b << c)) == (x + b * p0) as u32 && (x | (b << c)) / 256 == x / 256 && ((x | (b << c)) % 256) % p0
        == 0 && (x % 256 < 128 && c < 7 ==> (x | (b << c)) % 256 < 128)) by (bit_vector)
        requires
            x < 0x10000,
            c < 8,
            b <= 1,
            (x % 256) % p1 == 0,
            p1 == 1u32 << (c + 1),
            p0 == 1u32 << c,
    ;
    assert(x + b * p0 < 0x20000) by (nonlinear_arith)
        requires
            x < 0x10000,
            b <= 1,
            p0 <= 128,
    ;
    assert forall|j: u32| j < 8 implies #[trigger] (((x | (b << c)) % 256) >> j) & 1u32 == if j == c {
        b
    } else {
        ((x % 256) >> j) & 1u32
    } by {
        assert((((x | (b << c)) % 256) >> j) & 1u32 == if j == c {
            b
        } else {
            ((x % 256) >> j) & 1u32
        }) by (bit_vector)
            requires
                x < 0x10000,
                c < 8,
                b <= 1,
                j < 8,
                (x % 256) % p1 == 0,
                p1 == 1u32 << (c + 1),
        ;
    }
}

/// Padding the current byte with zero bits keeps the bits written so far as a prefix.
proof fn lemma_pad_current_byte(buf: u32, w: nat, ct: nat)
    requires
        ct <= w <= 8,
    ensures
        cur_bits((buf % 256) as u32, w, 0).take((w - ct) as int) == cur_bits((buf % 256) as u32, w, ct),
{
    assert(cur_bits((buf % 256) as u32, w, 0).take((w - ct) as int) =~= cur_bits((buf % 256) as u32, w, ct));
}

proof fn lemma_write_model_none(m: (int, int, int), bits: Seq<bool>, k: int, len: int)
    requires
        0 < k <= bits.len(),
        write_model(m, bits.take(k - 1), len) is Some,
        ({
            let m1 = write_model(m, bits.take(k - 1), len)->Some_0;
            m1.2 == 0 && m1.0 >= len
        }),
    ensures
        write_model(m, bits, len) is None,
    decreases bits.len() - k,
{
    assert(bits.take(k).drop_last() =~= bits.take(k - 1));
    if k == bits.len() {
        assert(bits.take(k) =~= bits);
    } else {
        lemma_write_model_none_ext(m, bits, k, len);
    }
}

proof fn lemma_write_model_none_ext(m: (int, int, int), bits: Seq<bool>, k: int, len: int)
    requires
        0 < k <= bits.len(),
        write_model(m, bits.take(k), len) is None,
    ensures
        write_model(m, bits, len) is None,
    decreases bits.len() - k,
{
    if k < bits.len() {
        assert(bits.take(k + 1).drop_last() =~= bits.take(k));
        lemma_write_model_none_ext(m, bits, k + 1, len);
    } else {
        assert(bits.take(k) =~= bits);
    }
}

proof fn lemma_bits_value_step(pre: Seq<bool>, post: Seq<bool>, bit: u32, i: u32, v: u32)
    requires
        i < 32,
        bit <= 1,
        post.len() == pre.len() + 1,
        post.drop_last() == pre,
        post.last() == (bit == 1),
        v as nat == bits_value(pre) * pow2((i + 1) as nat),
        bits_value(pre) < pow2((post.len() - 1) as nat),
        pre.len() + i + 1 <= 32,
    ensures
        (v | (bit << i)) as nat == bits_value(post) * pow2(i as nat),
        bits_value(post) < pow2(post.len() as nat),
{
    vstd::arithmetic::power2::lemma_pow2_adds(1, i as nat);
    vstd::arithmetic::power2::lemma_pow2_adds(1, (post.len() - 1) as nat);
    vstd::arithmetic::power2::lemma2_to64();
    let p = pow2(i as nat);
    let bv = bits_value(pre);
    assert(v as nat == bv * 2 * p) by (nonlinear_arith)
        requires
            v as nat == bv * pow2((i + 1) as nat),
            pow2((i + 1) as nat) == 2 * p,
    ;
    crate::arith::lemma_u32_shl_pow2(i);
    vstd::bits::lemma_u32_pow2_no_overflow(i as nat);
    let pi: u32 = 1u32 << i;
    vstd::bits::lemma_u32_shr_is_div(v, i);
    assert((v as int) / (p as int) == 2 * bv) by (nonlinear_arith)
        requires
            v as nat == bv * 2 * p,
            p > 0,
    {
        vstd::arithmetic::div_mod::lemma_div_multiples_vanish((2 * bv) as int, p as int);
    }
    let sh: u32 = v >> i;
    assert(sh & 1 == 0) by (bit_vector)
        requires
            sh % 2 == 0,
    ;
    assert((v | (bit << i)) == (v + bit * pi) as u32) by (bit_vector)
        requires
            bit <= 1,
            i < 32,
            pi == 1u32 << i,
            (v >> i) & 1 == 0,
    ;
    assert(bits_value(post) == 2 * bv + bit);
    vstd::arithmetic::power2::lemma_pow2_adds((post.len() - 1) as nat, (i + 1) as nat);
    vstd::arithmetic::power2::lemma_pow2_strictly_increases((post.len() + i) as nat, 33);
    if post.len() + i < 32 {
        vstd::arithmetic::power2::lemma_pow2_strictly_increases((post.len() + i) as nat, 32);
    }
    assert(v + bit * pi < 0x1_0000_0000) by (nonlinear_arith)
        requires
            v as nat == bv * 2 * p,
            pi == p,
            bv + 1 <= pow2((post.len() - 1) as nat),
            pow2((post.len() - 1) as nat) * pow2((i + 1) as nat) == pow2((post.len() + i) as nat),
            pow2((i + 1) as nat) == 2 * p,
            pow2((post.len() + i) as nat) <= 0x1_0000_0000,
            bit <= 1,
            p > 0,
    ;
    assert((v + bit * pi) as nat == bits_value(post) * p) by (nonlinear_arith)
        requires
            v as nat == bv * 2 * p,
            pi == p,
            bits_value(post) == 2 * bv + bit,
    ;
    assert(bits_value(post) < pow2(post.len() as nat)) by (nonlinear_arith)
        requires
            bv < pow2((post.len() - 1) as nat),
            pow2(post.len() as nat) == 2 * pow2((post.len() - 1) as nat),
            bits_value(post) == 2 * bv + bit,
            bit <= 1,
    ;
}


/// The bits of writing the values `vs`, with the bit counts `ns`, one after another.
pub open spec fn written_bits(vs: Seq<u32>, ns: Seq<nat>) -> Seq<bool>
    decreases vs.len(),
{
    if vs.len() == 0 || ns.len() < vs.len() {
        Seq::empty()
    } else {
        written_bits(vs.drop_last(), ns) + value_bits(vs.last(), ns[vs.len() - 1])
    }
}

/// Position in the bit stream where the `i`-th value starts.
pub open spec fn written_offset(ns: Seq<nat>, i: int) -> int
    decreases i,
{
    if i <= 0 {
        0
    } else {
        written_offset(ns, i - 1) + ns[i - 1]
    }
}

proof fn lemma_written_layout(vs: Seq<u32>, ns: Seq<nat>, i: int)
    requires
        ns.len() >= vs.len(),
        0 <= i < vs.len(),
    ensures
        written_bits(vs, ns).len() == written_offset(ns, vs.len() as int),
        0 <= written_offset(ns, i),
        written_offset(ns, i) + ns[i] <= written_bits(vs, ns).len(),
        written_bits(vs, ns).subrange(written_offset(ns, i), written_offset(ns, i) + ns[i]) == value_bits(
            vs[i],
            ns[i],
        ),
    decreases vs.len(),
{
    let n = vs.len() as int;
    let pre = vs.drop_last();
    lemma_offset_mono(ns, i, n - 1);
    lemma_written_len(pre, ns);
    if i < n - 1 {
        lemma_written_layout(pre, ns, i);
        let w = written_bits(vs, ns);
        let wp = written_bits(pre, ns);
        assert(w.subrange(written_offset(ns, i), written_offset(ns, i) + ns[i]) =~= wp.subrange(
            written_offset(ns, i),
            written_offset(ns, i) + ns[i],
        ));
    } else {
        let w = written_bits(vs, ns);
        assert(w.subrange(written_offset(ns, i), written_offset(ns, i) + ns[i]) =~= value_bits(vs[i], ns[i]));
    }
}

proof fn lemma_offset_mono(ns: Seq<nat>, i: int, j: int)
    requires
        0 <= i <= j,
    ensures
        0 <= written_offset(ns, i) <= written_offset(ns, j),
    decreases j,
{
    if i < j {
        lemma_offset_mono(ns, i, j - 1);
    } else if i > 0 {
        lemma_offset_mono(ns, 0, i - 1);
    }
}

proof fn lemma_written_len(vs: Seq<u32>, ns: Seq<nat>)
    requires
        ns.len() >= vs.len(),
    ensures
        written_bits(vs, ns).len() == written_offset(ns, vs.len() as int),
    decreases vs.len(),
{
    if vs.len() > 0 {
        lemma_written_len(vs.drop_last(), ns);
    }
}

/// Write-then-read round trip: when a flushed writer's buffer `d` holds, at the front of
/// its payload bits, the values `vs` written with `ns` bits each (at most 32), a reader of
/// `d` that has read the values before the `i`-th reads back `vs[i]` reduced to `ns[i]`
/// bits. The 0xFF bit stuffing is undone by the reader's view of the payload bits.
pub proof fn lemma_write_read_roundtrip(d: Seq<u8>, vs: Seq<u32>, ns: Seq<nat>, i: int)
    requires
        ns.len() == vs.len(),
        forall|j: int| 0 <= j < ns.len() ==> #[trigger] ns[j] <= 32,
        0 <= i < vs.len(),
        unstuffed(d, d.len()).len() >= written_bits(vs, ns).len(),
        unstuffed(d, d.len()).take(written_bits(vs, ns).len() as int) == written_bits(vs, ns),
    ensures
        written_offset(ns, i) + ns[i] <= unstuffed(d, d.len()).len(),
        bits_value(unstuffed(d, d.len()).subrange(written_offset(ns, i), written_offset(ns, i) + ns[i])) == (
        vs[i] as nat) % pow2(ns[i]),
{
    lemma_written_layout(vs, ns, i);
    let st = unstuffed(d, d.len());
    let w = written_bits(vs, ns);
    let o = written_offset(ns, i);
    assert(st.subrange(o, o + ns[i]) =~= w.subrange(o, o + ns[i])) by {
        assert forall|k: int| 0 <= k < ns[i] implies #[trigger] st.subrange(o, o + ns[i])[k] == w.subrange(o, o + ns[i])[k] by {
            assert(st.take(w.len() as int)[o + k] == w[o + k]);
        }
    }
    lemma_bits_value_of_value_bits(vs[i], ns[i]);
}

} // verus!
