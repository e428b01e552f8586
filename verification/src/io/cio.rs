//! In-memory byte streams and big-endian integer coding.
use vstd::prelude::*;
use vstd::arithmetic::power::pow;
use crate::error::{Error, Result, invalid};

verus! {

/// The number whose big-endian bytes are `s`.
pub open spec fn be_value(s: Seq<u8>) -> nat
    decreases s.len(),
{
    if s.len() == 0 {
        0
    } else {
        be_value(s.drop_last()) * 256 + s.last() as nat
    }
}

/// Byte `i` of the `n`-byte big-endian form of `v`.
pub open spec fn be_byte(v: u32, n: nat, i: int) -> u8 {
    ((v as nat / pow(256, (n - 1 - i) as nat) as nat) % 256) as u8
}

proof fn lemma_pow256()
    ensures
        pow(256, 0) == 1,
        pow(256, 1) == 256,
        pow(256, 2) == 0x1_0000,
        pow(256, 3) == 0x100_0000,
        pow(256, 4) == 0x1_0000_0000,
{
    reveal_with_fuel(pow, 5);
}

/// Writes the `n` low bytes of `val` to the front of `buf`, most significant first.
pub fn write_bytes_be(buf: &mut [u8], val: u32, n: usize)
    requires
        n <= 4,
        n <= old(buf)@.len(),
    ensures
        final(buf)@.len() == old(buf)@.len(),
        forall|i: int| 0 <= i < n ==> #[trigger] final(buf)@[i] == be_byte(val, n as nat, i),
        forall|i: int| n <= i < old(buf)@.len() ==> #[trigger] final(buf)@[i] == old(buf)@[i],
{
    proof {
        lemma_pow256();
    }
    let mut i: usize = 0;
    while i < n
        invariant
            n <= 4,
            n <= buf@.len(),
            buf@.len() == old(buf)@.len(),
            i <= n,
            forall|k: int| 0 <= k < i ==> #[trigger] buf@[k] == be_byte(val, n as nat, k),
            forall|k: int| n <= k < buf@.len() ==> #[trigger] buf@[k] == old(buf)@[k],
        decreases n - i,
    {
        let e = (n - 1 - i) as u32;
        proof {
            lemma_pow256();
        }
        let mut p: u64 = 1;
        let mut j: u32 = 0;
        while j < e
            invariant
                e <= 3,
                j <= e,
                p as nat == pow(256, j as nat),
                p <= 0x100_0000,
            decreases e - j,
        {
            proof {
                vstd::arithmetic::power::lemma_pow_adds(256, j as nat, 1);
                vstd::arithmetic::power::lemma_pow1(256);
                vstd::arithmetic::power::lemma_pow_increases(256, (j + 1) as nat, 3);
                lemma_pow256();
            }
            p = p * 256;
            j += 1;
        }
        proof {
            vstd::arithmetic::power::lemma_pow_positive(256, e as nat);
        }
        let b = ((val as u64 / p) % 256) as u8;
        buf[i] = b;
        i += 1;
    }
}

/// The big-endian number held by the first `n` bytes of `buf`.
pub fn read_bytes_be(buf: &[u8], n: usize) -> (r: u32)
    requires
        n <= 4,
        n <= buf@.len(),
    ensures
        r as nat == be_value(buf@.take(n as int)),
{
    let mut v: u32 = 0;
    let mut i: usize = 0;
    proof {
        lemma_pow256();
    }
    while i < n
        invariant
            n <= 4,
            n <= buf@.len(),
            i <= n,
            v as nat == be_value(buf@.take(i as int)),
            v as nat <= pow(256, i as nat) - 1,
        decreases n - i,
    {
        proof {
            assert(buf@.take(i + 1).drop_last() =~= buf@.take(i as int));
            vstd::arithmetic::power::lemma_pow_adds(256, i as nat, 1);
            vstd::arithmetic::power::lemma_pow1(256);
            vstd::arithmetic::power::lemma_pow_increases(256, (i + 1) as nat, 4);
            lemma_pow256();
            assert(v * 256 + buf@[i as int] <= pow(256, (i + 1) as nat) - 1) by (nonlinear_arith)
                requires
                    v <= pow(256, i as nat) - 1,
                    buf@[i as int] <= 255,
                    pow(256, (i + 1) as nat) == pow(256, i as nat) * 256,
            ;
        }
        v = v * 256 + buf[i] as u32;
        i += 1;
    }
    v
}

/// Reading back the `n` bytes written for `v` gives `v` modulo `256^n`.
pub proof fn lemma_bytes_be_roundtrip(v: u32, n: nat)
    requires
        n <= 4,
    ensures
        be_value(Seq::new(n, |i: int| be_byte(v, n, i))) == (v as int) % pow(256, n),
    decreases n,
{
    let s = Seq::new(n, |i: int| be_byte(v, n, i));
    vstd::arithmetic::power::lemma_pow_positive(256, n);
    if n == 0 {
        lemma_pow256();
    } else {
        let w = (v as nat / 256) as u32;
        lemma_bytes_be_roundtrip(w, (n - 1) as nat);
        let t = Seq::new((n - 1) as nat, |i: int| be_byte(w, (n - 1) as nat, i));
        assert forall|i: int| 0 <= i < n - 1 implies #[trigger] s.drop_last()[i] == t[i] by {
            let k = (n - 2 - i) as nat;
            vstd::arithmetic::power::lemma_pow_adds(256, 1, k);
            vstd::arithmetic::power::lemma_pow1(256);
            vstd::arithmetic::power::lemma_pow_positive(256, k);
            vstd::arithmetic::div_mod::lemma_div_denominator(v as int, 256, pow(256, k) as int);
        }
        assert(s.drop_last() =~= t);
        assert(s.last() == (v as nat % 256) as u8) by {
            lemma_pow256();
            assert(s.last() == be_byte(v, n, n - 1));
            assert(v as nat / 1 == v as nat);
        }
        vstd::arithmetic::power::lemma_pow_adds(256, (n - 1) as nat, 1);
        vstd::arithmetic::power::lemma_pow1(256);
        vstd::arithmetic::power::lemma_pow_positive(256, (n - 1) as nat);
        vstd::arithmetic::div_mod::lemma_mod_breakdown(v as int, 256, pow(256, (n - 1) as nat) as int);
        assert(pow(256, (n - 1) as nat) * 256 == pow(256, n));
        assert(256 * pow(256, (n - 1) as nat) == pow(256, n)) by (nonlinear_arith)
            requires
                pow(256, (n - 1) as nat) * 256 == pow(256, n),
        ;
    }
}

/// A byte stream held in memory, with a read/write position.
pub struct MemoryStream {
    /// The bytes of the stream.
    pub data: Vec<u8>,
    /// Position of the next byte to read or write.
    pub position: usize,
    /// Whether the stream was opened for reading.
    pub is_input: bool,
}

impl MemoryStream {
    /// A stream to read `data` from its start.
    pub fn new_input(data: Vec<u8>) -> (r: Self)
        ensures
            r.data@ == data@,
            r.position == 0,
            r.is_input,
    {
        MemoryStream { data, position: 0, is_input: true }
    }

    /// An empty stream to write to.
    pub fn new_output() -> (r: Self)
        ensures
            r.data@.len() == 0,
            r.position == 0,
            !r.is_input,
    {
        MemoryStream { data: Vec::new(), position: 0, is_input: false }
    }

    /// Whether the position lies within the data.
    pub open spec fn wf(&self) -> bool {
        self.position <= self.data@.len()
    }

    /// Reads as many bytes as `buf` holds or the stream has left, into the front of `buf`;
    /// returns how many.
    pub fn read(&mut self, buf: &mut [u8]) -> (r: Result<usize>)
        requires
            old(self).wf(),
        ensures
            final(self).wf(),
            final(self).data == old(self).data,
            final(self).is_input == old(self).is_input,
            r matches Ok(n) && n == (if old(buf)@.len() < old(self).data@.len() - old(self).position {
                old(buf)@.len() as int
            } else {
                old(self).data@.len() - old(self).position
            }),
            final(self).position == old(self).position + r->Ok_0,
            final(buf)@.len() == old(buf)@.len(),
            forall|i: int| 0 <= i < r->Ok_0 ==> #[trigger] final(buf)@[i] == old(self).data@[old(self).position + i],
            forall|i: int| r->Ok_0 <= i < old(buf)@.len() ==> #[trigger] final(buf)@[i] == old(buf)@[i],
    {
        let len = self.data.len();
        let left = len - self.position;
        let n = if buf.len() < left { buf.len() } else { left };
        let mut i: usize = 0;
        while i < n
            invariant
                len == self.data@.len(),
                n <= buf@.len(),
                self.position + n <= self.data@.len(),
                self.data == old(self).data,
                self.position == old(self).position,
                buf@.len() == old(buf)@.len(),
                i <= n,
                forall|k: int| 0 <= k < i ==> #[trigger] buf@[k] == self.data@[self.position + k],
                forall|k: int| i <= k < buf@.len() ==> #[trigger] buf@[k] == old(buf)@[k],
            decreases n - i,
        {
            buf[i] = self.data[self.position + i];
            i += 1;
        }
        self.position = self.position + n;
        Ok(n)
    }

    /// Writes `buf` at the position, overwriting and then extending the data; refused on a
    /// stream opened for reading.
    pub fn write(&mut self, buf: &[u8]) -> (r: Result<usize>)
        requires
            old(self).wf(),
            old(self).data@.len() + buf@.len() <= usize::MAX,
        ensures
            final(self).wf(),
            final(self).is_input == old(self).is_input,
            old(self).is_input ==> r is Err && *final(self) == *old(self),
            !old(self).is_input ==> {
                &&& r matches Ok(n) && n == buf@.len()
                &&& final(self).position == old(self).position + buf@.len()
                &&& final(self).data@.len() == (if old(self).position + buf@.len() > old(self).data@.len() {
                    old(self).position + buf@.len()
                } else {
                    old(self).data@.len() as int
                })
                &&& forall|i: int| 0 <= i < old(self).position ==> #[trigger] final(self).data@[i] == old(self).data@[i]
                &&& forall|i: int| 0 <= i < buf@.len() ==> #[trigger] final(self).data@[old(self).position + i] == buf@[i]
                &&& forall|i: int|
                    old(self).position + buf@.len() <= i < final(self).data@.len() ==> #[trigger] final(self).data@[i]
                        == old(self).data@[i]
            },
    {
        if self.is_input {
            return Err(invalid("write to a stream opened for reading"));
        }
        let ghost d0 = self.data@;
        let p0 = self.position;
        let mut i: usize = 0;
        while i < buf.len()
            invariant
                !self.is_input,
                self.is_input == old(self).is_input,
                d0 == old(self).data@,
                p0 == old(self).position,
                p0 <= d0.len(),
                d0.len() + buf@.len() <= usize::MAX,
                i <= buf@.len(),
                self.position == p0 + i,
                self.data@.len() == (if p0 + i > d0.len() { p0 + i } else { d0.len() as int }),
                forall|k: int| 0 <= k < p0 ==> #[trigger] self.data@[k] == d0[k],
                forall|k: int| 0 <= k < i ==> #[trigger] self.data@[p0 + k] == buf@[k],
                forall|k: int| p0 + i <= k < self.data@.len() ==> #[trigger] self.data@[k] == d0[k],
            decreases buf@.len() - i,
        {
            if self.position < self.data.len() {
                self.data.set(self.position, buf[i]);
            } else {
                self.data.push(buf[i]);
            }
            self.position = self.position + 1;
            i += 1;
        }
        Ok(buf.len())
    }

    /// Moves the position by `n` bytes, forward or backward; refused, changing nothing,
    /// when the new position would leave `[0, data length]`.
    pub fn skip(&mut self, n: i64) -> (r: Result<()>)
        requires
            old(self).wf(),
        ensures
            final(self).data == old(self).data,
            final(self).is_input == old(self).is_input,
            r is Ok <==> 0 <= old(self).position + n <= old(self).data@.len(),
            r is Ok ==> final(self).position == old(self).position + n,
            r is Err ==> final(self).position == old(self).position,
    {
        let len = self.data.len();
        if n >= 0 {
            let step = n as u64;
            if step > (len - self.position) as u64 {
                return Err(invalid("skip past the end of the stream"));
            }
            self.position = self.position + step as usize;
        } else {
            let back: u64 = if n == i64::MIN { 0x8000_0000_0000_0000u64 } else { (-n) as u64 };
            if back > self.position as u64 {
                return Err(invalid("skip before the start of the stream"));
            }
            self.position = self.position - back as usize;
        }
        Ok(())
    }

    /// Moves the position to `pos`; refused, changing nothing, past the end of the data.
    pub fn seek(&mut self, pos: usize) -> (r: Result<()>)
        ensures
            final(self).data == old(self).data,
            final(self).is_input == old(self).is_input,
            r is Ok <==> pos <= old(self).data@.len(),
            r is Ok ==> final(self).position == pos,
            r is Err ==> final(self).position == old(self).position,
    {
        if pos > self.data.len() {
            return Err(invalid("seek past the end of the stream"));
        }
        self.position = pos;
        Ok(())
    }

    /// The position.
    pub fn tell(&self) -> (r: usize)
        ensures
            r == self.position,
    {
        self.position
    }

    /// Number of bytes after the position.
    pub fn bytes_left(&self) -> (r: usize)
        requires
            self.wf(),
        ensures
            r == self.data@.len() - self.position,
    {
        self.data.len() - self.position
    }

    /// All bytes of the stream.
    pub fn data(&self) -> (r: &[u8])
        ensures
            r@ == self.data@,
    {
        self.data.as_slice()
    }
}

} // verus!
