//! Bit-granular reading of a byte buffer, most significant bit first.
use vstd::prelude::*;

use crate::error::FlacError;

verus! {

/// 2 to the power `n`.
pub open spec fn pow2(n: nat) -> nat
    decreases n,
{
    if n == 0 {
        1
    } else {
        2 * pow2((n - 1) as nat)
    }
}

/// The bit at index `i` of `data`, counting from the most significant bit of the first byte.
pub open spec fn bit_at(data: Seq<u8>, i: int) -> nat {
    ((data[i / 8] >> ((7 - i % 8) as u8)) & 1u8) as nat
}

/// The unsigned value of the `n` bits of `data` that start at bit `pos`, most significant first.
pub open spec fn bits_value(data: Seq<u8>, pos: int, n: nat) -> nat
    decreases n,
{
    if n == 0 {
        0
    } else {
        2 * bits_value(data, pos, (n - 1) as nat) + bit_at(data, pos + n - 1)
    }
}

/// The two's-complement reading of an `n`-bit unsigned value `u`.
pub open spec fn sign_extend(u: nat, n: nat) -> int {
    if n > 0 && u >= pow2((n - 1) as nat) {
        u - pow2(n)
    } else {
        u as int
    }
}

/// Number of bits in `data`.
pub open spec fn bit_len(data: Seq<u8>) -> int {
    (data.len() * 8) as int
}

/// The bits in `[pos, pos + k)` are zeros and the bit at `pos + k` is a one.
pub open spec fn unary_at(data: Seq<u8>, pos: int, k: nat) -> bool {
    &&& pos + k < bit_len(data)
    &&& bit_at(data, pos + k) == 1
    &&& forall|j: int| pos <= j < pos + k ==> bit_at(data, j) == 0
}

pub proof fn lemma_pow2_positive(n: nat)
    ensures
        pow2(n) >= 1,
    decreases n,
{
    if n > 0 {
        lemma_pow2_positive((n - 1) as nat);
    }
}

pub proof fn lemma_pow2_monotonic(a: nat, b: nat)
    requires
        a <= b,
    ensures
        pow2(a) <= pow2(b),
    decreases b,
{
    if a < b {
        lemma_pow2_monotonic(a, (b - 1) as nat);
    }
}

pub proof fn lemma_pow2_add(a: nat, b: nat)
    ensures
        pow2(a + b) == pow2(a) * pow2(b),
    decreases b,
{
    if b == 0 {
        assert(pow2(0) == 1);
    } else {
        lemma_pow2_add(a, (b - 1) as nat);
        assert((a + b - 1) as nat == a + (b - 1) as nat);
        assert(pow2(a + b) == 2 * pow2((a + b - 1) as nat));
        assert(pow2(a) * pow2(b) == pow2(a) * (2 * pow2((b - 1) as nat)));
        assert(pow2(a) * (2 * pow2((b - 1) as nat)) == 2 * (pow2(a) * pow2((b - 1) as nat)))
            by (nonlinear_arith);
    }
}

pub proof fn lemma_bit_at_le_one(data: Seq<u8>, i: int)
    ensures
        bit_at(data, i) <= 1,
{
    let b = data[i / 8];
    let s = (7 - i % 8) as u8;
    assert((b >> s) & 1u8 <= 1u8) by (bit_vector);
}

pub proof fn lemma_bits_value_bound(data: Seq<u8>, pos: int, n: nat)
    ensures
        bits_value(data, pos, n) < pow2(n),
    decreases n,
{
    if n > 0 {
        lemma_bits_value_bound(data, pos, (n - 1) as nat);
        lemma_bit_at_le_one(data, pos + n - 1);
    }
}

/// `2^n` as a machine integer.
pub fn pow2_u64(n: u32) -> (r: u64)
    requires
        n < 64,
    ensures
        r == pow2(n as nat),
{
    let mut r: u64 = 1;
    let mut i: u32 = 0;
    while i < n
        invariant
            i <= n < 64,
            r == pow2(i as nat),
        decreases n - i,
    {
        proof {
            lemma_pow2_monotonic((i + 1) as nat, 63);
            lemma_pow2_63();
        }
        r = r * 2;
        i = i + 1;
    }
    r
}

proof fn lemma_pow2_63()
    ensures
        pow2(63) == 0x8000_0000_0000_0000,
{
    reveal_with_fuel(pow2, 64);
}

/// Values of `pow2` that the decoder's bounds use.
pub proof fn lemma_pow2_values()
    ensures
        pow2(0) == 1,
        pow2(1) == 2,
        pow2(2) == 4,
        pow2(3) == 8,
        pow2(4) == 16,
        pow2(5) == 32,
        pow2(6) == 64,
        pow2(7) == 128,
        pow2(8) == 256,
        pow2(15) == 0x8000,
        pow2(16) == 0x10000,
        pow2(32) == 0x1_0000_0000,
        pow2(33) == 0x2_0000_0000,
        pow2(40) == 0x100_0000_0000,
{
    reveal_with_fuel(pow2, 41);
}

proof fn lemma_pow2_64()
    ensures
        pow2(64) == 0x1_0000_0000_0000_0000,
{
    lemma_pow2_63();
}

/// A cursor over a byte buffer that reads fields bit by bit.
pub struct BitReader {
    pub data: Vec<u8>,
    /// Position of the next bit to read.
    pub pos: usize,
}

impl BitReader {
    pub open spec fn wf(&self) -> bool {
        &&& self.pos <= bit_len(self.data@)
        &&& bit_len(self.data@) <= usize::MAX
    }

    pub fn new(data: Vec<u8>) -> (r: BitReader)
        requires
            data@.len() * 8 <= usize::MAX,
        ensures
            r.wf(),
            r.data@ == data@,
            r.pos == 0,
    {
        BitReader { data, pos: 0 }
    }

    pub fn is_byte_aligned(&self) -> (r: bool)
        ensures
            r == (self.pos % 8 == 0),
    {
        self.pos % 8 == 0
    }

    /// Reads one bit.
    pub fn read_bit(&mut self) -> (r: Result<u8, FlacError>)
        requires
            old(self).wf(),
        ensures
            final(self).wf(),
            final(self).data@ == old(self).data@,
            old(self).pos <= final(self).pos,
            old(self).pos < bit_len(old(self).data@) ==> r == Ok::<u8, FlacError>(
                bit_at(old(self).data@, old(self).pos as int) as u8,
            ) && final(self).pos == old(self).pos + 1,
            old(self).pos >= bit_len(old(self).data@) ==> r == Err::<u8, FlacError>(
                FlacError::UnexpectedEnd,
            ) && final(self).pos == old(self).pos,
    {
        if self.pos >= self.data.len() * 8 {
            return Err(FlacError::UnexpectedEnd);
        }
        let byte = self.data[self.pos / 8];
        let shift: u8 = (7 - self.pos % 8) as u8;
        let bit = (byte >> shift) & 1u8;
        proof {
            lemma_bit_at_le_one(self.data@, self.pos as int);
        }
        self.pos = self.pos + 1;
        Ok(bit)
    }

    /// Reads an `n`-bit unsigned field.
    pub fn read_bits(&mut self, n: u32) -> (r: Result<u64, FlacError>)
        requires
            old(self).wf(),
            n <= 64,
        ensures
            final(self).wf(),
            final(self).data@ == old(self).data@,
            old(self).pos <= final(self).pos,
            old(self).pos + n <= bit_len(old(self).data@) ==> r == Ok::<u64, FlacError>(
                bits_value(old(self).data@, old(self).pos as int, n as nat) as u64,
            ) && final(self).pos == old(self).pos + n,
            old(self).pos + n > bit_len(old(self).data@) ==> r == Err::<u64, FlacError>(
                FlacError::UnexpectedEnd,
            ),
            r is Ok ==> r->Ok_0 == bits_value(old(self).data@, old(self).pos as int, n as nat),
    {
        if n as usize > self.data.len() * 8 - self.pos {
            return Err(FlacError::UnexpectedEnd);
        }
        let ghost start = self.pos as int;
        let mut v: u64 = 0;
        let mut i: u32 = 0;
        while i < n
            invariant
                self.wf(),
                self.data@ == old(self).data@,
                i <= n <= 64,
                start + n <= bit_len(self.data@),
                self.pos == start + i,
                v == bits_value(self.data@, start, i as nat),
            decreases n - i,
        {
            let b = self.read_bit();
            let b = match b {
                Ok(b) => b,
                Err(e) => return Err(e),
            };
            proof {
                lemma_bits_value_bound(self.data@, start, (i + 1) as nat);
                lemma_pow2_monotonic((i + 1) as nat, 64);
                lemma_pow2_64();
            }
            v = v * 2 + b as u64;
            i = i + 1;
        }
        Ok(v)
    }

    /// Reads an `n`-bit two's-complement field.
    pub fn read_signed(&mut self, n: u32) -> (r: Result<i64, FlacError>)
        requires
            old(self).wf(),
            n <= 40,
        ensures
            final(self).wf(),
            final(self).data@ == old(self).data@,
            old(self).pos <= final(self).pos,
            old(self).pos + n <= bit_len(old(self).data@) ==> r == Ok::<i64, FlacError>(
                sign_extend(bits_value(old(self).data@, old(self).pos as int, n as nat), n as nat)
                    as i64,
            ) && final(self).pos == old(self).pos + n,
            old(self).pos + n > bit_len(old(self).data@) ==> r == Err::<i64, FlacError>(
                FlacError::UnexpectedEnd,
            ),
            r is Ok ==> -pow2(63) <= sign_extend(
                bits_value(old(self).data@, old(self).pos as int, n as nat),
                n as nat,
            ) < pow2(63),
    {
        let u = match self.read_bits(n) {
            Ok(u) => u,
            Err(e) => return Err(e),
        };
        proof {
            lemma_bits_value_bound(old(self).data@, old(self).pos as int, n as nat);
            lemma_pow2_monotonic(n as nat, 63);
            lemma_pow2_63();
            lemma_pow2_monotonic(n as nat, 40);
            assert(pow2(40) == 0x100_0000_0000) by {
                reveal_with_fuel(pow2, 41);
            }
        }
        if n == 0 {
            return Ok(0);
        }
        let half = pow2_u64(n - 1);
        if u >= half {
            let full = pow2_u64(n);
            Ok(u as i64 - full as i64)
        } else {
            Ok(u as i64)
        }
    }

    /// Counts zero bits up to the next one bit, and consumes both.
    pub fn read_unary(&mut self) -> (r: Result<usize, FlacError>)
        requires
            old(self).wf(),
        ensures
            final(self).wf(),
            final(self).data@ == old(self).data@,
            old(self).pos <= final(self).pos,
            r is Ok ==> unary_at(old(self).data@, old(self).pos as int, r->Ok_0 as nat)
                && final(self).pos == old(self).pos + r->Ok_0 + 1,
            r is Err ==> r == Err::<usize, FlacError>(FlacError::UnexpectedEnd) && forall|j: int|
                old(self).pos <= j < bit_len(old(self).data@) ==> bit_at(old(self).data@, j) == 0,
    {
        let ghost start = self.pos as int;
        let mut k: usize = 0;
        loop
            invariant
                self.wf(),
                self.data@ == old(self).data@,
                start == old(self).pos,
                self.pos == start + k,
                forall|j: int| start <= j < start + k ==> bit_at(self.data@, j) == 0,
            decreases bit_len(self.data@) - self.pos,
        {
            let b = self.read_bit();
            match b {
                Ok(b) => {
                    proof {
                        lemma_bit_at_le_one(self.data@, start + k);
                    }
                    if b == 1 {
                        return Ok(k);
                    }
                    k = k + 1;
                },
                Err(e) => {
                    return Err(e);
                },
            }
        }
    }

    /// Skips to the next byte boundary, if not on one.
    pub fn align_to_byte(&mut self)
        requires
            old(self).wf(),
        ensures
            final(self).wf(),
            final(self).data@ == old(self).data@,
            old(self).pos <= final(self).pos,
            final(self).pos == ((old(self).pos + 7) / 8) * 8,
    {
        let rem = self.pos % 8;
        if rem != 0 {
            self.pos = self.pos + (8 - rem);
        }
    }
}

} // verus!
