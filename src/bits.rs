//! A most-significant-bit-first reader over a byte buffer, and the meaning of its reads.
use vstd::prelude::*;
use vstd::arithmetic::power2::{pow2, lemma_pow2_unfold, lemma2_to64, lemma_pow2_strictly_increases};
use crate::error::DecodeError;

verus! {

/// Bit `k` of `d`, counting from the most significant bit of the first byte.
pub open spec fn bit_at(d: Seq<u8>, k: int) -> bool {
    (d[k / 8] >> ((7 - k % 8) as u8)) & 1u8 == 1u8
}

/// The unsigned value of the `n` bits of `d` that start at bit `p`, most significant first.
pub open spec fn bits_value(d: Seq<u8>, p: int, n: nat) -> nat
    decreases n,
{
    if n == 0 {
        0
    } else {
        2 * bits_value(d, p, (n - 1) as nat) + if bit_at(d, p + n - 1) { 1nat } else { 0nat }
    }
}

/// Reading `n` bits at `p`: their value and the position after them.
pub open spec fn spec_read_bits(d: Seq<u8>, p: int, n: nat) -> Result<(nat, int), DecodeError> {
    if 0 <= p && p + n <= 8 * d.len() {
        Ok((bits_value(d, p, n), p + n))
    } else {
        Err(DecodeError::EndOfStream)
    }
}

/// The number of zero bits from bit `p` up to the next one bit, if a one bit follows.
pub open spec fn zero_run(d: Seq<u8>, p: int) -> Option<nat>
    decreases 8 * d.len() - p,
{
    if p < 0 || p >= 8 * d.len() {
        None
    } else if bit_at(d, p) {
        Some(0nat)
    } else {
        match zero_run(d, p + 1) {
            Some(n) => Some(n + 1),
            None => None,
        }
    }
}

/// Reading a unary count at `p`: the zero bits before the next one bit, and the position
/// after that one bit.
pub open spec fn spec_read_unary(d: Seq<u8>, p: int) -> Result<(nat, int), DecodeError> {
    match zero_run(d, p) {
        None => Err(DecodeError::EndOfStream),
        Some(n) => if n <= u32::MAX {
            Ok((n, p + n + 1))
        } else {
            Err(DecodeError::UnaryTooLong)
        },
    }
}

/// The first byte boundary at or after bit `p`.
pub open spec fn align_up(p: int) -> int {
    if p % 8 == 0 { p } else { p + 8 - p % 8 }
}

/// A reader of bits, most significant first, over a byte buffer that it owns.
pub struct BitReader {
    data: Vec<u8>,
    pos: usize,
}

impl BitReader {
    /// The bytes read from.
    pub closed spec fn bytes(&self) -> Seq<u8> {
        self.data@
    }

    /// The position of the next bit to read.
    pub closed spec fn pos(&self) -> int {
        self.pos as int
    }

    /// Every bit position of the buffer fits in a `usize`, and the position lies in it.
    pub closed spec fn wf(&self) -> bool {
        &&& 8 * self.data@.len() <= usize::MAX
        &&& self.pos <= 8 * self.data@.len()
    }

    /// A reader at the first bit of `data`.
    pub fn new(data: Vec<u8>) -> (r: BitReader)
        requires
            8 * data@.len() <= usize::MAX,
        ensures
            r.wf(),
            r.bytes() == data@,
            r.pos() == 0,
    {
        BitReader { data, pos: 0 }
    }

    /// The bytes read from.
    pub fn data(&self) -> (r: &Vec<u8>)
        ensures
            r@ == self.bytes(),
    {
        &self.data
    }

    /// The position of the next bit to read.
    pub fn position(&self) -> (r: usize)
        ensures
            r == self.pos(),
            self.wf() ==> r <= 8 * self.bytes().len(),
    {
        self.pos
    }

    fn peek_bit(&self, k: usize) -> (r: bool)
        requires
            self.wf(),
            k < 8 * self.bytes().len(),
        ensures
            r == bit_at(self.bytes(), k as int),
    {
        let b = self.data[k / 8];
        let sh = (7 - k % 8) as u8;
        (b >> sh) & 1u8 == 1u8
    }

    /// Reads one bit.
    pub fn read_bit(&mut self) -> (r: Result<bool, DecodeError>)
        requires
            old(self).wf(),
        ensures
            final(self).wf(),
            final(self).bytes() == old(self).bytes(),
            match spec_read_bits(old(self).bytes(), old(self).pos(), 1) {
                Ok((v, p)) => r == Ok::<bool, DecodeError>(v == 1) && final(self).pos() == p,
                Err(e) => r == Err::<bool, DecodeError>(e) && final(self).pos() == old(self).pos(),
            },
    {
        if self.pos < 8 * self.data.len() {
            let b = self.peek_bit(self.pos);
            self.pos = self.pos + 1;
            assert(bits_value(self.data@, self.pos - 1, 1) == bits_value(self.data@, self.pos - 1, 0) * 2 + if b { 1nat } else { 0nat });
            Ok(b)
        } else {
            Err(DecodeError::EndOfStream)
        }
    }

    /// Reads `n` bits, most significant first, as an unsigned value.
    pub fn read_bits_leq32(&mut self, n: u32) -> (r: Result<u32, DecodeError>)
        requires
            old(self).wf(),
            n <= 32,
        ensures
            final(self).wf(),
            final(self).bytes() == old(self).bytes(),
            match spec_read_bits(old(self).bytes(), old(self).pos(), n as nat) {
                Ok((v, p)) => r == Ok::<u32, DecodeError>(v as u32) && v <= u32::MAX
                    && v < pow2(n as nat) && final(self).pos() == p,
                Err(e) => r == Err::<u32, DecodeError>(e) && final(self).pos() == old(self).pos(),
            },
    {
        if n as usize > 8 * self.data.len() - self.pos {
            return Err(DecodeError::EndOfStream);
        }
        let p_start = self.pos;
        let mut acc: u64 = 0;
        let mut i: u32 = 0;
        proof {
            lemma2_to64();
        }
        while i < n
            invariant
                self.wf(),
                p_start == self.pos,
                i <= n <= 32,
                p_start + n <= 8 * self.data@.len(),
                acc == bits_value(self.data@, p_start as int, i as nat),
                acc < pow2(i as nat),
                pow2(32) == 0x1_0000_0000,
            decreases n - i,
        {
            let b = self.peek_bit(p_start + i as usize);
            proof {
                lemma_pow2_unfold((i + 1) as nat);
                if i + 1 < 32 {
                    lemma_pow2_strictly_increases((i + 1) as nat, 32);
                }
            }
            acc = acc * 2 + if b { 1u64 } else { 0u64 };
            i = i + 1;
        }
        proof {
            if n < 32 {
                lemma_pow2_strictly_increases(n as nat, 32);
            }
        }
        self.pos = p_start + n as usize;
        Ok(acc as u32)
    }

    /// Reads `n` bits as a two's complement value.
    pub fn read_signed(&mut self, n: u32) -> (r: Result<i32, DecodeError>)
        requires
            old(self).wf(),
            n <= 32,
        ensures
            final(self).wf(),
            final(self).bytes() == old(self).bytes(),
            match spec_read_signed(old(self).bytes(), old(self).pos(), n as nat) {
                Ok((v, p)) => r == Ok::<i32, DecodeError>(v as i32) && i32::MIN <= v <= i32::MAX
                    && final(self).pos() == p,
                Err(e) => r == Err::<i32, DecodeError>(e) && final(self).pos() == old(self).pos(),
            },
    {
        let v = self.read_bits_leq32(n)?;
        Ok(sign_extend_leq32_to_i32(v, n))
    }

    /// Reads a unary count: the number of zero bits before the next one bit, which is
    /// consumed too.
    pub fn read_unary(&mut self) -> (r: Result<u32, DecodeError>)
        requires
            old(self).wf(),
        ensures
            final(self).wf(),
            final(self).bytes() == old(self).bytes(),
            match spec_read_unary(old(self).bytes(), old(self).pos()) {
                Ok((v, p)) => r == Ok::<u32, DecodeError>(v as u32) && final(self).pos() == p,
                Err(e) => r == Err::<u32, DecodeError>(e) && final(self).pos() == old(self).pos(),
            },
    {
        let p_start = self.pos;
        let end = 8 * self.data.len();
        let mut k: usize = p_start;
        while k < end && !self.peek_bit(k)
            invariant
                self.wf(),
                p_start == self.pos,
                end == 8 * self.data@.len(),
                p_start <= k <= end,
                zero_run(self.data@, p_start as int) == match zero_run(self.data@, k as int) {
                    Some(m) => Some((m + (k - p_start)) as nat),
                    None => None::<nat>,
                },
            decreases end - k,
        {
            k = k + 1;
        }
        if k == end {
            return Err(DecodeError::EndOfStream);
        }
        let count = k - p_start;
        if count > u32::MAX as usize {
            return Err(DecodeError::UnaryTooLong);
        }
        self.pos = k + 1;
        Ok(count as u32)
    }

    /// Skips to the next byte boundary, unless the position is on one.
    pub fn align_to_byte(&mut self)
        requires
            old(self).wf(),
        ensures
            final(self).wf(),
            final(self).bytes() == old(self).bytes(),
            final(self).pos() == align_up(old(self).pos()),
    {
        if self.pos % 8 != 0 {
            self.pos = self.pos + 8 - self.pos % 8;
        }
    }
}

} // verus!

verus! {

/// The value of the `n` bits `v` read as two's complement; no bits read as zero.
pub open spec fn sign_extended(v: nat, n: nat) -> int {
    if n == 0 {
        0
    } else if v >= pow2((n - 1) as nat) {
        v - pow2(n)
    } else {
        v as int
    }
}

/// Reading `n` bits at `p` as a two's complement value.
pub open spec fn spec_read_signed(d: Seq<u8>, p: int, n: nat) -> Result<(int, int), DecodeError> {
    match spec_read_bits(d, p, n) {
        Ok((v, q)) => Ok((sign_extended(v, n), q)),
        Err(e) => Err(e),
    }
}

/// `n` bits hold a value below `2^n`.
pub proof fn lemma_bits_value_bound(d: Seq<u8>, p: int, n: nat)
    ensures
        bits_value(d, p, n) < pow2(n),
    decreases n,
{
    if n > 0 {
        lemma_bits_value_bound(d, p, (n - 1) as nat);
        lemma_pow2_unfold(n);
    } else {
        vstd::arithmetic::power2::lemma2_to64();
    }
}

/// A two's complement value of `n` bits lies in `-2^(n-1) .. 2^(n-1)`.
pub proof fn lemma_sign_extended_bound(v: nat, n: nat)
    requires
        1 <= n,
        v < pow2(n),
    ensures
        -pow2((n - 1) as nat) <= sign_extended(v, n) < pow2((n - 1) as nat),
{
    lemma_pow2_unfold(n);
}

/// `2^n` as a machine integer.
pub fn pow2_u64(n: u32) -> (r: u64)
    requires
        n <= 63,
    ensures
        r == pow2(n as nat),
{
    let mut r: u64 = 1;
    let mut i: u32 = 0;
    proof {
        vstd::arithmetic::power2::lemma2_to64();
        vstd::arithmetic::power2::lemma2_to64_rest();
    }
    while i < n
        invariant
            i <= n <= 63,
            r == pow2(i as nat),
            pow2(63) == 0x8000_0000_0000_0000,
        decreases n - i,
    {
        proof {
            lemma_pow2_unfold((i + 1) as nat);
            if i + 1 < 63 {
                lemma_pow2_strictly_increases((i + 1) as nat, 63);
            }
        }
        r = r * 2;
        i = i + 1;
    }
    r
}

/// Reads the `width` low bits of `value` as a two's complement number.
pub fn sign_extend_leq32_to_i32(value: u32, width: u32) -> (r: i32)
    requires
        width <= 32,
        value < pow2(width as nat),
    ensures
        r == sign_extended(value as nat, width as nat),
{
    if width == 0 {
        return 0;
    }
    let half = pow2_u64(width - 1);
    let full = pow2_u64(width);
    proof {
        lemma_pow2_unfold(width as nat);
        lemma2_to64();
        if width < 32 {
            lemma_pow2_strictly_increases(width as nat, 32);
        }
    }
    if value as u64 >= half {
        (value as i64 - full as i64) as i32
    } else {
        value as i32
    }
}

} // verus!
