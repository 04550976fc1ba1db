//! Subframes: the header of each channel's samples, and the constant, verbatim, fixed
//! and linear predictive encodings.
use vstd::prelude::*;
use vstd::arithmetic::power2::{pow2, lemma2_to64, lemma_pow2_strictly_increases};
use crate::bits::{BitReader, spec_read_bits, spec_read_signed, spec_read_unary, pow2_u64};
use crate::error::DecodeError;
use crate::predict::{
    wrap32, fixed_restore, lpc_restore, fixed_predict, lpc_predict, lemma_fixed_restored_unique,
    lemma_lpc_restored_unique,
};
use crate::residual::{spec_verbatim, spec_residual, decode_verbatim, decode_residual, lemma_residual_len, lemma_verbatim_shape};

verus! {

/// How a subframe stores its samples.
#[derive(Debug, Clone, Copy, PartialEq, Eq, Structural)]
pub enum SubFrameType {
    /// One sample stands for the whole block.
    Constant,
    /// Every sample is stored as it is.
    Verbatim,
    /// A fixed polynomial predictor of the given order (0 to 4) and residuals.
    FixedLinear(u32),
    /// A linear predictor of the given order (1 to 32) and residuals.
    Linear(u32),
}

/// The meaning of the 6-bit subframe type field.
pub open spec fn spec_subframe_type(code: nat) -> Result<SubFrameType, DecodeError> {
    if code == 0 {
        Ok(SubFrameType::Constant)
    } else if code == 1 {
        Ok(SubFrameType::Verbatim)
    } else if 8 <= code <= 15 {
        if code - 8 > 4 {
            Err(DecodeError::FixedOrderTooLarge)
        } else {
            Ok(SubFrameType::FixedLinear((code - 8) as u32))
        }
    } else if 32 <= code <= 63 {
        Ok(SubFrameType::Linear((code - 31) as u32))
    } else {
        Err(DecodeError::ReservedSubframeType)
    }
}

/// `x` shifted left by `k` bits within 32 bits; every bit is shifted out from 32 on.
pub open spec fn shl32(x: i32, k: nat) -> i32 {
    if k >= 32 {
        0
    } else {
        wrap32(x * pow2(k))
    }
}

/// Every sample of `s` shifted left by `k` bits.
pub open spec fn shifted(s: Seq<i32>, k: nat) -> Seq<i32> {
    Seq::new(s.len(), |i: int| shl32(s[i], k))
}

/// The 32-slot coefficient window of a linear predictor whose coefficients were read as
/// `cs`: the first one read in the last slot, the next before it, zeros in front.
pub open spec fn coeff_window(cs: Seq<i32>) -> Seq<i32> {
    Seq::new(32, |k: int| if k >= 32 - cs.len() { cs[31 - k] } else { 0i32 })
}

/// The samples of a subframe of type `kind`, `bps` bits wide and `len` long, whose
/// header ends at `p`.
pub open spec fn spec_subframe_body(d: Seq<u8>, p: int, kind: SubFrameType, bps: nat, len: nat) -> Result<(Seq<i32>, int), DecodeError> {
    match kind {
        SubFrameType::Constant => match spec_read_signed(d, p, bps) {
            Err(e) => Err(e),
            Ok((v, q)) => Ok((Seq::new(len, |i: int| v as i32), q)),
        },
        SubFrameType::Verbatim => spec_verbatim(d, p, bps, len),
        SubFrameType::FixedLinear(order) => match spec_verbatim(d, p, bps, order as nat) {
            Err(e) => Err(e),
            Ok((warm, q)) => match spec_residual(d, q, order as nat, len) {
                Err(e) => Err(e),
                Ok((res, q2)) => Ok((fixed_restore(order as nat, warm + res), q2)),
            },
        },
        SubFrameType::Linear(order) => match spec_verbatim(d, p, bps, order as nat) {
            Err(e) => Err(e),
            Ok((warm, q)) => match spec_read_bits(d, q, 4) {
                Err(e) => Err(e),
                Ok((raw_precision, q2)) => if raw_precision + 1 > 15 {
                    Err(DecodeError::ReservedQlpPrecision)
                } else {
                    match spec_read_signed(d, q2, 5) {
                        Err(e) => Err(e),
                        Ok((shift, q3)) => match spec_verbatim(d, q3, raw_precision + 1, order as nat) {
                            Err(e) => Err(e),
                            Ok((cs, q4)) => match spec_residual(d, q4, order as nat, len) {
                                Err(e) => Err(e),
                                Ok((res, q5)) => if shift < 0 {
                                    Err(DecodeError::NegativeLpcShift)
                                } else {
                                    Ok((lpc_restore(order as nat, coeff_window(cs), shift as u32, warm + res), q5))
                                },
                            },
                        },
                    }
                },
            },
        },
    }
}

/// A subframe of `len` samples in a channel of `frame_bps` bits: a zero padding bit, the
/// type, the wasted-bits flag and count, then the samples, shifted left by the count.
#[verifier::opaque]
pub open spec fn spec_subframe(d: Seq<u8>, p: int, frame_bps: nat, len: nat) -> Result<(Seq<i32>, int), DecodeError> {
    match spec_read_bits(d, p, 1) {
        Err(e) => Err(e),
        Ok((pad, q)) => if pad == 1 {
            Err(DecodeError::SubframePadding)
        } else {
            match spec_read_bits(d, q, 6) {
                Err(e) => Err(e),
                Ok((code, q2)) => match spec_subframe_type(code) {
                    Err(e) => Err(e),
                    Ok(kind) => match spec_read_bits(d, q2, 1) {
                        Err(e) => Err(e),
                        Ok((flag, q3)) => match (if flag == 1 { spec_read_unary(d, q3) } else { Ok((0nat, q3)) }) {
                            Err(e) => Err(e),
                            Ok((wasted, q4)) => if wasted > frame_bps {
                                Err(DecodeError::WastedBitsTooLarge)
                            } else if frame_bps - wasted > 32 {
                                Err(DecodeError::SampleWidthTooLarge)
                            } else {
                                match spec_subframe_body(d, q4, kind, (frame_bps - wasted) as nat, len) {
                                    Err(e) => Err(e),
                                    Ok((s, q5)) => Ok((shifted(s, wasted), q5)),
                                }
                            },
                        },
                    },
                },
            }
        },
    }
}

/// What a decoder of a sequence of samples owes: on success the samples that `spec`
/// gives, with the reader after them; on failure the error that `spec` gives.
pub open spec fn yields(spec: Result<(Seq<i32>, int), DecodeError>, r: Result<Vec<i32>, DecodeError>, new_pos: int) -> bool {
    match spec {
        Ok((s, p)) => match r {
            Ok(v) => v@ == s && new_pos == p,
            Err(_) => false,
        },
        Err(e) => r == Err::<Vec<i32>, DecodeError>(e),
    }
}

/// The subframe type that a 6-bit code stands for.
pub fn subframe_type_from_code(code: u32) -> (r: Result<SubFrameType, DecodeError>)
    ensures
        r == spec_subframe_type(code as nat),
{
    if code == 0 {
        Ok(SubFrameType::Constant)
    } else if code == 1 {
        Ok(SubFrameType::Verbatim)
    } else if 8 <= code && code <= 15 {
        let order = code & 0x07;
        assert(order == code - 8) by (bit_vector)
            requires
                8 <= code <= 15,
                order == code & 0x07,
        ;
        if order > 4 {
            Err(DecodeError::FixedOrderTooLarge)
        } else {
            Ok(SubFrameType::FixedLinear(order))
        }
    } else if 32 <= code && code <= 63 {
        assert(code & 0x1f == code - 32) by (bit_vector)
            requires
                32 <= code <= 63,
        ;
        let order = (code & 0x1f) + 1;
        Ok(SubFrameType::Linear(order))
    } else {
        Err(DecodeError::ReservedSubframeType)
    }
}

/// `x` shifted left by `k` bits within 32 bits.
pub fn shl_i32(x: i32, k: u32) -> (r: i32)
    ensures
        r == shl32(x, k as nat),
{
    if k >= 32 {
        return 0;
    }
    let m = pow2_u64(k);
    proof {
        lemma2_to64();
        if k < 31 {
            lemma_pow2_strictly_increases(k as nat, 31);
        }
    }
    assert(-0x4000_0000_0000_0000 <= x as int * m as int <= 0x4000_0000_0000_0000) by (nonlinear_arith)
        requires
            -0x8000_0000 <= x < 0x8000_0000,
            0 < m <= 0x8000_0000,
    ;
    let prod = x as i64 * m as i64;
    #[verifier::truncate] (prod as i32)
}

/// Shifts every sample left by `shift` bits, restoring the wasted low bits.
pub fn samples_shl(shift: u32, buf: &mut Vec<i32>)
    ensures
        final(buf)@ == shifted(old(buf)@, shift as nat),
{
    let n = buf.len();
    let mut i: usize = 0;
    while i < n
        invariant
            n == buf@.len() == old(buf)@.len(),
            i <= n,
            forall|j: int| 0 <= j < i ==> buf@[j] == shl32(old(buf)@[j], shift as nat),
            forall|j: int| i <= j < n ==> buf@[j] == old(buf)@[j],
        decreases n - i,
    {
        buf[i] = shl_i32(buf[i], shift);
        i = i + 1;
    }
    assert(buf@ =~= shifted(old(buf)@, shift as nat));
}

/// A block of `len` copies of one sample of `bps` bits.
pub fn decode_constant(bs: &mut BitReader, bps: u32, len: usize) -> (r: Result<Vec<i32>, DecodeError>)
    requires
        old(bs).wf(),
        bps <= 32,
    ensures
        final(bs).wf(),
        final(bs).bytes() == old(bs).bytes(),
        old(bs).pos() <= final(bs).pos(),
        yields(spec_subframe_body(old(bs).bytes(), old(bs).pos(), SubFrameType::Constant, bps as nat, len as nat), r, final(bs).pos()),
{
    let const_sample = bs.read_signed(bps)?;
    let mut buf: Vec<i32> = Vec::new();
    let mut i: usize = 0;
    while i < len
        invariant
            i <= len,
            buf@.len() == i,
            forall|j: int| 0 <= j < i ==> buf@[j] == const_sample,
        decreases len - i,
    {
        buf.push(const_sample);
        i = i + 1;
    }
    assert(buf@ =~= Seq::new(len as nat, |j: int| const_sample));
    Ok(buf)
}

/// A block of `len` samples of `bps` bits each, stored as they are.
pub fn decode_verbatim_block(bs: &mut BitReader, bps: u32, len: usize) -> (r: Result<Vec<i32>, DecodeError>)
    requires
        old(bs).wf(),
        bps <= 32,
    ensures
        final(bs).wf(),
        final(bs).bytes() == old(bs).bytes(),
        old(bs).pos() <= final(bs).pos(),
        yields(spec_subframe_body(old(bs).bytes(), old(bs).pos(), SubFrameType::Verbatim, bps as nat, len as nat), r, final(bs).pos()),
{
    let mut buf: Vec<i32> = Vec::new();
    decode_verbatim(bs, bps, len, &mut buf)?;
    assert(buf@ =~= Seq::<i32>::empty() + buf@);
    Ok(buf)
}

/// A block of `len` samples coded with the fixed predictor of order `order`: warm-up
/// samples of `bps` bits, then residuals.
pub fn decode_fixed_linear(bs: &mut BitReader, bps: u32, order: u32, len: usize) -> (r: Result<Vec<i32>, DecodeError>)
    requires
        old(bs).wf(),
        bps <= 32,
        order <= 4,
    ensures
        final(bs).wf(),
        final(bs).bytes() == old(bs).bytes(),
        old(bs).pos() <= final(bs).pos(),
        yields(spec_subframe_body(old(bs).bytes(), old(bs).pos(), SubFrameType::FixedLinear(order), bps as nat, len as nat), r, final(bs).pos()),
{
    let mut buf: Vec<i32> = Vec::new();
    decode_verbatim(bs, bps, order as usize, &mut buf)?;
    let ghost warm = buf@;
    let ghost q = bs.pos();
    decode_residual(bs, order, len, &mut buf)?;
    let ghost input = buf@;
    fixed_predict(order, &mut buf);
    proof {
        assert(warm =~= Seq::<i32>::empty() + warm);
        lemma_fixed_restored_unique(order as nat, input, buf@);
    }
    Ok(buf)
}

/// A block of `len` samples coded with a linear predictor of order `order` (1 to 32):
/// warm-up samples of `bps` bits, the coefficient precision and shift, the coefficients,
/// then residuals.
pub fn decode_linear(bs: &mut BitReader, bps: u32, order: u32, len: usize) -> (r: Result<Vec<i32>, DecodeError>)
    requires
        old(bs).wf(),
        bps <= 32,
        1 <= order <= 32,
    ensures
        final(bs).wf(),
        final(bs).bytes() == old(bs).bytes(),
        old(bs).pos() <= final(bs).pos(),
        yields(spec_subframe_body(old(bs).bytes(), old(bs).pos(), SubFrameType::Linear(order), bps as nat, len as nat), r, final(bs).pos()),
{
    let ghost d = bs.bytes();
    let mut buf: Vec<i32> = Vec::new();
    let ghost p_start = bs.pos();
    decode_verbatim(bs, bps, order as usize, &mut buf)?;
    assert(buf@ =~= Seq::<i32>::empty() + buf@);
    proof {
        crate::residual::lemma_verbatim_len(d, p_start, bps as nat, order as nat);
    }
    let raw_precision = bs.read_bits_leq32(4)?;
    proof {
        lemma2_to64();
    }
    let qlp_precision = raw_precision + 1;
    if qlp_precision > 15 {
        return Err(DecodeError::ReservedQlpPrecision);
    }
    let ghost q2 = bs.pos();
    let qlp_coeff_shift = bs.read_signed(5)?;
    proof {
        crate::bits::lemma_bits_value_bound(d, q2, 5);
        crate::bits::lemma_sign_extended_bound(crate::bits::bits_value(d, q2, 5), 5);
    }
    let ghost q3 = bs.pos();
    let mut read_coeffs: Vec<i32> = Vec::new();
    decode_verbatim(bs, qlp_precision, order as usize, &mut read_coeffs)?;
    proof {
        assert(read_coeffs@ =~= Seq::<i32>::empty() + read_coeffs@);
        lemma_verbatim_shape(d, q3, qlp_precision as nat, order as nat);
        lemma2_to64();
        if qlp_precision < 15 {
            lemma_pow2_strictly_increases((qlp_precision - 1) as nat, 14);
        }
    }
    let mut qlp_coeffs = [0i32; 32];
    let mut j: usize = 0;
    while j < order as usize
        invariant
            1 <= order <= 32,
            j <= order,
            read_coeffs@.len() == order,
            forall|k: int| 0 <= k < order ==> -0x4000 <= #[trigger] read_coeffs@[k] < 0x4000,
            forall|k: int| 0 <= k < 32 - j ==> qlp_coeffs@[k] == 0,
            forall|k: int| 32 - j <= k < 32 ==> qlp_coeffs@[k] == read_coeffs@[31 - k],
        decreases order - j,
    {
        qlp_coeffs[31 - j] = read_coeffs[j];
        j = j + 1;
    }
    assert(qlp_coeffs@ =~= crate::subframe::coeff_window(read_coeffs@));
    let ghost warm = buf@;
    let ghost q4 = bs.pos();
    decode_residual(bs, order, len, &mut buf)?;
    proof {
        lemma_residual_len(d, q4, order as nat, len as nat);
    }
    if qlp_coeff_shift >= 0 {
        let ghost input = buf@;
        lpc_predict(order as usize, &qlp_coeffs, qlp_coeff_shift as u32, &mut buf);
        proof {
            lemma_lpc_restored_unique(order as nat, qlp_coeffs@, qlp_coeff_shift as u32, input, buf@);
        }
        Ok(buf)
    } else {
        Err(DecodeError::NegativeLpcShift)
    }
}

/// Decodes one subframe of `len` samples in a channel of `frame_bps` bits.
pub fn read_subframe(bs: &mut BitReader, frame_bps: u32, len: usize) -> (r: Result<Vec<i32>, DecodeError>)
    requires
        old(bs).wf(),
    ensures
        final(bs).wf(),
        final(bs).bytes() == old(bs).bytes(),
        old(bs).pos() <= final(bs).pos(),
        yields(spec_subframe(old(bs).bytes(), old(bs).pos(), frame_bps as nat, len as nat), r, final(bs).pos()),
{
    reveal(spec_subframe);
    if bs.read_bit()? {
        return Err(DecodeError::SubframePadding);
    }
    let subframe_type_enc = bs.read_bits_leq32(6)?;
    let subframe_type = subframe_type_from_code(subframe_type_enc)?;
    let dropped_bps = if bs.read_bit()? {
        bs.read_unary()?
    } else {
        0
    };
    if dropped_bps > frame_bps {
        return Err(DecodeError::WastedBitsTooLarge);
    }
    let bps = frame_bps - dropped_bps;
    if bps > 32 {
        return Err(DecodeError::SampleWidthTooLarge);
    }
    let mut buf = match subframe_type {
        SubFrameType::Constant => decode_constant(bs, bps, len)?,
        SubFrameType::Verbatim => decode_verbatim_block(bs, bps, len)?,
        SubFrameType::FixedLinear(order) => decode_fixed_linear(bs, bps, order, len)?,
        SubFrameType::Linear(order) => decode_linear(bs, bps, order, len)?,
    };
    samples_shl(dropped_bps, &mut buf);
    Ok(buf)
}

} // verus!

verus! {

/// A decoded subframe holds exactly one sample per slot of the block.
pub proof fn lemma_subframe_len(d: Seq<u8>, p: int, frame_bps: nat, len: nat)
    ensures
        spec_subframe(d, p, frame_bps, len) matches Ok((s, q)) ==> s.len() == len,
{
    reveal(spec_subframe);
    match spec_read_bits(d, p, 1) {
        Ok((pad, q)) => match spec_read_bits(d, q, 6) {
            Ok((code, q2)) => match spec_subframe_type(code) {
                Ok(kind) => match spec_read_bits(d, q2, 1) {
                    Ok((flag, q3)) => match (if flag == 1 { spec_read_unary(d, q3) } else { Ok((0nat, q3)) }) {
                        Ok((wasted, q4)) => if wasted <= frame_bps && frame_bps - wasted <= 32 {
                            lemma_body_len(d, q4, kind, (frame_bps - wasted) as nat, len);
                        },
                        Err(_) => {},
                    },
                    Err(_) => {},
                },
                Err(_) => {},
            },
            Err(_) => {},
        },
        Err(_) => {},
    }
}

proof fn lemma_body_len(d: Seq<u8>, p: int, kind: SubFrameType, bps: nat, len: nat)
    ensures
        spec_subframe_body(d, p, kind, bps, len) matches Ok((s, q)) ==> s.len() == len,
{
    match kind {
        SubFrameType::Constant => {},
        SubFrameType::Verbatim => crate::residual::lemma_verbatim_len(d, p, bps, len),
        SubFrameType::FixedLinear(order) => {
            crate::residual::lemma_verbatim_len(d, p, bps, order as nat);
            match spec_verbatim(d, p, bps, order as nat) {
                Ok((warm, q)) => {
                    lemma_residual_len(d, q, order as nat, len);
                    match spec_residual(d, q, order as nat, len) {
                        Ok((res, q2)) => crate::predict::lemma_restore_len(order as nat, Seq::empty(), 0, warm + res),
                        Err(_) => {},
                    }
                },
                Err(_) => {},
            }
        },
        SubFrameType::Linear(order) => {
            crate::residual::lemma_verbatim_len(d, p, bps, order as nat);
            match spec_verbatim(d, p, bps, order as nat) {
                Ok((warm, q)) => match spec_read_bits(d, q, 4) {
                    Ok((raw, q2)) => match spec_read_signed(d, q2, 5) {
                        Ok((shift, q3)) => match spec_verbatim(d, q3, raw + 1, order as nat) {
                            Ok((cs, q4)) => {
                                lemma_residual_len(d, q4, order as nat, len);
                                match spec_residual(d, q4, order as nat, len) {
                                    Ok((res, q5)) => crate::predict::lemma_restore_len(order as nat, coeff_window(cs), shift as u32, warm + res),
                                    Err(_) => {},
                                }
                            },
                            Err(_) => {},
                        },
                        Err(_) => {},
                    },
                    Err(_) => {},
                },
                Err(_) => {},
            }
        },
    }
}

} // verus!
