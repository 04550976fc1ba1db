//! The frame header: synchronisation, block size, sample rate, bit depth, channel
//! assignment, the block counter, and the header checksum.
use vstd::prelude::*;
use vstd::arithmetic::power2::{pow2, lemma2_to64, lemma_pow2_adds, lemma_pow2_strictly_increases};
use crate::bits::{BitReader, spec_read_bits, pow2_u64};
use crate::crc::{crc8, crc8_of};
use crate::error::DecodeError;

verus! {

/// Whether frames are numbered by frame or by sample.
#[derive(Debug, Clone, Copy, PartialEq, Eq, Structural)]
pub enum BlockingStrategy {
    /// Every frame but the last holds the same number of samples.
    Fixed,
    /// Frames may hold different numbers of samples.
    Variable,
}

/// The position of a frame in its stream.
#[derive(Debug, Clone, Copy, PartialEq, Eq, Structural)]
pub enum BlockSequence {
    /// The number of the first sample, in a stream of variable block size.
    BySample(u64),
    /// The number of the frame, in a stream of fixed block size.
    ByFrame(u32),
}

/// How the subframes map to channels. For the side modes the side channel holds
/// `left - right`; for mid/side the mid channel holds `(left + right) / 2`, rounded down.
#[derive(Debug, Clone, Copy, PartialEq, Eq, Structural)]
pub enum ChannelAssignment {
    /// The given number of channels, each coded on its own.
    Independent(u32),
    /// Channel 0 is left, channel 1 the side.
    LeftSide,
    /// Channel 0 is the mid, channel 1 the side.
    MidSide,
    /// Channel 0 is the side, channel 1 is right.
    RightSide,
}

/// The decoded fields of a frame header.
#[derive(Debug, Clone, Copy, PartialEq, Eq, Structural)]
pub struct FrameHeader {
    /// Taken from the lowest bit of the sync word.
    pub blocking_strategy: BlockingStrategy,
    /// The frame or sample number.
    pub block_sequence: BlockSequence,
    /// The samples per channel, 1 to 65536.
    pub block_num_samples: u32,
    /// In Hz; `None` leaves it to the stream.
    pub sample_rate: Option<u32>,
    /// How the subframes map to channels.
    pub channel_assignment: ChannelAssignment,
    /// One of 8, 12, 16, 20 and 24; `None` leaves it to the stream.
    pub bits_per_sample: Option<u32>,
}

/// From bit `p` on, the first 16-bit word whose top 14 bits are the sync code, and the
/// position where it starts.
pub open spec fn spec_sync(d: Seq<u8>, p: int) -> Result<(u16, int), DecodeError>
    decreases 8 * d.len() - p,
{
    match spec_read_bits(d, p, 16) {
        Err(e) => Err(e),
        Ok((w, q)) => if (w as u16) & 0xfffc == 0xfff8 {
            Ok((w as u16, p))
        } else {
            spec_sync(d, q)
        },
    }
}

/// The number of bytes of a variable-length integer whose first byte is `b0`, or zero
/// where `b0` cannot start one.
pub open spec fn counter_len(b0: nat) -> nat {
    if b0 < 0x80 {
        1
    } else if b0 < 0xc0 {
        0
    } else if b0 < 0xe0 {
        2
    } else if b0 < 0xf0 {
        3
    } else if b0 < 0xf8 {
        4
    } else if b0 < 0xfc {
        5
    } else if b0 < 0xfe {
        6
    } else if b0 == 0xfe {
        7
    } else {
        0
    }
}

/// `k` continuation bytes (`10xxxxxx`), each adding six bits below `acc`.
pub open spec fn spec_counter_tail(d: Seq<u8>, p: int, acc: nat, k: nat) -> Result<(nat, int), DecodeError>
    decreases k,
{
    if k == 0 {
        Ok((acc, p))
    } else {
        match spec_read_bits(d, p, 8) {
            Err(e) => Err(e),
            Ok((b, q)) => if b / 64 != 2 {
                Err(DecodeError::MalformedCounter)
            } else {
                spec_counter_tail(d, q, acc * 64 + b % 64, (k - 1) as nat)
            },
        }
    }
}

/// A variable-length big-endian integer: a first byte whose leading ones give the
/// number of bytes, then continuation bytes of six bits each.
pub open spec fn spec_counter(d: Seq<u8>, p: int) -> Result<(nat, int), DecodeError> {
    match spec_read_bits(d, p, 8) {
        Err(e) => Err(e),
        Ok((b0, q)) => {
            let n = counter_len(b0);
            if n == 0 {
                Err(DecodeError::MalformedCounter)
            } else if n == 1 {
                Ok((b0, q))
            } else {
                spec_counter_tail(d, q, b0 % pow2((7 - n) as nat), (n - 1) as nat)
            }
        },
    }
}

/// The block size that a 4-bit code stands for, reading the explicit field of codes 6
/// and 7 at `p`.
pub open spec fn spec_block_size(d: Seq<u8>, p: int, code: nat) -> Result<(nat, int), DecodeError> {
    if code == 1 {
        Ok((192, p))
    } else if 2 <= code <= 5 {
        Ok((576 * pow2((code - 2) as nat), p))
    } else if code == 6 {
        match spec_read_bits(d, p, 8) {
            Err(e) => Err(e),
            Ok((v, q)) => Ok((v + 1, q)),
        }
    } else if code == 7 {
        match spec_read_bits(d, p, 16) {
            Err(e) => Err(e),
            Ok((v, q)) => Ok((v + 1, q)),
        }
    } else if 8 <= code <= 15 {
        Ok((256 * pow2((code - 8) as nat), p))
    } else {
        Err(DecodeError::ReservedBlockSize)
    }
}

/// The sample rates of the codes 1 to 11, in Hz.
pub open spec fn sample_rate_table(code: nat) -> nat {
    if code == 1 {
        88_200
    } else if code == 2 {
        176_400
    } else if code == 3 {
        192_000
    } else if code == 4 {
        8_000
    } else if code == 5 {
        16_000
    } else if code == 6 {
        22_050
    } else if code == 7 {
        24_000
    } else if code == 8 {
        32_000
    } else if code == 9 {
        44_100
    } else if code == 10 {
        48_000
    } else {
        96_000
    }
}

/// The sample rate that a 4-bit code stands for, reading the explicit field of codes 12
/// to 14 at `p`; `None` leaves it to the stream.
pub open spec fn spec_sample_rate(d: Seq<u8>, p: int, code: nat) -> Result<(Option<nat>, int), DecodeError> {
    if code == 0 {
        Ok((None, p))
    } else if code <= 11 {
        Ok((Some(sample_rate_table(code)), p))
    } else if code == 12 {
        match spec_read_bits(d, p, 8) {
            Err(e) => Err(e),
            Ok((v, q)) => Ok((Some(v), q)),
        }
    } else if code == 13 {
        match spec_read_bits(d, p, 16) {
            Err(e) => Err(e),
            Ok((v, q)) => Ok((Some(v), q)),
        }
    } else if code == 14 {
        match spec_read_bits(d, p, 16) {
            Err(e) => Err(e),
            Ok((v, q)) => Ok((Some(v * 10), q)),
        }
    } else {
        Err(DecodeError::ReservedSampleRate)
    }
}

/// The bit depth that a 3-bit code stands for; `None` leaves it to the stream.
pub open spec fn spec_bits_per_sample(code: nat) -> Result<Option<u32>, DecodeError> {
    if code == 0 {
        Ok(None)
    } else if code == 1 {
        Ok(Some(8u32))
    } else if code == 2 {
        Ok(Some(12u32))
    } else if code == 4 {
        Ok(Some(16u32))
    } else if code == 5 {
        Ok(Some(20u32))
    } else if code == 6 {
        Ok(Some(24u32))
    } else {
        Err(DecodeError::ReservedBitsPerSample)
    }
}

/// The channel assignment that a 4-bit code stands for.
pub open spec fn spec_channel_assignment(code: nat) -> Result<ChannelAssignment, DecodeError> {
    if code <= 7 {
        Ok(ChannelAssignment::Independent((code + 1) as u32))
    } else if code == 8 {
        Ok(ChannelAssignment::LeftSide)
    } else if code == 9 {
        Ok(ChannelAssignment::RightSide)
    } else if code == 10 {
        Ok(ChannelAssignment::MidSide)
    } else {
        Err(DecodeError::ReservedChannelAssignment)
    }
}

/// The fields of a header whose sync word `sync` starts at bit `start`; the header
/// ends at the returned position, after its checksum byte.
#[verifier::opaque]
pub open spec fn spec_header_fields(d: Seq<u8>, start: int, sync: u16) -> Result<(FrameHeader, int), DecodeError> {
    match spec_read_bits(d, start + 16, 16) {
        Err(e) => Err(e),
        Ok((desc, q)) => {
            let w = desc as u16;
            let strategy = if sync & 1 == 0 { BlockingStrategy::Fixed } else { BlockingStrategy::Variable };
            match spec_counter(d, q) {
                Err(e) => Err(e),
                Ok((n, q2)) => if strategy == BlockingStrategy::Fixed && n > 0x7fff_ffff {
                    Err(DecodeError::FrameNumberTooLarge)
                } else {
                    let sequence = if strategy == BlockingStrategy::Fixed {
                        BlockSequence::ByFrame(n as u32)
                    } else {
                        BlockSequence::BySample(n as u64)
                    };
                    match spec_block_size(d, q2, ((w & 0xf000) >> 12) as nat) {
                        Err(e) => Err(e),
                        Ok((len, q3)) => match spec_sample_rate(d, q3, ((w & 0x0f00) >> 8) as nat) {
                            Err(e) => Err(e),
                            Ok((rate, q4)) => if rate matches Some(r) && (r < 1 || r > 655350) {
                                Err(DecodeError::SampleRateOutOfBounds)
                            } else {
                                match spec_bits_per_sample(((w & 0x000e) >> 1) as nat) {
                                    Err(e) => Err(e),
                                    Ok(bps) => match spec_channel_assignment(((w & 0x00f0) >> 4) as nat) {
                                        Err(e) => Err(e),
                                        Ok(channels) => match spec_read_bits(d, q4, 8) {
                                            Err(e) => Err(e),
                                            Ok((expected, q5)) => if expected != crc8(d.subrange(start / 8, q4 / 8)) as nat {
                                                Err(DecodeError::HeaderCrcMismatch)
                                            } else {
                                                Ok((
                                                    FrameHeader {
                                                        blocking_strategy: strategy,
                                                        block_sequence: sequence,
                                                        block_num_samples: len as u32,
                                                        sample_rate: match rate {
                                                            Some(r) => Some(r as u32),
                                                            None => None,
                                                        },
                                                        channel_assignment: channels,
                                                        bits_per_sample: bps,
                                                    },
                                                    q5,
                                                ))
                                            },
                                        },
                                    },
                                }
                            },
                        },
                    }
                },
            }
        },
    }
}

/// The header of the next frame from bit `p` on: the header, the bit where its sync word
/// starts, and the bit after it.
pub open spec fn spec_header(d: Seq<u8>, p: int) -> Result<(FrameHeader, int, int), DecodeError> {
    match spec_sync(d, p) {
        Err(e) => Err(e),
        Ok((sync, start)) => match spec_header_fields(d, start, sync) {
            Err(e) => Err(e),
            Ok((h, q)) => Ok((h, start, q)),
        },
    }
}

/// Reads 16-bit words until one holds the sync code; returns it and the position where
/// it starts.
fn find_sync(bs: &mut BitReader) -> (r: Result<(u16, usize), DecodeError>)
    requires
        old(bs).wf(),
    ensures
        final(bs).wf(),
        final(bs).bytes() == old(bs).bytes(),
        old(bs).pos() <= final(bs).pos(),
        match spec_sync(old(bs).bytes(), old(bs).pos()) {
            Ok((w, start)) => r == Ok::<(u16, usize), DecodeError>((w, start as usize)) && final(bs).pos() == start + 16,
            Err(e) => r == Err::<(u16, usize), DecodeError>(e),
        },
        r matches Ok((w, s)) ==> s + 16 == final(bs).pos(),
{
    let ghost d = bs.bytes();
    let ghost p_start = bs.pos();
    loop
        invariant
            d == old(bs).bytes(),
            p_start == old(bs).pos(),
            bs.wf(),
            bs.bytes() == d,
            old(bs).pos() <= bs.pos(),
            spec_sync(d, p_start) == spec_sync(d, bs.pos()),
        decreases 8 * d.len() - bs.pos(),
    {
        let start = bs.position();
        let sync = bs.read_bits_leq32(16)?;
        proof {
            lemma2_to64();
        }
        let w = sync as u16;
        if w & 0xfffc == 0xfff8 {
            return Ok((w, start));
        }
    }
}

/// The number of bytes of a variable-length integer that starts with `b0`.
fn counter_len_of(b0: u32) -> (r: u32)
    ensures
        r == counter_len(b0 as nat),
{
    if b0 < 0x80 {
        1
    } else if b0 < 0xc0 {
        0
    } else if b0 < 0xe0 {
        2
    } else if b0 < 0xf0 {
        3
    } else if b0 < 0xf8 {
        4
    } else if b0 < 0xfc {
        5
    } else if b0 < 0xfe {
        6
    } else if b0 == 0xfe {
        7
    } else {
        0
    }
}

/// The block size that the 4-bit code `code` stands for, reading the explicit field of
/// codes 6 and 7.
pub fn read_block_size(bs: &mut BitReader, code: u32) -> (r: Result<u32, DecodeError>)
    requires
        old(bs).wf(),
    ensures
        final(bs).wf(),
        final(bs).bytes() == old(bs).bytes(),
        old(bs).pos() <= final(bs).pos(),
        match spec_block_size(old(bs).bytes(), old(bs).pos(), code as nat) {
            Ok((v, q)) => r == Ok::<u32, DecodeError>(v as u32) && 1 <= v <= 65536 && final(bs).pos() == q,
            Err(e) => r == Err::<u32, DecodeError>(e),
        },
{
    proof {
        lemma2_to64();
    }
    if code == 1 {
        Ok(192)
    } else if 2 <= code && code <= 5 {
        proof {
            if code < 5 {
                lemma_pow2_strictly_increases((code - 2) as nat, 3);
            }
        }
        Ok(576 * pow2_u64(code - 2) as u32)
    } else if code == 6 {
        Ok(bs.read_bits_leq32(8)? + 1)
    } else if code == 7 {
        Ok(bs.read_bits_leq32(16)? + 1)
    } else if 8 <= code && code <= 15 {
        proof {
            if code < 15 {
                lemma_pow2_strictly_increases((code - 8) as nat, 7);
            }
        }
        Ok(256 * pow2_u64(code - 8) as u32)
    } else {
        Err(DecodeError::ReservedBlockSize)
    }
}

/// The sample rate that the 4-bit code `code` stands for, reading the explicit field of
/// codes 12 to 14; `None` leaves it to the stream.
pub fn read_sample_rate(bs: &mut BitReader, code: u32) -> (r: Result<Option<u32>, DecodeError>)
    requires
        old(bs).wf(),
    ensures
        final(bs).wf(),
        final(bs).bytes() == old(bs).bytes(),
        old(bs).pos() <= final(bs).pos(),
        match spec_sample_rate(old(bs).bytes(), old(bs).pos(), code as nat) {
            Ok((Some(v), q)) => r == Ok::<Option<u32>, DecodeError>(Some(v as u32)) && v <= 655350 && final(bs).pos() == q,
            Ok((None, q)) => r == Ok::<Option<u32>, DecodeError>(None) && final(bs).pos() == q,
            Err(e) => r == Err::<Option<u32>, DecodeError>(e),
        },
{
    proof {
        lemma2_to64();
    }
    match code {
        0x0 => Ok(None),
        0x1 => Ok(Some(88_200)),
        0x2 => Ok(Some(176_400)),
        0x3 => Ok(Some(192_000)),
        0x4 => Ok(Some(8_000)),
        0x5 => Ok(Some(16_000)),
        0x6 => Ok(Some(22_050)),
        0x7 => Ok(Some(24_000)),
        0x8 => Ok(Some(32_000)),
        0x9 => Ok(Some(44_100)),
        0xa => Ok(Some(48_000)),
        0xb => Ok(Some(96_000)),
        0xc => Ok(Some(bs.read_bits_leq32(8)?)),
        0xd => Ok(Some(bs.read_bits_leq32(16)?)),
        0xe => Ok(Some(bs.read_bits_leq32(16)? * 10)),
        _ => Err(DecodeError::ReservedSampleRate),
    }
}

/// The bit depth that the 3-bit code `code` stands for; `None` leaves it to the stream.
pub fn bits_per_sample_from_code(code: u32) -> (r: Result<Option<u32>, DecodeError>)
    ensures
        r == spec_bits_per_sample(code as nat),
{
    match code {
        0x0 => Ok(None),
        0x1 => Ok(Some(8)),
        0x2 => Ok(Some(12)),
        0x4 => Ok(Some(16)),
        0x5 => Ok(Some(20)),
        0x6 => Ok(Some(24)),
        _ => Err(DecodeError::ReservedBitsPerSample),
    }
}

/// The channel assignment that the 4-bit code `code` stands for.
pub fn channel_assignment_from_code(code: u32) -> (r: Result<ChannelAssignment, DecodeError>)
    ensures
        r == spec_channel_assignment(code as nat),
{
    if code <= 7 {
        Ok(ChannelAssignment::Independent(code + 1))
    } else if code == 8 {
        Ok(ChannelAssignment::LeftSide)
    } else if code == 9 {
        Ok(ChannelAssignment::RightSide)
    } else if code == 10 {
        Ok(ChannelAssignment::MidSide)
    } else {
        Err(DecodeError::ReservedChannelAssignment)
    }
}

/// Reads a variable-length big-endian integer of one to seven bytes.
pub fn utf8_decode_be_u64(bs: &mut BitReader) -> (r: Result<u64, DecodeError>)
    requires
        old(bs).wf(),
    ensures
        final(bs).wf(),
        final(bs).bytes() == old(bs).bytes(),
        old(bs).pos() <= final(bs).pos(),
        match spec_counter(old(bs).bytes(), old(bs).pos()) {
            Ok((v, q)) => r == Ok::<u64, DecodeError>(v as u64) && v <= u64::MAX && final(bs).pos() == q,
            Err(e) => r == Err::<u64, DecodeError>(e),
        },
{
    let ghost d = bs.bytes();
    let b0 = bs.read_bits_leq32(8)?;
    proof {
        lemma2_to64();
    }
    let n = counter_len_of(b0);
    if n == 0 {
        return Err(DecodeError::MalformedCounter);
    }
    if n == 1 {
        return Ok(b0 as u64);
    }
    let m = pow2_u64(7 - n);
    let mut acc: u64 = b0 as u64 % m;
    let ghost q0 = bs.pos();
    let ghost acc0 = acc as nat;
    let mut i: u32 = 0;
    proof {
        vstd::arithmetic::power2::lemma2_to64_rest();
        if 7 - n < 6 {
            lemma_pow2_strictly_increases((7 - n) as nat, 6);
        }
    }
    assert(spec_counter(d, old(bs).pos()) == spec_counter_tail(d, q0, acc0, (n - 1) as nat));
    while i < n - 1
        invariant
            d == old(bs).bytes(),
            bs.wf(),
            bs.bytes() == d,
            2 <= n <= 7,
            i <= n - 1,
            old(bs).pos() <= bs.pos(),
            acc < pow2((6 * (i + 1)) as nat),
            pow2(42) == 0x400_0000_0000,
            spec_counter(d, old(bs).pos()) == spec_counter_tail(d, q0, acc0, (n - 1) as nat),
            spec_counter_tail(d, q0, acc0, (n - 1) as nat) == spec_counter_tail(d, bs.pos(), acc as nat, (n - 1 - i) as nat),
        decreases n - 1 - i,
    {
        let b = bs.read_bits_leq32(8)?;
        if b / 64 != 2 {
            return Err(DecodeError::MalformedCounter);
        }
        proof {
            lemma2_to64();
            lemma_pow2_adds((6 * (i + 1)) as nat, 6);
            assert((6 * (i + 1)) as nat + 6 == (6 * (i + 2)) as nat);
            if 6 * (i + 2) < 42 {
                lemma_pow2_strictly_increases((6 * (i + 2)) as nat, 42);
            }
            assert(acc * 64 + 63 < pow2((6 * (i + 2)) as nat));
        }
        acc = acc * 64 + (b % 64) as u64;
        i = i + 1;
    }
    Ok(acc)
}

/// The block sizes of the tabled codes: 192 for code 1, `576 * 2^(n - 2)` for codes 2 to
/// 5 and `256 * 2^(n - 8)` for codes 8 to 15, none of which reads a field.
pub proof fn lemma_block_size_codes(d: Seq<u8>, p: int)
    ensures
        spec_block_size(d, p, 1) == Ok::<(nat, int), DecodeError>((192nat, p)),
        spec_block_size(d, p, 2) == Ok::<(nat, int), DecodeError>((576nat, p)),
        spec_block_size(d, p, 3) == Ok::<(nat, int), DecodeError>((1152nat, p)),
        spec_block_size(d, p, 4) == Ok::<(nat, int), DecodeError>((2304nat, p)),
        spec_block_size(d, p, 5) == Ok::<(nat, int), DecodeError>((4608nat, p)),
        spec_block_size(d, p, 8) == Ok::<(nat, int), DecodeError>((256nat, p)),
        spec_block_size(d, p, 9) == Ok::<(nat, int), DecodeError>((512nat, p)),
        spec_block_size(d, p, 10) == Ok::<(nat, int), DecodeError>((1024nat, p)),
        spec_block_size(d, p, 11) == Ok::<(nat, int), DecodeError>((2048nat, p)),
        spec_block_size(d, p, 12) == Ok::<(nat, int), DecodeError>((4096nat, p)),
        spec_block_size(d, p, 13) == Ok::<(nat, int), DecodeError>((8192nat, p)),
        spec_block_size(d, p, 14) == Ok::<(nat, int), DecodeError>((16384nat, p)),
        spec_block_size(d, p, 15) == Ok::<(nat, int), DecodeError>((32768nat, p)),
        spec_block_size(d, p, 0) == Err::<(nat, int), DecodeError>(DecodeError::ReservedBlockSize),
{
    lemma2_to64();
}

/// The sample rates of the tabled codes, which read no field, and the explicit fields of
/// codes 12 and 13 in Hz and of code 14 in tens of Hz.
pub proof fn lemma_sample_rate_codes(d: Seq<u8>, p: int)
    ensures
        spec_sample_rate(d, p, 0) == Ok::<(Option<nat>, int), DecodeError>((None, p)),
        spec_sample_rate(d, p, 1) == Ok::<(Option<nat>, int), DecodeError>((Some(88_200nat), p)),
        spec_sample_rate(d, p, 2) == Ok::<(Option<nat>, int), DecodeError>((Some(176_400nat), p)),
        spec_sample_rate(d, p, 3) == Ok::<(Option<nat>, int), DecodeError>((Some(192_000nat), p)),
        spec_sample_rate(d, p, 4) == Ok::<(Option<nat>, int), DecodeError>((Some(8_000nat), p)),
        spec_sample_rate(d, p, 5) == Ok::<(Option<nat>, int), DecodeError>((Some(16_000nat), p)),
        spec_sample_rate(d, p, 6) == Ok::<(Option<nat>, int), DecodeError>((Some(22_050nat), p)),
        spec_sample_rate(d, p, 7) == Ok::<(Option<nat>, int), DecodeError>((Some(24_000nat), p)),
        spec_sample_rate(d, p, 8) == Ok::<(Option<nat>, int), DecodeError>((Some(32_000nat), p)),
        spec_sample_rate(d, p, 9) == Ok::<(Option<nat>, int), DecodeError>((Some(44_100nat), p)),
        spec_sample_rate(d, p, 10) == Ok::<(Option<nat>, int), DecodeError>((Some(48_000nat), p)),
        spec_sample_rate(d, p, 11) == Ok::<(Option<nat>, int), DecodeError>((Some(96_000nat), p)),
        spec_read_bits(d, p, 8) matches Ok((v, q)) ==> spec_sample_rate(d, p, 12) == Ok::<(Option<nat>, int), DecodeError>((Some(v), q)),
        spec_read_bits(d, p, 16) matches Ok((v, q)) ==> spec_sample_rate(d, p, 13) == Ok::<(Option<nat>, int), DecodeError>((Some(v), q)),
        spec_read_bits(d, p, 16) matches Ok((v, q)) ==> spec_sample_rate(d, p, 14) == Ok::<(Option<nat>, int), DecodeError>((Some(10 * v), q)),
        spec_sample_rate(d, p, 15) == Err::<(Option<nat>, int), DecodeError>(DecodeError::ReservedSampleRate),
{
}

/// Finds and reads the next frame header: the header, and the bit where its sync word
/// starts.
pub fn read_frame_header(bs: &mut BitReader) -> (r: Result<(FrameHeader, usize), DecodeError>)
    requires
        old(bs).wf(),
    ensures
        final(bs).wf(),
        final(bs).bytes() == old(bs).bytes(),
        old(bs).pos() <= final(bs).pos(),
        match spec_header(old(bs).bytes(), old(bs).pos()) {
            Ok((h, start, q)) => r == Ok::<(FrameHeader, usize), DecodeError>((h, start as usize)) && final(bs).pos() == q
                && 0 <= start <= q,
            Err(e) => r == Err::<(FrameHeader, usize), DecodeError>(e),
        },
        r matches Ok((h, s)) ==> s <= final(bs).pos(),
{
    reveal(spec_header_fields);
    let ghost d = bs.bytes();
    let (sync, start) = find_sync(bs)?;
    let blocking_strategy = if sync & 0x1 == 0 {
        BlockingStrategy::Fixed
    } else {
        BlockingStrategy::Variable
    };
    proof {
        lemma2_to64();
    }
    let desc = bs.read_bits_leq32(16)? as u16;
    let block_size_enc = ((desc & 0xf000) >> 12) as u32;
    let sample_rate_enc = ((desc & 0x0f00) >> 8) as u32;
    let channels_enc = ((desc & 0x00f0) >> 4) as u32;
    let bits_per_sample_enc = ((desc & 0x000e) >> 1) as u32;
    let block_sequence = match blocking_strategy {
        BlockingStrategy::Fixed => {
            let frame = utf8_decode_be_u64(bs)?;
            if frame > 0x7fff_ffff {
                return Err(DecodeError::FrameNumberTooLarge);
            }
            BlockSequence::ByFrame(frame as u32)
        },
        BlockingStrategy::Variable => BlockSequence::BySample(utf8_decode_be_u64(bs)?),
    };
    let block_num_samples = read_block_size(bs, block_size_enc)?;
    let sample_rate = read_sample_rate(bs, sample_rate_enc)?;
    if let Some(rate) = sample_rate {
        if rate < 1 || rate > 655350 {
            return Err(DecodeError::SampleRateOutOfBounds);
        }
    }
    let bits_per_sample = bits_per_sample_from_code(bits_per_sample_enc)?;
    let channel_assignment = channel_assignment_from_code(channels_enc)?;
    let crc_end = bs.position();
    assert(start <= crc_end);
    assert(crc_end <= 8 * d.len());
    let crc8_computed = crc8_of(bs.data(), start / 8, crc_end / 8);
    let crc8_expected = bs.read_bits_leq32(8)?;
    if crc8_expected != crc8_computed as u32 {
        return Err(DecodeError::HeaderCrcMismatch);
    }
    Ok((
        FrameHeader {
            blocking_strategy,
            block_sequence,
            block_num_samples,
            sample_rate,
            channel_assignment,
            bits_per_sample,
        },
        start,
    ))
}

} // verus!
