//! Decoding a whole frame: header, subframes, decorrelation, normalisation to a 32-bit
//! container, and the frame checksum.
use vstd::prelude::*;
use crate::bits::{BitReader, spec_read_bits, align_up};
use crate::crc::{crc16, crc16_of};
use crate::decorrelate::{
    mid_side_left, mid_side_right, decorrelate_left_side, decorrelate_mid_side, decorrelate_right_side,
};
use crate::error::DecodeError;
use crate::header::{ChannelAssignment, FrameHeader, spec_header, read_frame_header};
use crate::predict::wrap32;
use crate::subframe::{spec_subframe, shifted, read_subframe, samples_shl, lemma_subframe_len};

verus! {

/// The value that a frame gives, else the one that the stream gives, else `err`.
pub open spec fn resolve(frame: Option<u32>, stream: Option<u32>, err: DecodeError) -> Result<u32, DecodeError> {
    match frame {
        Some(v) => Ok(v),
        None => match stream {
            Some(v) => Ok(v),
            None => Err(err),
        },
    }
}

/// `count` independent subframes of `len` samples in channels of `bps` bits.
pub open spec fn spec_channels(d: Seq<u8>, p: int, bps: nat, len: nat, count: nat) -> Result<(Seq<Seq<i32>>, int), DecodeError>
    decreases count,
{
    if count == 0 {
        Ok((Seq::empty(), p))
    } else {
        match spec_channels(d, p, bps, len, (count - 1) as nat) {
            Err(e) => Err(e),
            Ok((cs, q)) => match spec_subframe(d, q, bps, len) {
                Err(e) => Err(e),
                Ok((s, q2)) => Ok((cs.push(s), q2)),
            },
        }
    }
}

/// The right channel restored from left and side.
pub open spec fn left_side(left: Seq<i32>, side: Seq<i32>) -> Seq<i32> {
    Seq::new(side.len(), |i: int| wrap32(left[i] - side[i]))
}

/// The left channel restored from right and side.
pub open spec fn right_side(right: Seq<i32>, side: Seq<i32>) -> Seq<i32> {
    Seq::new(side.len(), |i: int| wrap32(right[i] + side[i]))
}

/// The subframes of a frame with the given channel assignment, decorrelated. A side
/// channel is one bit wider than the others.
#[verifier::opaque]
pub open spec fn spec_frame_channels(d: Seq<u8>, p: int, assignment: ChannelAssignment, bps: nat, len: nat) -> Result<(Seq<Seq<i32>>, int), DecodeError> {
    match assignment {
        ChannelAssignment::Independent(count) => spec_channels(d, p, bps, len, count as nat),
        ChannelAssignment::LeftSide => match spec_subframe(d, p, bps, len) {
            Err(e) => Err(e),
            Ok((left, q)) => match spec_subframe(d, q, bps + 1, len) {
                Err(e) => Err(e),
                Ok((side, q2)) => Ok((seq![left, left_side(left, side)], q2)),
            },
        },
        ChannelAssignment::MidSide => match spec_subframe(d, p, bps, len) {
            Err(e) => Err(e),
            Ok((mid, q)) => match spec_subframe(d, q, bps + 1, len) {
                Err(e) => Err(e),
                Ok((side, q2)) => Ok((
                    seq![
                        Seq::new(len, |i: int| wrap32(mid_side_left(mid[i] as int, side[i] as int))),
                        Seq::new(len, |i: int| wrap32(mid_side_right(mid[i] as int, side[i] as int))),
                    ],
                    q2,
                )),
            },
        },
        ChannelAssignment::RightSide => match spec_subframe(d, p, bps + 1, len) {
            Err(e) => Err(e),
            Ok((side, q)) => match spec_subframe(d, q, bps, len) {
                Err(e) => Err(e),
                Ok((right, q2)) => Ok((seq![right_side(right, side), right], q2)),
            },
        },
    }
}

/// Samples of `bps` bits moved to the top of a 32-bit container.
pub open spec fn normalized(s: Seq<i32>, bps: u32) -> Seq<i32> {
    if bps < 32 { shifted(s, (32 - bps) as nat) } else { s }
}

/// The next frame from bit `p` on, in a stream whose defaults are `stream_bps` and
/// `stream_rate`: its channels, normalised to 32 bits, and the position after its
/// footer. The frame starts at a byte boundary; its subframes end at one too, padded
/// with bits that are skipped; the footer's CRC-16 covers the frame from its sync word up
/// to the footer.
pub open spec fn spec_frame(d: Seq<u8>, p: int, stream_bps: Option<u32>, stream_rate: Option<u32>) -> Result<(Seq<Seq<i32>>, int), DecodeError> {
    match spec_header(d, align_up(p)) {
        Err(e) => Err(e),
        Ok((h, start, q)) => match resolve(h.bits_per_sample, stream_bps, DecodeError::MissingBitsPerSample) {
            Err(e) => Err(e),
            Ok(bps) => match resolve(h.sample_rate, stream_rate, DecodeError::MissingSampleRate) {
                Err(e) => Err(e),
                Ok(rate) => if bps > 32 {
                    Err(DecodeError::SampleWidthTooLarge)
                } else {
                    match spec_frame_channels(d, q, h.channel_assignment, bps as nat, h.block_num_samples as nat) {
                        Err(e) => Err(e),
                        Ok((chans, q2)) => match spec_read_bits(d, align_up(q2), 16) {
                            Err(e) => Err(e),
                            Ok((expected, q3)) => if expected != crc16(d.subrange(start / 8, align_up(q2) / 8)) as nat {
                                Err(DecodeError::FrameCrcMismatch)
                            } else {
                                Ok((Seq::new(chans.len(), |c: int| normalized(chans[c], bps)), q3))
                            },
                        },
                    }
                },
            },
        },
    }
}

/// The samples of each channel.
pub open spec fn planes(v: Seq<Vec<i32>>) -> Seq<Seq<i32>> {
    Seq::new(v.len(), |c: int| v[c]@)
}

/// A decoder of consecutive frames of one stream.
pub struct FrameStream {
    stream_bps: Option<u32>,
    stream_sample_rate: Option<u32>,
}

impl FrameStream {
    /// The bits per sample that the stream gives, for frames that do not give their own.
    pub closed spec fn default_bps(&self) -> Option<u32> {
        self.stream_bps
    }

    /// The sample rate that the stream gives, for frames that do not give their own.
    pub closed spec fn default_sample_rate(&self) -> Option<u32> {
        self.stream_sample_rate
    }

    /// A decoder for a stream whose metadata gives these defaults, if any.
    pub fn new(stream_bps: Option<u32>, stream_sample_rate: Option<u32>) -> (r: Self)
        ensures
            r.default_bps() == stream_bps,
            r.default_sample_rate() == stream_sample_rate,
    {
        FrameStream { stream_bps, stream_sample_rate }
    }

    /// Decodes the next frame into `buf`, one vector of samples per channel, each sample
    /// moved to the top of a 32-bit container. On failure `buf` is left as it was, and a
    /// later call searches for the next sync code from where this one stopped.
    pub fn next(&self, reader: &mut BitReader, buf: &mut Vec<Vec<i32>>) -> (r: Result<(), DecodeError>)
        requires
            old(reader).wf(),
        ensures
            final(reader).wf(),
            final(reader).bytes() == old(reader).bytes(),
            old(reader).pos() <= final(reader).pos(),
            match spec_frame(old(reader).bytes(), old(reader).pos(), self.default_bps(), self.default_sample_rate()) {
                Ok((chans, q)) => r is Ok && planes(final(buf)@) == chans && final(reader).pos() == q,
                Err(e) => r == Err::<(), DecodeError>(e) && final(buf)@ == old(buf)@,
            },
    {
        reader.align_to_byte();
        let (header, start) = read_frame_header(reader)?;
        let bits_per_sample = match header.bits_per_sample {
            Some(bps) => bps,
            None => match self.stream_bps {
                Some(bps) => bps,
                None => {
                    return Err(DecodeError::MissingBitsPerSample);
                },
            },
        };
        let _sample_rate = match header.sample_rate {
            Some(rate) => rate,
            None => match self.stream_sample_rate {
                Some(rate) => rate,
                None => {
                    return Err(DecodeError::MissingSampleRate);
                },
            },
        };
        if bits_per_sample > 32 {
            return Err(DecodeError::SampleWidthTooLarge);
        }
        let len = header.block_num_samples as usize;
        let mut chans = read_channels(reader, header.channel_assignment, bits_per_sample, len)?;
        let ghost decoded = planes(chans@);
        normalize(&mut chans, bits_per_sample);
        assert(planes(chans@) =~= Seq::new(decoded.len(), |c: int| normalized(decoded[c], bits_per_sample)));
        reader.align_to_byte();
        let footer_start = reader.position();
        let crc16_computed = crc16_of(reader.data(), start / 8, footer_start / 8);
        let crc16_expected = reader.read_bits_leq32(16)?;
        if crc16_expected != crc16_computed as u32 {
            return Err(DecodeError::FrameCrcMismatch);
        }
        *buf = chans;
        Ok(())
    }
}

proof fn lemma_channels_err_stays(d: Seq<u8>, p: int, bps: nat, len: nat, i: nat, count: nat)
    requires
        i <= count,
        spec_channels(d, p, bps, len, i) is Err,
    ensures
        spec_channels(d, p, bps, len, count) == spec_channels(d, p, bps, len, i),
    decreases count - i,
{
    if i < count {
        lemma_channels_err_stays(d, p, bps, len, i, (count - 1) as nat);
    }
}

/// Reads `channels` independent subframes.
fn read_independent(reader: &mut BitReader, bps: u32, len: usize, channels: u32) -> (r: Result<Vec<Vec<i32>>, DecodeError>)
    requires
        old(reader).wf(),
    ensures
        final(reader).wf(),
        final(reader).bytes() == old(reader).bytes(),
        old(reader).pos() <= final(reader).pos(),
        match spec_channels(old(reader).bytes(), old(reader).pos(), bps as nat, len as nat, channels as nat) {
            Ok((chans, q)) => match r {
                Ok(v) => planes(v@) == chans && final(reader).pos() == q,
                Err(_) => false,
            },
            Err(e) => r == Err::<Vec<Vec<i32>>, DecodeError>(e),
        },
{
    let ghost d = reader.bytes();
    let ghost p_start = reader.pos();
    let mut out: Vec<Vec<i32>> = Vec::new();
    let mut i: u32 = 0;
    assert(planes(out@) =~= Seq::<Seq<i32>>::empty());
    while i < channels
        invariant
            d == old(reader).bytes(),
            p_start == old(reader).pos(),
            reader.wf(),
            reader.bytes() == d,
            old(reader).pos() <= reader.pos(),
            i <= channels,
            spec_channels(d, p_start, bps as nat, len as nat, i as nat) == Ok::<(Seq<Seq<i32>>, int), DecodeError>((planes(out@), reader.pos())),
        decreases channels - i,
    {
        let ghost before = out@;
        let sub = match read_subframe(reader, bps, len) {
            Ok(sub) => sub,
            Err(e) => {
                proof {
                    lemma_channels_err_stays(d, p_start, bps as nat, len as nat, (i + 1) as nat, channels as nat);
                }
                return Err(e);
            },
        };
        out.push(sub);
        assert(planes(out@) =~= planes(before).push(sub@));
        i = i + 1;
    }
    Ok(out)

}

/// Reads the subframes of every channel and undoes the decorrelation of the side modes.
fn read_channels(reader: &mut BitReader, assignment: ChannelAssignment, bps: u32, len: usize) -> (r: Result<Vec<Vec<i32>>, DecodeError>)
    requires
        old(reader).wf(),
        bps <= 32,
    ensures
        final(reader).wf(),
        final(reader).bytes() == old(reader).bytes(),
        old(reader).pos() <= final(reader).pos(),
        match spec_frame_channels(old(reader).bytes(), old(reader).pos(), assignment, bps as nat, len as nat) {
            Ok((chans, q)) => match r {
                Ok(v) => planes(v@) == chans && final(reader).pos() == q,
                Err(_) => false,
            },
            Err(e) => r == Err::<Vec<Vec<i32>>, DecodeError>(e),
        },
{
    reveal(spec_frame_channels);
    let ghost d = reader.bytes();
    let ghost p_start = reader.pos();
    match assignment {
        ChannelAssignment::Independent(channels) => read_independent(reader, bps, len, channels),
        ChannelAssignment::LeftSide => {
            let left = read_subframe(reader, bps, len)?;
            let ghost q = reader.pos();
            let mut side = read_subframe(reader, bps + 1, len)?;
            proof {
                lemma_subframe_len(d, p_start, bps as nat, len as nat);
                lemma_subframe_len(d, q, (bps + 1) as nat, len as nat);
            }
            let ghost s0 = side@;
            decorrelate_left_side(&left, &mut side);
            assert(side@ =~= left_side(left@, s0));
            let mut out: Vec<Vec<i32>> = Vec::new();
            out.push(left);
            out.push(side);
            assert(planes(out@) =~= seq![left@, left_side(left@, s0)]);
            Ok(out)
        },
        ChannelAssignment::MidSide => {
            let mut mid = read_subframe(reader, bps, len)?;
            let ghost q = reader.pos();
            let mut side = read_subframe(reader, bps + 1, len)?;
            proof {
                lemma_subframe_len(d, p_start, bps as nat, len as nat);
                lemma_subframe_len(d, q, (bps + 1) as nat, len as nat);
            }
            let ghost m0 = mid@;
            let ghost s0 = side@;
            decorrelate_mid_side(&mut mid, &mut side);
            assert(mid@ =~= Seq::new(len as nat, |i: int| wrap32(mid_side_left(m0[i] as int, s0[i] as int))));
            assert(side@ =~= Seq::new(len as nat, |i: int| wrap32(mid_side_right(m0[i] as int, s0[i] as int))));
            let mut out: Vec<Vec<i32>> = Vec::new();
            out.push(mid);
            out.push(side);
            assert(planes(out@) =~= seq![mid@, side@]);
            Ok(out)
        },
        ChannelAssignment::RightSide => {
            let mut side = read_subframe(reader, bps + 1, len)?;
            let ghost q = reader.pos();
            let right = read_subframe(reader, bps, len)?;
            proof {
                lemma_subframe_len(d, p_start, (bps + 1) as nat, len as nat);
                lemma_subframe_len(d, q, bps as nat, len as nat);
            }
            let ghost s0 = side@;
            decorrelate_right_side(&right, &mut side);
            assert(side@ =~= right_side(right@, s0));
            let mut out: Vec<Vec<i32>> = Vec::new();
            out.push(side);
            out.push(right);
            assert(planes(out@) =~= seq![right_side(right@, s0), right@]);
            Ok(out)
        },
    }
}

/// Moves every sample of `bps` bits to the top of a 32-bit container.
fn normalize(chans: &mut Vec<Vec<i32>>, bps: u32)
    ensures
        planes(final(chans)@) == Seq::new(old(chans)@.len(), |c: int| normalized(old(chans)@[c]@, bps)),
{
    let n = chans.len();
    let mut c: usize = 0;
    while c < n
        invariant
            n == chans@.len() == old(chans)@.len(),
            c <= n,
            forall|j: int| 0 <= j < c ==> chans@[j]@ == normalized(old(chans)@[j]@, bps),
            forall|j: int| c <= j < n ==> chans@[j] == old(chans)@[j],
        decreases n - c,
    {
        if bps < 32 {
            samples_shl(32 - bps, &mut chans[c]);
        }
        c = c + 1;
    }
    assert(planes(chans@) =~= Seq::new(old(chans)@.len(), |c: int| normalized(old(chans)@[c]@, bps)));
}

} // verus!
