use sonata_codecs_flac::bits::BitReader;
use sonata_codecs_flac::error::DecodeError;
use sonata_codecs_flac::framing::FrameStream;
use sonata_codecs_flac::header::{
    bits_per_sample_from_code, channel_assignment_from_code, read_block_size, read_frame_header,
    read_sample_rate, utf8_decode_be_u64, BlockSequence, BlockingStrategy, ChannelAssignment,
};
use sonata_codecs_flac::subframe::{read_subframe, subframe_type_from_code, SubFrameType};

fn crc8(bytes: &[u8]) -> u8 {
    let mut c: u8 = 0;
    for &b in bytes {
        c ^= b;
        for _ in 0..8 {
            c = if c & 0x80 != 0 { (c << 1) ^ 0x07 } else { c << 1 };
        }
    }
    c
}

fn crc16(bytes: &[u8]) -> u16 {
    let mut c: u16 = 0;
    for &b in bytes {
        c ^= (b as u16) << 8;
        for _ in 0..8 {
            c = if c & 0x8000 != 0 { (c << 1) ^ 0x8005 } else { c << 1 };
        }
    }
    c
}

/// A mono frame of 192 samples at 16 bits and 44100 Hz, stored as one constant.
fn constant_frame(sample: u16) -> Vec<u8> {
    let mut f = vec![0xff, 0xf8, 0x1d, 0x08, 0x00, 0xac, 0x44];
    let h = crc8(&f);
    f.push(h);
    f.push(0x00);
    f.push((sample >> 8) as u8);
    f.push(sample as u8);
    let c = crc16(&f);
    f.push((c >> 8) as u8);
    f.push(c as u8);
    f
}

fn decode(bytes: Vec<u8>, stream_bps: Option<u32>, stream_rate: Option<u32>) -> Result<Vec<Vec<i32>>, DecodeError> {
    let stream = FrameStream::new(stream_bps, stream_rate);
    let mut reader = BitReader::new(bytes);
    let mut buf = Vec::new();
    stream.next(&mut reader, &mut buf).map(|_| buf)
}

#[test]
fn constant_frame_decodes_end_to_end() {
    let chans = decode(constant_frame(0x1234), None, None).unwrap();
    assert_eq!(chans.len(), 1);
    assert_eq!(chans[0].len(), 192);
    assert!(chans[0].iter().all(|&s| s == 0x1234_0000));
}

#[test]
fn negative_constant_is_sign_extended_then_normalised() {
    let chans = decode(constant_frame(0xfffb), None, None).unwrap();
    assert!(chans[0].iter().all(|&s| s == -5 << 16));
}

#[test]
fn garbage_before_sync_is_skipped() {
    let mut bytes = vec![0x12, 0x34];
    bytes.extend(constant_frame(7));
    let chans = decode(bytes, None, None).unwrap();
    assert!(chans[0].iter().all(|&s| s == 7 << 16));
}

#[test]
fn header_bit_flips_fail_the_header_checksum() {
    let frame = constant_frame(0x1234);
    // The frame number's low bits, the explicit sample rate and the checksum byte itself.
    let positions: Vec<usize> = (33..40).chain(40..56).chain(56..64).collect();
    for bit in positions {
        let mut bad = frame.clone();
        bad[bit / 8] ^= 0x80 >> (bit % 8);
        assert_eq!(decode(bad, None, None), Err(DecodeError::HeaderCrcMismatch), "bit {}", bit);
    }
}

#[test]
fn footer_and_payload_flips_fail_the_frame_checksum() {
    let frame = constant_frame(0x1234);
    let n = frame.len();
    let mut positions: Vec<usize> = ((n - 2) * 8..n * 8).collect();
    positions.extend(80..88);
    for bit in positions {
        let mut bad = frame.clone();
        bad[bit / 8] ^= 0x80 >> (bit % 8);
        assert_eq!(decode(bad, None, None), Err(DecodeError::FrameCrcMismatch), "bit {}", bit);
    }
}

#[test]
fn stream_defaults_fill_in_missing_fields() {
    // Sample rate and bit depth codes 0: taken from the stream.
    let mut f = vec![0xff, 0xf8, 0x10, 0x00, 0x00];
    let h = crc8(&f);
    f.push(h);
    f.extend([0x00, 0x00, 0x09]);
    let c = crc16(&f);
    f.push((c >> 8) as u8);
    f.push(c as u8);
    assert_eq!(decode(f.clone(), None, Some(8000)), Err(DecodeError::MissingBitsPerSample));
    assert_eq!(decode(f.clone(), Some(16), None), Err(DecodeError::MissingSampleRate));
    let chans = decode(f, Some(16), Some(8000)).unwrap();
    assert!(chans[0].iter().all(|&s| s == 9 << 16));
}

#[test]
fn empty_input_ends_the_stream() {
    assert_eq!(decode(vec![], None, None), Err(DecodeError::EndOfStream));
}

#[test]
fn header_fields_are_read() {
    let mut f = vec![0xff, 0xf9, 0x1d, 0x08, 0xc2, 0x80, 0xac, 0x44];
    let h = crc8(&f);
    f.push(h);
    let mut reader = BitReader::new(f);
    let (header, start) = read_frame_header(&mut reader).unwrap();
    assert_eq!(start, 0);
    assert_eq!(header.blocking_strategy, BlockingStrategy::Variable);
    assert_eq!(header.block_sequence, BlockSequence::BySample(0x80));
    assert_eq!(header.block_num_samples, 192);
    assert_eq!(header.sample_rate, Some(44100));
    assert_eq!(header.bits_per_sample, Some(16));
    assert_eq!(header.channel_assignment, ChannelAssignment::Independent(1));
    assert_eq!(reader.position(), 72);
}

#[test]
fn frame_number_above_31_bits_is_rejected() {
    // 0xfe opens a seven-byte counter; 36 bits of ones.
    let f = vec![0xff, 0xf8, 0x1d, 0x08, 0xfe, 0xbf, 0xbf, 0xbf, 0xbf, 0xbf, 0xbf];
    let mut reader = BitReader::new(f);
    assert_eq!(read_frame_header(&mut reader).map(|_| ()), Err(DecodeError::FrameNumberTooLarge));
}

#[test]
fn counter_decoding() {
    let mut r = BitReader::new(vec![0x7f]);
    assert_eq!(utf8_decode_be_u64(&mut r), Ok(0x7f));
    let mut r = BitReader::new(vec![0xe2, 0x82, 0xac]);
    assert_eq!(utf8_decode_be_u64(&mut r), Ok(0x20ac));
    let mut r = BitReader::new(vec![0x80]);
    assert_eq!(utf8_decode_be_u64(&mut r), Err(DecodeError::MalformedCounter));
    let mut r = BitReader::new(vec![0xc2, 0x41]);
    assert_eq!(utf8_decode_be_u64(&mut r), Err(DecodeError::MalformedCounter));
}

#[test]
fn block_size_table() {
    let table = [
        (1u32, 192u32), (2, 576), (3, 1152), (4, 2304), (5, 4608),
        (8, 256), (9, 512), (10, 1024), (11, 2048), (12, 4096), (13, 8192), (14, 16384), (15, 32768),
    ];
    for (code, size) in table {
        let mut r = BitReader::new(vec![]);
        assert_eq!(read_block_size(&mut r, code), Ok(size));
    }
    let mut r = BitReader::new(vec![0x3f]);
    assert_eq!(read_block_size(&mut r, 6), Ok(64));
    let mut r = BitReader::new(vec![0xff, 0xff]);
    assert_eq!(read_block_size(&mut r, 7), Ok(65536));
    let mut r = BitReader::new(vec![]);
    assert_eq!(read_block_size(&mut r, 0), Err(DecodeError::ReservedBlockSize));
}

#[test]
fn sample_rate_table() {
    let table = [
        (1u32, 88_200u32), (2, 176_400), (3, 192_000), (4, 8_000), (5, 16_000), (6, 22_050),
        (7, 24_000), (8, 32_000), (9, 44_100), (10, 48_000), (11, 96_000),
    ];
    for (code, rate) in table {
        let mut r = BitReader::new(vec![]);
        assert_eq!(read_sample_rate(&mut r, code), Ok(Some(rate)));
    }
    let mut r = BitReader::new(vec![]);
    assert_eq!(read_sample_rate(&mut r, 0), Ok(None));
    let mut r = BitReader::new(vec![0x30]);
    assert_eq!(read_sample_rate(&mut r, 12), Ok(Some(0x30)));
    let mut r = BitReader::new(vec![0x1f, 0x40]);
    assert_eq!(read_sample_rate(&mut r, 13), Ok(Some(8000)));
    let mut r = BitReader::new(vec![0x11, 0x3a]);
    assert_eq!(read_sample_rate(&mut r, 14), Ok(Some(44100)));
    let mut r = BitReader::new(vec![]);
    assert_eq!(read_sample_rate(&mut r, 15), Err(DecodeError::ReservedSampleRate));
}

#[test]
fn zero_sample_rate_is_out_of_bounds() {
    let mut f = vec![0xff, 0xf8, 0x1c, 0x08, 0x00, 0x00];
    let h = crc8(&f);
    f.push(h);
    let mut reader = BitReader::new(f);
    assert_eq!(read_frame_header(&mut reader).map(|_| ()), Err(DecodeError::SampleRateOutOfBounds));
}

#[test]
fn code_tables() {
    assert_eq!(bits_per_sample_from_code(0), Ok(None));
    assert_eq!(bits_per_sample_from_code(1), Ok(Some(8)));
    assert_eq!(bits_per_sample_from_code(6), Ok(Some(24)));
    assert_eq!(bits_per_sample_from_code(3), Err(DecodeError::ReservedBitsPerSample));
    assert_eq!(channel_assignment_from_code(7), Ok(ChannelAssignment::Independent(8)));
    assert_eq!(channel_assignment_from_code(8), Ok(ChannelAssignment::LeftSide));
    assert_eq!(channel_assignment_from_code(9), Ok(ChannelAssignment::RightSide));
    assert_eq!(channel_assignment_from_code(10), Ok(ChannelAssignment::MidSide));
    assert_eq!(channel_assignment_from_code(11), Err(DecodeError::ReservedChannelAssignment));
    assert_eq!(subframe_type_from_code(0), Ok(SubFrameType::Constant));
    assert_eq!(subframe_type_from_code(1), Ok(SubFrameType::Verbatim));
    assert_eq!(subframe_type_from_code(10), Ok(SubFrameType::FixedLinear(2)));
    assert_eq!(subframe_type_from_code(13), Err(DecodeError::FixedOrderTooLarge));
    assert_eq!(subframe_type_from_code(32), Ok(SubFrameType::Linear(1)));
    assert_eq!(subframe_type_from_code(63), Ok(SubFrameType::Linear(32)));
    assert_eq!(subframe_type_from_code(2), Err(DecodeError::ReservedSubframeType));
}

#[test]
fn subframe_with_wasted_bits_and_verbatim_samples() {
    // Padding 0, verbatim type, wasted flag 1 with unary count 1 ("01"), then two 3-bit
    // samples 011 and 101 in a 4-bit channel.
    let mut r = BitReader::new(vec![0b0000_0011, 0b0101_1101]);
    assert_eq!(read_subframe(&mut r, 4, 2), Ok(vec![6, -6]));
}

#[test]
fn subframe_errors() {
    let mut r = BitReader::new(vec![0x80]);
    assert_eq!(read_subframe(&mut r, 16, 4), Err(DecodeError::SubframePadding));
    // Wasted flag with five wasted bits in a four-bit channel.
    let mut r = BitReader::new(vec![0b0000_0001, 0b0000_0100]);
    assert_eq!(read_subframe(&mut r, 4, 4), Err(DecodeError::WastedBitsTooLarge));
    let mut r = BitReader::new(vec![0x00, 0x00, 0x00, 0x00, 0x00]);
    assert_eq!(read_subframe(&mut r, 33, 4), Err(DecodeError::SampleWidthTooLarge));
}

#[test]
fn fixed_subframe_decodes_through_predictor() {
    // Padding 0, type 001010 (fixed order 2), no wasted bits; warm-up 8-bit samples 1, 2;
    // residual method 00, partition order 0000, parameter 0000, two residuals 0 ("1", "1").
    let bits = "0 001010 0 00000001 00000010 00 0000 0000 1 1";
    let mut bytes = Vec::new();
    let mut cur = 0u8;
    let mut n = 0;
    for c in bits.chars().filter(|c| !c.is_whitespace()) {
        cur = (cur << 1) | if c == '1' { 1 } else { 0 };
        n += 1;
        if n == 8 {
            bytes.push(cur);
            cur = 0;
            n = 0;
        }
    }
    if n > 0 {
        bytes.push(cur << (8 - n));
    }
    let mut r = BitReader::new(bytes);
    assert_eq!(read_subframe(&mut r, 8, 4), Ok(vec![1, 2, 3, 4]));
}

#[test]
fn negative_lpc_shift_is_unsupported() {
    // Linear order 1: type 100000; warm-up 8 bits; precision 0000 (1 bit); shift 11111 (-1);
    // coefficient 0; residual method 00, order 0000, parameter 0000, one residual "1".
    let bits = "0 100000 0 00000101 0000 11111 0 00 0000 0000 1";
    let mut bytes = Vec::new();
    let mut cur = 0u8;
    let mut n = 0;
    for c in bits.chars().filter(|c| !c.is_whitespace()) {
        cur = (cur << 1) | if c == '1' { 1 } else { 0 };
        n += 1;
        if n == 8 {
            bytes.push(cur);
            cur = 0;
            n = 0;
        }
    }
    if n > 0 {
        bytes.push(cur << (8 - n));
    }
    let mut r = BitReader::new(bytes);
    let e = read_subframe(&mut r, 8, 2).unwrap_err();
    assert_eq!(e, DecodeError::NegativeLpcShift);
    assert!(e.is_unsupported());
    assert!(!DecodeError::HeaderCrcMismatch.is_unsupported());
}

fn pack_bits(bits: &str) -> Vec<u8> {
    let mut bytes = Vec::new();
    let mut cur = 0u8;
    let mut n = 0;
    for c in bits.chars().filter(|c| !c.is_whitespace()) {
        cur = (cur << 1) | if c == '1' { 1 } else { 0 };
        n += 1;
        if n == 8 {
            bytes.push(cur);
            cur = 0;
            n = 0;
        }
    }
    if n > 0 {
        bytes.push(cur << (8 - n));
    }
    bytes
}

/// A two-sample stereo frame at 8 bits with the given channel code, whose two verbatim
/// subframes hold the bits `first` and `second`.
fn stereo_frame(channel_code: u8, first: &str, second: &str) -> Vec<u8> {
    // Block size code 6 (explicit 8-bit size minus one), sample rate code 4 (8000 Hz),
    // bit depth code 1 (8 bits).
    let mut f = vec![0xff, 0xf8, 0x64, (channel_code << 4) | 0x02, 0x00, 0x01];
    let h = crc8(&f);
    f.push(h);
    let body = format!("0 000001 0 {} 0 000001 0 {}", first, second);
    f.extend(pack_bits(&body));
    let c = crc16(&f);
    f.push((c >> 8) as u8);
    f.push(c as u8);
    f
}

#[test]
fn mid_side_frame_restores_left_and_right() {
    // Mid 10 and -3 (8 bits), side 3 and -1 (9 bits).
    let f = stereo_frame(10, "00001010 11111101", "000000011 111111111");
    let chans = decode(f, None, None).unwrap();
    assert_eq!(chans, vec![vec![12 << 24, -3 << 24], vec![9 << 24, -2 << 24]]);
}

#[test]
fn left_side_frame_restores_right() {
    // Left 10 and -4, side 3 and -6.
    let f = stereo_frame(8, "00001010 11111100", "000000011 111111010");
    let chans = decode(f, None, None).unwrap();
    assert_eq!(chans, vec![vec![10 << 24, -4 << 24], vec![7 << 24, 2 << 24]]);
}

#[test]
fn right_side_frame_restores_left() {
    // Side (9 bits) 3 and -6 first, right 7 and 2 second.
    let f = stereo_frame(9, "000000011 111111010", "00000111 00000010");
    let chans = decode(f, None, None).unwrap();
    assert_eq!(chans, vec![vec![10 << 24, -4 << 24], vec![7 << 24, 2 << 24]]);
}

#[test]
fn reserved_channel_assignment_in_frame() {
    let mut f = vec![0xff, 0xf8, 0x64, 0xb2, 0x00, 0x01];
    let h = crc8(&f);
    f.push(h);
    assert_eq!(decode(f, None, None), Err(DecodeError::ReservedChannelAssignment));
}
