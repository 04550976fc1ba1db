use sonata_codecs_flac::bits::BitReader;
use sonata_codecs_flac::error::DecodeError;
use sonata_codecs_flac::residual::{decode_residual, decode_rice_partition, rice_signed_to_i32};

/// Packs a string of '0' and '1' characters, most significant bit first, padding the
/// last byte with zeros.
fn pack(bits: &str) -> Vec<u8> {
    let mut out = Vec::new();
    let mut cur: u8 = 0;
    let mut n = 0;
    for c in bits.chars().filter(|c| *c == '0' || *c == '1') {
        cur = (cur << 1) | if c == '1' { 1 } else { 0 };
        n += 1;
        if n == 8 {
            out.push(cur);
            cur = 0;
            n = 0;
        }
    }
    if n > 0 {
        out.push(cur << (8 - n));
    }
    out
}

#[test]
fn verify_rice_signed_to_i32() {
    assert_eq!(rice_signed_to_i32(0), 0);
    assert_eq!(rice_signed_to_i32(1), -1);
    assert_eq!(rice_signed_to_i32(2), 1);
    assert_eq!(rice_signed_to_i32(3), -2);
    assert_eq!(rice_signed_to_i32(4), 2);
    assert_eq!(rice_signed_to_i32(5), -3);
    assert_eq!(rice_signed_to_i32(6), 3);
    assert_eq!(rice_signed_to_i32(7), -4);
    assert_eq!(rice_signed_to_i32(8), 4);
    assert_eq!(rice_signed_to_i32(9), -5);
    assert_eq!(rice_signed_to_i32(10), 5);

    assert_eq!(rice_signed_to_i32(u32::max_value()), -2_147_483_648);
}

#[test]
fn rice_mapping_round_trips_through_encoder() {
    for v in [0i32, 1, -1, 2, -2, 1000, -1000, i32::MAX, i32::MIN] {
        let w = if v >= 0 { (v as u32) * 2 } else { ((-(v as i64)) * 2 - 1) as u32 };
        assert_eq!(rice_signed_to_i32(w), v);
    }
    assert_eq!(rice_signed_to_i32(0xffff_fffe), i32::MAX);
}

#[test]
fn rice_partition_decodes_quotient_and_remainder() {
    // Parameter 2; residuals: q=1 r=3 -> 7 -> -4; q=0 r=2 -> 2 -> 1; q=2 r=0 -> 8 -> 4.
    let mut bs = BitReader::new(pack("0010 01 11 1 10 001 00"));
    let mut buf = Vec::new();
    assert_eq!(decode_rice_partition(&mut bs, 4, 3, &mut buf), Ok(()));
    assert_eq!(buf, vec![-4, 1, 4]);
    assert_eq!(bs.position(), 4 + 4 + 3 + 5);
}

#[test]
fn escape_partition_reads_fixed_width_residuals() {
    // All-ones 4-bit parameter, 5-bit width, then three 5-bit two's complement values.
    let mut bs = BitReader::new(pack("1111 00101 11111 01111 10000"));
    let mut buf = vec![7];
    assert_eq!(decode_rice_partition(&mut bs, 4, 3, &mut buf), Ok(()));
    assert_eq!(buf, vec![7, -1, 15, -16]);
}

#[test]
fn escape_partition_with_five_bit_parameter() {
    let mut bs = BitReader::new(pack("11111 00011 011 100"));
    let mut buf = Vec::new();
    assert_eq!(decode_rice_partition(&mut bs, 5, 2, &mut buf), Ok(()));
    assert_eq!(buf, vec![3, -4]);
}

#[test]
fn escape_partition_of_zero_width_reads_zeros() {
    let mut bs = BitReader::new(pack("1111 00000"));
    let mut buf = Vec::new();
    assert_eq!(decode_rice_partition(&mut bs, 4, 4, &mut buf), Ok(()));
    assert_eq!(buf, vec![0, 0, 0, 0]);
}

#[test]
fn residual_block_with_two_partitions() {
    // Method 0, partition order 1, block of 4 after 1 warm-up sample: partitions of 1 and 2.
    // First: parameter 0, codeword 1 (q=1) -> -1. Second: parameter 0, q=2 -> 1, q=0 -> 0.
    let mut bs = BitReader::new(pack("00 0001 0000 01 0000 001 1"));
    let mut buf = Vec::new();
    assert_eq!(decode_residual(&mut bs, 1, 4, &mut buf), Ok(()));
    assert_eq!(buf, vec![-1, 1, 0]);
}

#[test]
fn residual_rejects_reserved_method() {
    let mut bs = BitReader::new(pack("10 0000"));
    let mut buf = Vec::new();
    assert_eq!(decode_residual(&mut bs, 0, 4, &mut buf), Err(DecodeError::ReservedResidualMethod));
}

#[test]
fn residual_rejects_short_first_partition() {
    // Partition order 2 over 8 samples gives partitions of 2, fewer than order 3.
    let mut bs = BitReader::new(pack("00 0010"));
    let mut buf = Vec::new();
    assert_eq!(decode_residual(&mut bs, 3, 8, &mut buf), Err(DecodeError::PartitionTooSmall));
}

#[test]
fn residual_rejects_block_not_divisible() {
    // Partition order 2 over 6 samples: 4 partitions of 1 cover only 4.
    let mut bs = BitReader::new(pack("00 0010"));
    let mut buf = Vec::new();
    assert_eq!(decode_residual(&mut bs, 0, 6, &mut buf), Err(DecodeError::BlockSizeMismatch));
}

#[test]
fn residual_runs_out_of_data() {
    let mut bs = BitReader::new(pack("00 0000 0000"));
    let mut buf = Vec::new();
    assert_eq!(decode_residual(&mut bs, 0, 4, &mut buf), Err(DecodeError::EndOfStream));
}
