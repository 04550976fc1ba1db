//! Residual decoding: the signed mapping of Rice codewords and partitioned residual blocks.
use vstd::prelude::*;
use vstd::arithmetic::power2::{pow2, lemma2_to64};
use crate::bits::{BitReader, spec_read_bits, spec_read_signed, spec_read_unary, pow2_u64, bits_value, lemma_bits_value_bound, lemma_sign_extended_bound};
use crate::error::DecodeError;

verus! {

/// The signed value that an unsigned Rice codeword stands for: even codewords are
/// non-negative (`w / 2`), odd codewords are negative (`-(w + 1) / 2`).
pub open spec fn rice_signed(w: u32) -> int {
    if w % 2 == 0 {
        w as int / 2
    } else {
        -((w as int + 1) / 2)
    }
}

/// The encoder's side of the mapping: the codeword that stands for a signed residual.
pub open spec fn rice_unsigned(v: i32) -> int {
    if v >= 0 {
        2 * v as int
    } else {
        -2 * v as int - 1
    }
}

/// Maps an unsigned Rice codeword to the signed residual it stands for,
/// `0, 1, 2, 3, 4, ...` to `0, -1, 1, -2, 2, ...`.
pub fn rice_signed_to_i32(word: u32) -> (r: i32)
    ensures
        r as int == rice_signed(word),
{
    assert(word >> 1 <= 0x7fff_ffff && word & 0x1 <= 1) by (bit_vector);
    let div2 = (word >> 1) as i32;
    let sign = -((word & 0x1) as i32);
    let r = div2 ^ sign;
    assert(word % 2 == 0 ==> r == (word / 2) as i32) by (bit_vector)
        requires
            div2 == (word >> 1) as i32,
            sign == -((word & 0x1) as i32),
            r == div2 ^ sign,
    ;
    assert(word % 2 == 1 ==> r == -(((word / 2) as i32)) - 1) by (bit_vector)
        requires
            div2 == (word >> 1) as i32,
            sign == -((word & 0x1) as i32),
            r == div2 ^ sign,
    ;
    r
}

/// Decoding a codeword and encoding the residual again gives the codeword back, for
/// every 32-bit codeword; and every 32-bit residual is the decoding of its encoding.
pub proof fn lemma_rice_round_trip(w: u32, v: i32)
    ensures
        rice_unsigned(rice_signed(w) as i32) == w,
        i32::MIN <= rice_signed(w) <= i32::MAX,
        0 <= rice_unsigned(v) <= u32::MAX,
        rice_signed(rice_unsigned(v) as u32) == v,
{
}

/// What a decoder that appends samples to `old_buf` owes: on success the samples that
/// `spec` gives are appended and the reader stands after them; on failure the error is
/// the one that `spec` gives.
pub open spec fn appends(
    spec: Result<(Seq<i32>, int), DecodeError>,
    r: Result<(), DecodeError>,
    old_buf: Seq<i32>,
    new_buf: Seq<i32>,
    new_pos: int,
) -> bool {
    match spec {
        Ok((s, p)) => r is Ok && new_buf == old_buf + s && new_pos == p,
        Err(e) => r == Err::<(), DecodeError>(e),
    }
}

/// `n` samples of `bps` bits each, stored as two's complement values.
pub open spec fn spec_verbatim(d: Seq<u8>, p: int, bps: nat, n: nat) -> Result<(Seq<i32>, int), DecodeError>
    decreases n,
{
    if n == 0 {
        Ok((Seq::empty(), p))
    } else {
        match spec_verbatim(d, p, bps, (n - 1) as nat) {
            Err(e) => Err(e),
            Ok((s, q)) => match spec_read_signed(d, q, bps) {
                Err(e) => Err(e),
                Ok((v, q2)) => Ok((s.push(v as i32), q2)),
            },
        }
    }
}

proof fn lemma_verbatim_err_stays(d: Seq<u8>, p: int, bps: nat, i: nat, n: nat)
    requires
        i <= n,
        spec_verbatim(d, p, bps, i) is Err,
    ensures
        spec_verbatim(d, p, bps, n) == spec_verbatim(d, p, bps, i),
    decreases n - i,
{
    if i < n {
        lemma_verbatim_err_stays(d, p, bps, i, (n - 1) as nat);
    }
}

/// The Rice codeword of quotient `q`, parameter `k` and remainder `r`.
pub open spec fn rice_codeword(q: u32, k: u32, r: u32) -> u32 {
    (q << k) | r
}

/// `n` Rice-coded residuals with parameter `k`: each a unary quotient and `k` bits of
/// remainder.
pub open spec fn spec_rice_residuals(d: Seq<u8>, p: int, k: u32, n: nat) -> Result<(Seq<i32>, int), DecodeError>
    decreases n,
{
    if n == 0 {
        Ok((Seq::empty(), p))
    } else {
        match spec_rice_residuals(d, p, k, (n - 1) as nat) {
            Err(e) => Err(e),
            Ok((s, q)) => match spec_read_unary(d, q) {
                Err(e) => Err(e),
                Ok((quot, q2)) => match spec_read_bits(d, q2, k as nat) {
                    Err(e) => Err(e),
                    Ok((rem, q3)) => Ok((
                        s.push(rice_signed(rice_codeword(quot as u32, k, rem as u32)) as i32),
                        q3,
                    )),
                },
            },
        }
    }
}

/// One partition of `n` residuals whose parameter field is `width` bits wide. A
/// parameter of all ones escapes to a 5-bit width and that many bits per residual.
#[verifier::opaque]
pub open spec fn spec_partition(d: Seq<u8>, p: int, width: nat, n: nat) -> Result<(Seq<i32>, int), DecodeError> {
    match spec_read_bits(d, p, width) {
        Err(e) => Err(e),
        Ok((k, q)) => if k < pow2(width) - 1 {
            spec_rice_residuals(d, q, k as u32, n)
        } else {
            match spec_read_bits(d, q, 5) {
                Err(e) => Err(e),
                Ok((w, q2)) => spec_verbatim(d, q2, w, n),
            }
        },
    }
}

/// `count` partitions of `n` residuals each, one after another.
pub open spec fn spec_partitions(d: Seq<u8>, p: int, width: nat, count: nat, n: nat) -> Result<(Seq<i32>, int), DecodeError>
    decreases count,
{
    if count == 0 {
        Ok((Seq::empty(), p))
    } else {
        match spec_partitions(d, p, width, (count - 1) as nat, n) {
            Err(e) => Err(e),
            Ok((s, q)) => match spec_partition(d, q, width, n) {
                Err(e) => Err(e),
                Ok((t, q2)) => Ok((s + t, q2)),
            },
        }
    }
}

/// The length of each partition of a block of `len` samples split in `2^porder`
/// partitions, when the split is consistent with a predictor of order `order`.
pub open spec fn partition_layout(len: nat, order: nat, porder: nat) -> Result<nat, DecodeError> {
    let plen = len / pow2(porder);
    if order > plen {
        Err(DecodeError::PartitionTooSmall)
    } else if pow2(porder) * plen != len {
        Err(DecodeError::BlockSizeMismatch)
    } else {
        Ok(plen)
    }
}

/// The residuals of a block of `len` samples after `order` warm-up samples: the coding
/// method, the partition order, then the partitions, the first shortened by `order`.
pub open spec fn spec_residual(d: Seq<u8>, p: int, order: nat, len: nat) -> Result<(Seq<i32>, int), DecodeError> {
    match spec_read_bits(d, p, 2) {
        Err(e) => Err(e),
        Ok((method, q)) => if method > 1 {
            Err(DecodeError::ReservedResidualMethod)
        } else {
            let width: nat = if method == 0 { 4 } else { 5 };
            match spec_read_bits(d, q, 4) {
                Err(e) => Err(e),
                Ok((porder, q2)) => match partition_layout(len, order, porder) {
                    Err(e) => Err(e),
                    Ok(plen) => match spec_partition(d, q2, width, (plen - order) as nat) {
                        Err(e) => Err(e),
                        Ok((first, q3)) => match spec_partitions(d, q3, width, (pow2(porder) - 1) as nat, plen) {
                            Err(e) => Err(e),
                            Ok((rest, q4)) => Ok((first + rest, q4)),
                        },
                    },
                },
            }
        },
    }
}

/// Verbatim samples come in the number asked for, each within the range of its width.
pub proof fn lemma_verbatim_shape(d: Seq<u8>, p: int, bps: nat, n: nat)
    requires
        1 <= bps <= 32,
    ensures
        spec_verbatim(d, p, bps, n) matches Ok((s, q)) ==> s.len() == n && forall|i: int| 0 <= i < n ==>
            -pow2((bps - 1) as nat) <= #[trigger] s[i] < pow2((bps - 1) as nat),
    decreases n,
{
    if n > 0 {
        lemma_verbatim_shape(d, p, bps, (n - 1) as nat);
        match spec_verbatim(d, p, bps, (n - 1) as nat) {
            Ok((s, q)) => {
                lemma_bits_value_bound(d, q, bps);
                lemma_sign_extended_bound(bits_value(d, q, bps), bps);
                lemma2_to64();
                if bps < 32 {
                    vstd::arithmetic::power2::lemma_pow2_strictly_increases((bps - 1) as nat, 31);
                }
            },
            Err(_) => {},
        }
    }
}

/// Verbatim samples of any width come in the number asked for.
pub proof fn lemma_verbatim_len(d: Seq<u8>, p: int, bps: nat, n: nat)
    ensures
        spec_verbatim(d, p, bps, n) matches Ok((s, q)) ==> s.len() == n,
    decreases n,
{
    if n > 0 {
        lemma_verbatim_len(d, p, bps, (n - 1) as nat);
    }
}

proof fn lemma_rice_len(d: Seq<u8>, p: int, k: u32, n: nat)
    ensures
        spec_rice_residuals(d, p, k, n) matches Ok((s, q)) ==> s.len() == n,
    decreases n,
{
    if n > 0 {
        lemma_rice_len(d, p, k, (n - 1) as nat);
    }
}

proof fn lemma_partition_len(d: Seq<u8>, p: int, width: nat, n: nat)
    ensures
        spec_partition(d, p, width, n) matches Ok((s, q)) ==> s.len() == n,
{
    reveal(spec_partition);
    match spec_read_bits(d, p, width) {
        Ok((k, q)) => {
            lemma_rice_len(d, q, k as u32, n);
            match spec_read_bits(d, q, 5) {
                Ok((w, q2)) => lemma_verbatim_len(d, q2, w, n),
                Err(_) => {},
            }
        },
        Err(_) => {},
    }
}

proof fn lemma_partitions_len(d: Seq<u8>, p: int, width: nat, count: nat, n: nat)
    ensures
        spec_partitions(d, p, width, count, n) matches Ok((s, q)) ==> s.len() == count * n,
    decreases count,
{
    if count > 0 {
        lemma_partitions_len(d, p, width, (count - 1) as nat, n);
        match spec_partitions(d, p, width, (count - 1) as nat, n) {
            Ok((s, q)) => {
                lemma_partition_len(d, q, width, n);
                assert((count - 1) * n + n == count * n) by (nonlinear_arith);
            },
            Err(_) => {},
        }
    } else {
        assert(count * n == 0) by (nonlinear_arith)
            requires
                count == 0,
        ;
    }
}

/// A residual block holds one residual for every sample after the warm-up samples.
pub proof fn lemma_residual_len(d: Seq<u8>, p: int, order: nat, len: nat)
    ensures
        spec_residual(d, p, order, len) matches Ok((s, q)) ==> s.len() == len - order && order <= len,
{
    match spec_read_bits(d, p, 2) {
        Ok((method, q)) => {
            let width: nat = if method == 0 { 4 } else { 5 };
            match spec_read_bits(d, q, 4) {
                Ok((porder, q2)) => {
                    match partition_layout(len, order, porder) {
                        Ok(plen) => {
                            lemma_partition_len(d, q2, width, (plen - order) as nat);
                            match spec_partition(d, q2, width, (plen - order) as nat) {
                                Ok((first, q3)) => {
                                    lemma_partitions_len(d, q3, width, (pow2(porder) - 1) as nat, plen);
                                    lemma_partition_sum(len, order, porder);
                                    vstd::arithmetic::power2::lemma_pow2_pos(porder);
                                },
                                Err(_) => {},
                            }
                        },
                        Err(_) => {},
                    }
                },
                Err(_) => {},
            }
        },
        Err(_) => {},
    }
}

/// The partitions of a block fit it exactly when the block size is a multiple of the
/// partition count and each partition is at least as long as the predictor order; the
/// first partition, shortened by the order, and the others then add up to the block
/// size. Otherwise the layout is refused with a consistency error.
pub proof fn lemma_partition_sum(len: nat, order: nat, porder: nat)
    ensures
        partition_layout(len, order, porder) is Ok <==> (len % pow2(porder) == 0 && len / pow2(porder) >= order),
        partition_layout(len, order, porder) matches Ok(plen) ==>
            order + (plen - order) + (pow2(porder) - 1) * plen == len,
        partition_layout(len, order, porder) matches Err(e) ==>
            e == DecodeError::PartitionTooSmall || e == DecodeError::BlockSizeMismatch,
{
    let n = pow2(porder);
    vstd::arithmetic::power2::lemma_pow2_pos(porder);
    let plen = len / n;
    vstd::arithmetic::div_mod::lemma_fundamental_div_mod(len as int, n as int);
    assert((n - 1) * plen == n * plen - plen) by (nonlinear_arith);
}

/// A partition whose parameter field is all ones holds escape-coded residuals: a 5-bit
/// width, then that many bits per residual, read as two's complement values. Any other
/// parameter gives Rice-coded residuals.
pub proof fn lemma_escape_partition(d: Seq<u8>, p: int, width: nat, n: nat)
    ensures
        spec_read_bits(d, p, width) matches Ok((k, q)) ==> spec_partition(d, p, width, n) == if k == pow2(width) - 1 {
            match spec_read_bits(d, q, 5) {
                Ok((w, q2)) => spec_verbatim(d, q2, w, n),
                Err(e) => Err(e),
            }
        } else {
            spec_rice_residuals(d, q, k as u32, n)
        },
{
    reveal(spec_partition);
    lemma_bits_value_bound(d, p, width);
}

/// Appends `n` samples of `bps` bits each, read as two's complement values.
pub fn decode_verbatim(bs: &mut BitReader, bps: u32, n: usize, buf: &mut Vec<i32>) -> (r: Result<(), DecodeError>)
    requires
        old(bs).wf(),
        bps <= 32,
    ensures
        final(bs).wf(),
        final(bs).bytes() == old(bs).bytes(),
        old(bs).pos() <= final(bs).pos(),
        appends(spec_verbatim(old(bs).bytes(), old(bs).pos(), bps as nat, n as nat), r, old(buf)@, final(buf)@, final(bs).pos()),
{
    let ghost d = bs.bytes();
    let ghost p_start = bs.pos();
    let ghost b0 = buf@;
    let mut i: usize = 0;
    assert(buf@.subrange(b0.len() as int, buf@.len() as int) =~= Seq::empty());
    assert(buf@.subrange(0, b0.len() as int) =~= b0);
    while i < n
        invariant
            d == old(bs).bytes(),
            p_start == old(bs).pos(),
            b0 == old(buf)@,
            bs.wf(),
            bs.bytes() == d,
            old(bs).pos() <= bs.pos(),
            bps <= 32,
            i <= n,
            spec_verbatim(d, p_start, bps as nat, i as nat) == Ok::<(Seq<i32>, int), DecodeError>((buf@.subrange(b0.len() as int, buf@.len() as int), bs.pos())),
            buf@.subrange(0, b0.len() as int) == b0,
            b0.len() <= buf@.len(),
        decreases n - i,
    {
        let ghost before = buf@;
        let v = match bs.read_signed(bps) {
            Ok(v) => v,
            Err(e) => {
                proof {
                    lemma_verbatim_err_stays(d, p_start, bps as nat, (i + 1) as nat, n as nat);
                }
                return Err(e);
            },
        };
        buf.push(v);
        assert(buf@.subrange(b0.len() as int, buf@.len() as int) =~= before.subrange(b0.len() as int, before.len() as int).push(v));
        assert(buf@.subrange(0, b0.len() as int) =~= before.subrange(0, b0.len() as int));
        i = i + 1;
    }
    assert(buf@ =~= b0 + buf@.subrange(b0.len() as int, buf@.len() as int));
    Ok(())
}

proof fn lemma_rice_err_stays(d: Seq<u8>, p: int, k: u32, i: nat, n: nat)
    requires
        i <= n,
        spec_rice_residuals(d, p, k, i) is Err,
    ensures
        spec_rice_residuals(d, p, k, n) == spec_rice_residuals(d, p, k, i),
    decreases n - i,
{
    if i < n {
        lemma_rice_err_stays(d, p, k, i, (n - 1) as nat);
    }
}

proof fn lemma_partitions_err_stays(d: Seq<u8>, p: int, width: nat, i: nat, count: nat, n: nat)
    requires
        i <= count,
        spec_partitions(d, p, width, i, n) is Err,
    ensures
        spec_partitions(d, p, width, count, n) == spec_partitions(d, p, width, i, n),
    decreases count - i,
{
    if i < count {
        lemma_partitions_err_stays(d, p, width, i, (count - 1) as nat, n);
    }
}

fn decode_rice_residuals(bs: &mut BitReader, k: u32, n: usize, buf: &mut Vec<i32>) -> (r: Result<(), DecodeError>)
    requires
        old(bs).wf(),
        k < 32,
    ensures
        final(bs).wf(),
        final(bs).bytes() == old(bs).bytes(),
        old(bs).pos() <= final(bs).pos(),
        appends(spec_rice_residuals(old(bs).bytes(), old(bs).pos(), k, n as nat), r, old(buf)@, final(buf)@, final(bs).pos()),
{
    let ghost d = bs.bytes();
    let ghost p_start = bs.pos();
    let ghost b0 = buf@;
    let mut i: usize = 0;
    assert(buf@.subrange(b0.len() as int, buf@.len() as int) =~= Seq::empty());
    assert(buf@.subrange(0, b0.len() as int) =~= b0);
    while i < n
        invariant
            d == old(bs).bytes(),
            p_start == old(bs).pos(),
            b0 == old(buf)@,
            bs.wf(),
            bs.bytes() == d,
            old(bs).pos() <= bs.pos(),
            k < 32,
            i <= n,
            spec_rice_residuals(d, p_start, k, i as nat) == Ok::<(Seq<i32>, int), DecodeError>((buf@.subrange(b0.len() as int, buf@.len() as int), bs.pos())),
            buf@.subrange(0, b0.len() as int) == b0,
            b0.len() <= buf@.len(),
        decreases n - i,
    {
        let ghost before = buf@;
        let q = match bs.read_unary() {
            Ok(q) => q,
            Err(e) => {
                proof {
                    lemma_rice_err_stays(d, p_start, k, (i + 1) as nat, n as nat);
                }
                return Err(e);
            },
        };
        let rem = match bs.read_bits_leq32(k) {
            Ok(rem) => rem,
            Err(e) => {
                proof {
                    lemma_rice_err_stays(d, p_start, k, (i + 1) as nat, n as nat);
                }
                return Err(e);
            },
        };
        let v = rice_signed_to_i32((q << k) | rem);
        buf.push(v);
        assert(buf@.subrange(b0.len() as int, buf@.len() as int) =~= before.subrange(b0.len() as int, before.len() as int).push(v));
        assert(buf@.subrange(0, b0.len() as int) =~= before.subrange(0, b0.len() as int));
        i = i + 1;
    }
    assert(buf@ =~= b0 + buf@.subrange(b0.len() as int, buf@.len() as int));
    Ok(())
}

/// Appends the `n` residuals of one partition whose parameter field is
/// `param_bit_width` bits wide, Rice-coded or, under the all-ones parameter, escape-coded.
pub fn decode_rice_partition(bs: &mut BitReader, param_bit_width: u32, n: usize, buf: &mut Vec<i32>) -> (r: Result<(), DecodeError>)
    requires
        old(bs).wf(),
        param_bit_width == 4 || param_bit_width == 5,
    ensures
        final(bs).wf(),
        final(bs).bytes() == old(bs).bytes(),
        old(bs).pos() <= final(bs).pos(),
        appends(spec_partition(old(bs).bytes(), old(bs).pos(), param_bit_width as nat, n as nat), r, old(buf)@, final(buf)@, final(bs).pos()),
{
    reveal(spec_partition);
    let rice_param = bs.read_bits_leq32(param_bit_width)?;
    let escape = pow2_u64(param_bit_width) - 1;
    if (rice_param as u64) < escape {
        proof {
            lemma2_to64();
        }
        decode_rice_residuals(bs, rice_param, n, buf)
    } else {
        let residual_bits = bs.read_bits_leq32(5)?;
        proof {
            lemma2_to64();
        }
        decode_verbatim(bs, residual_bits, n, buf)
    }
}

/// Appends `count` partitions of `n` residuals each.
fn decode_partitions(bs: &mut BitReader, width: u32, count: usize, n: usize, buf: &mut Vec<i32>) -> (r: Result<(), DecodeError>)
    requires
        old(bs).wf(),
        width == 4 || width == 5,
    ensures
        final(bs).wf(),
        final(bs).bytes() == old(bs).bytes(),
        old(bs).pos() <= final(bs).pos(),
        appends(spec_partitions(old(bs).bytes(), old(bs).pos(), width as nat, count as nat, n as nat), r, old(buf)@, final(buf)@, final(bs).pos()),
{
    let ghost d = bs.bytes();
    let ghost p_start = bs.pos();
    let ghost b0 = buf@;
    let mut k: usize = 0;
    assert(buf@.subrange(b0.len() as int, buf@.len() as int) =~= Seq::empty());
    assert(buf@.subrange(0, b0.len() as int) =~= b0);
    while k < count
        invariant
            d == old(bs).bytes(),
            p_start == old(bs).pos(),
            b0 == old(buf)@,
            bs.wf(),
            bs.bytes() == d,
            old(bs).pos() <= bs.pos(),
            width == 4 || width == 5,
            k <= count,
            spec_partitions(d, p_start, width as nat, k as nat, n as nat) == Ok::<(Seq<i32>, int), DecodeError>((buf@.subrange(b0.len() as int, buf@.len() as int), bs.pos())),
            buf@.subrange(0, b0.len() as int) == b0,
            b0.len() <= buf@.len(),
        decreases count - k,
    {
        let ghost before = buf@;
        let ghost pb = bs.pos();
        match decode_rice_partition(bs, width, n, buf) {
            Ok(()) => {},
            Err(e) => {
                proof {
                    lemma_partitions_err_stays(d, p_start, width as nat, (k + 1) as nat, count as nat, n as nat);
                }
                return Err(e);
            },
        }
        proof {
            match spec_partition(d, pb, width as nat, n as nat) {
                Ok((t, q2)) => {
                    assert(buf@.subrange(before.len() as int, buf@.len() as int) =~= t);
                },
                Err(_) => {},
            }
        }
        assert(buf@.subrange(b0.len() as int, buf@.len() as int) =~= before.subrange(b0.len() as int, before.len() as int) + buf@.subrange(before.len() as int, buf@.len() as int));
        assert(buf@.subrange(0, b0.len() as int) =~= before.subrange(0, b0.len() as int));
        k = k + 1;
    }
    assert(buf@ =~= b0 + buf@.subrange(b0.len() as int, buf@.len() as int));
    Ok(())
}

/// Appends the residuals of a block of `len` samples whose first `order` samples are
/// warm-up samples stored apart.
pub fn decode_residual(bs: &mut BitReader, order: u32, len: usize, buf: &mut Vec<i32>) -> (r: Result<(), DecodeError>)
    requires
        old(bs).wf(),
    ensures
        final(bs).wf(),
        final(bs).bytes() == old(bs).bytes(),
        old(bs).pos() <= final(bs).pos(),
        appends(spec_residual(old(bs).bytes(), old(bs).pos(), order as nat, len as nat), r, old(buf)@, final(buf)@, final(bs).pos()),
{
    let ghost d = bs.bytes();
    let method = bs.read_bits_leq32(2)?;
    let width: u32 = match method {
        0 => 4,
        1 => 5,
        _ => {
            return Err(DecodeError::ReservedResidualMethod);
        },
    };
    let porder = bs.read_bits_leq32(4)?;
    proof {
        lemma2_to64();
    }
    assert(porder < 16);
    proof {
        if porder < 15 {
            vstd::arithmetic::power2::lemma_pow2_strictly_increases(porder as nat, 15);
        }
    }
    let n_partitions = pow2_u64(porder) as usize;
    assert(n_partitions == pow2(porder as nat));
    let plen = len / n_partitions;
    assert(plen == len as nat / pow2(porder as nat));
    if order as usize > plen {
        return Err(DecodeError::PartitionTooSmall);
    }
    assert(n_partitions * plen <= len) by (nonlinear_arith)
        requires
            n_partitions > 0,
            plen == len / n_partitions,
    ;
    if n_partitions * plen != len {
        return Err(DecodeError::BlockSizeMismatch);
    }
    let ghost b0 = buf@;
    let ghost p_first = bs.pos();
    match decode_rice_partition(bs, width, plen - order as usize, buf) {
        Ok(()) => {},
        Err(e) => {
            return Err(e);
        },
    }
    let ghost p1 = bs.pos();
    let ghost b1 = buf@;
    match decode_partitions(bs, width, n_partitions - 1, plen, buf) {
        Ok(()) => {},
        Err(e) => {
            return Err(e);
        },
    }
    proof {
        match spec_partition(d, p_first, width as nat, (plen - order) as nat) {
            Ok((t, q2)) => {
                assert(b1.subrange(b0.len() as int, b1.len() as int) =~= t);
            },
            Err(_) => {},
        }
        match spec_partitions(d, p1, width as nat, (n_partitions - 1) as nat, plen as nat) {
            Ok((t, q2)) => {
                assert(buf@.subrange(b1.len() as int, buf@.len() as int) =~= t);
            },
            Err(_) => {},
        }
    }
    assert(buf@ =~= b0 + (b1.subrange(b0.len() as int, b1.len() as int) + buf@.subrange(b1.len() as int, buf@.len() as int)));
    Ok(())
}

} // verus!
