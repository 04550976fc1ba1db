//! The frame checksums: CRC-8 (polynomial `x^8 + x^2 + x + 1`) over the header and
//! CRC-16 (polynomial `x^16 + x^15 + x^2 + 1`) over the whole frame, both starting from
//! zero, most significant bit first.
use vstd::prelude::*;

verus! {

/// One bit step of the CRC-8 register.
pub open spec fn crc8_step(c: u8) -> u8 {
    if c & 0x80u8 != 0 { (c << 1u8) ^ 0x07u8 } else { c << 1u8 }
}

/// `k` bit steps of the CRC-8 register.
pub open spec fn crc8_steps(c: u8, k: nat) -> u8
    decreases k,
{
    if k == 0 { c } else { crc8_step(crc8_steps(c, (k - 1) as nat)) }
}

/// The CRC-8 of the bytes `s`.
pub open spec fn crc8(s: Seq<u8>) -> u8
    decreases s.len(),
{
    if s.len() == 0 {
        0
    } else {
        crc8_steps(crc8(s.drop_last()) ^ s.last(), 8)
    }
}

/// One bit step of the CRC-16 register.
pub open spec fn crc16_step(c: u16) -> u16 {
    if c & 0x8000u16 != 0 { (c << 1u16) ^ 0x8005u16 } else { c << 1u16 }
}

/// `k` bit steps of the CRC-16 register.
pub open spec fn crc16_steps(c: u16, k: nat) -> u16
    decreases k,
{
    if k == 0 { c } else { crc16_step(crc16_steps(c, (k - 1) as nat)) }
}

/// The CRC-16 of the bytes `s`.
pub open spec fn crc16(s: Seq<u8>) -> u16
    decreases s.len(),
{
    if s.len() == 0 {
        0
    } else {
        crc16_steps(crc16(s.drop_last()) ^ ((s.last() as u16) << 8u16), 8)
    }
}

/// The CRC-8 of `data[start..end]`.
pub fn crc8_of(data: &Vec<u8>, start: usize, end: usize) -> (r: u8)
    requires
        start <= end <= data@.len(),
    ensures
        r == crc8(data@.subrange(start as int, end as int)),
{
    let mut c: u8 = 0;
    let mut i: usize = start;
    assert(data@.subrange(start as int, start as int) =~= Seq::<u8>::empty());
    while i < end
        invariant
            start <= i <= end <= data@.len(),
            c == crc8(data@.subrange(start as int, i as int)),
        decreases end - i,
    {
        assert(data@.subrange(start as int, i + 1).drop_last() =~= data@.subrange(start as int, i as int));
        c = c ^ data[i];
        let ghost c0 = c;
        let mut k: usize = 0;
        while k < 8
            invariant
                k <= 8,
                c == crc8_steps(c0, k as nat),
            decreases 8 - k,
        {
            c = if c & 0x80u8 != 0 { (c << 1u8) ^ 0x07u8 } else { c << 1u8 };
            k = k + 1;
        }
        i = i + 1;
    }
    c
}

/// The CRC-16 of `data[start..end]`.
pub fn crc16_of(data: &Vec<u8>, start: usize, end: usize) -> (r: u16)
    requires
        start <= end <= data@.len(),
    ensures
        r == crc16(data@.subrange(start as int, end as int)),
{
    let mut c: u16 = 0;
    let mut i: usize = start;
    assert(data@.subrange(start as int, start as int) =~= Seq::<u8>::empty());
    while i < end
        invariant
            start <= i <= end <= data@.len(),
            c == crc16(data@.subrange(start as int, i as int)),
        decreases end - i,
    {
        assert(data@.subrange(start as int, i + 1).drop_last() =~= data@.subrange(start as int, i as int));
        c = c ^ ((data[i] as u16) << 8u16);
        let ghost c0 = c;
        let mut k: usize = 0;
        while k < 8
            invariant
                k <= 8,
                c == crc16_steps(c0, k as nat),
            decreases 8 - k,
        {
            c = if c & 0x8000u16 != 0 { (c << 1u16) ^ 0x8005u16 } else { c << 1u16 };
            k = k + 1;
        }
        i = i + 1;
    }
    c
}

} // verus!

verus! {

/// The bytes of `s` and `e` combined by exclusive or.
pub open spec fn xor_bytes(s: Seq<u8>, e: Seq<u8>) -> Seq<u8> {
    Seq::new(s.len(), |i: int| s[i] ^ e[i])
}

proof fn lemma_crc8_steps_xor(a: u8, b: u8, k: nat)
    ensures
        crc8_steps(a ^ b, k) == crc8_steps(a, k) ^ crc8_steps(b, k),
    decreases k,
{
    if k > 0 {
        lemma_crc8_steps_xor(a, b, (k - 1) as nat);
        let x = crc8_steps(a, (k - 1) as nat);
        let y = crc8_steps(b, (k - 1) as nat);
        assert(crc8_step(x ^ y) == crc8_step(x) ^ crc8_step(y)) by {
            assert((if (x ^ y) & 0x80u8 != 0 { ((x ^ y) << 1u8) ^ 0x07u8 } else { (x ^ y) << 1u8 })
                == (if x & 0x80u8 != 0 { (x << 1u8) ^ 0x07u8 } else { x << 1u8 })
                ^ (if y & 0x80u8 != 0 { (y << 1u8) ^ 0x07u8 } else { y << 1u8 })) by (bit_vector);
        }
    }
}

proof fn lemma_crc8_steps_nonzero(c: u8, k: nat)
    requires
        c != 0,
    ensures
        crc8_steps(c, k) != 0,
    decreases k,
{
    if k > 0 {
        lemma_crc8_steps_nonzero(c, (k - 1) as nat);
        let x = crc8_steps(c, (k - 1) as nat);
        assert(x != 0 ==> (if x & 0x80u8 != 0 { (x << 1u8) ^ 0x07u8 } else { x << 1u8 }) != 0) by (bit_vector);
    }
}

proof fn lemma_crc8_steps_zero(k: nat)
    ensures
        crc8_steps(0, k) == 0,
    decreases k,
{
    if k > 0 {
        lemma_crc8_steps_zero((k - 1) as nat);
        let z = 0u8;
        assert((if z & 0x80u8 != 0 { (z << 1u8) ^ 0x07u8 } else { z << 1u8 }) == 0u8) by (bit_vector)
            requires
                z == 0,
        ;
    }
}

/// The checksum of bytes combined by exclusive or is the combination of their checksums.
pub proof fn lemma_crc8_linear(s: Seq<u8>, e: Seq<u8>)
    requires
        s.len() == e.len(),
    ensures
        crc8(xor_bytes(s, e)) == crc8(s) ^ crc8(e),
    decreases s.len(),
{
    if s.len() == 0 {
        assert(0u8 ^ 0u8 == 0u8) by (bit_vector);
    } else {
        let x = xor_bytes(s, e);
        lemma_crc8_linear(s.drop_last(), e.drop_last());
        assert(x.drop_last() =~= xor_bytes(s.drop_last(), e.drop_last()));
        let a = crc8(s.drop_last());
        let b = crc8(e.drop_last());
        let u = s.last();
        let v = e.last();
        assert((a ^ b) ^ (u ^ v) == (a ^ u) ^ (b ^ v)) by (bit_vector);
        lemma_crc8_steps_xor(a ^ u, b ^ v, 8);
    }
}

/// Bytes that are zero but at `k`, where they are not, have a checksum other than zero.
proof fn lemma_crc8_single_nonzero(e: Seq<u8>, k: int)
    requires
        0 <= k < e.len(),
        e[k] != 0,
        forall|i: int| 0 <= i < e.len() && i != k ==> e[i] == 0,
    ensures
        crc8(e) != 0,
    decreases e.len(),
{
    let n = e.len() - 1;
    if n > k {
        lemma_crc8_single_nonzero(e.drop_last(), k);
        let c = crc8(e.drop_last());
        assert(c ^ 0u8 == c) by (bit_vector);
        lemma_crc8_steps_nonzero(c, 8);
    } else {
        lemma_crc8_zeros(e.drop_last());
        let z = e[k];
        assert(0u8 ^ z == z) by (bit_vector);
        lemma_crc8_steps_nonzero(z, 8);
    }
}

proof fn lemma_crc8_zeros(e: Seq<u8>)
    requires
        forall|i: int| 0 <= i < e.len() ==> e[i] == 0,
    ensures
        crc8(e) == 0,
    decreases e.len(),
{
    if e.len() > 0 {
        lemma_crc8_zeros(e.drop_last());
        assert(0u8 ^ 0u8 == 0u8) by (bit_vector);
        lemma_crc8_steps_zero(8);
    }
}

/// Flipping any one bit of the bytes changes their CRC-8.
pub proof fn lemma_crc8_detects_bit_flip(s: Seq<u8>, k: int, bit: u8)
    requires
        0 <= k < s.len(),
        bit < 8,
    ensures
        crc8(s.update(k, s[k] ^ (1u8 << bit))) != crc8(s),
{
    let m = 1u8 << bit;
    assert(m != 0) by (bit_vector)
        requires
            bit < 8,
            m == 1u8 << bit,
    ;
    let e = Seq::new(s.len(), |i: int| if i == k { m } else { 0u8 });
    assert forall|i: int| 0 <= i < s.len() && i != k implies s[i] ^ e[i] == s[i] by {
        let z = s[i];
        assert(z ^ 0u8 == z) by (bit_vector);
    }
    assert(s.update(k, s[k] ^ m) =~= xor_bytes(s, e));
    lemma_crc8_linear(s, e);
    lemma_crc8_single_nonzero(e, k);
    let a = crc8(s);
    let b = crc8(e);
    assert(b != 0 ==> a ^ b != a) by (bit_vector);
}

} // verus!

verus! {

proof fn lemma_crc16_steps_xor(a: u16, b: u16, k: nat)
    ensures
        crc16_steps(a ^ b, k) == crc16_steps(a, k) ^ crc16_steps(b, k),
    decreases k,
{
    if k > 0 {
        lemma_crc16_steps_xor(a, b, (k - 1) as nat);
        let x = crc16_steps(a, (k - 1) as nat);
        let y = crc16_steps(b, (k - 1) as nat);
        assert(crc16_step(x ^ y) == crc16_step(x) ^ crc16_step(y)) by {
            assert((if (x ^ y) & 0x8000u16 != 0 { ((x ^ y) << 1u16) ^ 0x8005u16 } else { (x ^ y) << 1u16 })
                == (if x & 0x8000u16 != 0 { (x << 1u16) ^ 0x8005u16 } else { x << 1u16 })
                ^ (if y & 0x8000u16 != 0 { (y << 1u16) ^ 0x8005u16 } else { y << 1u16 })) by (bit_vector);
        }
    }
}

proof fn lemma_crc16_steps_nonzero(c: u16, k: nat)
    requires
        c != 0,
    ensures
        crc16_steps(c, k) != 0,
    decreases k,
{
    if k > 0 {
        lemma_crc16_steps_nonzero(c, (k - 1) as nat);
        let x = crc16_steps(c, (k - 1) as nat);
        assert(x != 0 ==> (if x & 0x8000u16 != 0 { (x << 1u16) ^ 0x8005u16 } else { x << 1u16 }) != 0) by (bit_vector);
    }
}

proof fn lemma_crc16_steps_zero(k: nat)
    ensures
        crc16_steps(0, k) == 0,
    decreases k,
{
    if k > 0 {
        lemma_crc16_steps_zero((k - 1) as nat);
        let z = 0u16;
        assert((if z & 0x8000u16 != 0 { (z << 1u16) ^ 0x8005u16 } else { z << 1u16 }) == 0u16) by (bit_vector)
            requires
                z == 0,
        ;
    }
}

/// The checksum of bytes combined by exclusive or is the combination of their checksums.
pub proof fn lemma_crc16_linear(s: Seq<u8>, e: Seq<u8>)
    requires
        s.len() == e.len(),
    ensures
        crc16(xor_bytes(s, e)) == crc16(s) ^ crc16(e),
    decreases s.len(),
{
    if s.len() == 0 {
        assert(0u16 ^ 0u16 == 0u16) by (bit_vector);
    } else {
        let x = xor_bytes(s, e);
        lemma_crc16_linear(s.drop_last(), e.drop_last());
        assert(x.drop_last() =~= xor_bytes(s.drop_last(), e.drop_last()));
        let a = crc16(s.drop_last());
        let b = crc16(e.drop_last());
        let u = s.last();
        let v = e.last();
        assert((a ^ b) ^ (((u ^ v) as u16) << 8u16) == (a ^ ((u as u16) << 8u16)) ^ (b ^ ((v as u16) << 8u16))) by (bit_vector);
        lemma_crc16_steps_xor(a ^ ((u as u16) << 8u16), b ^ ((v as u16) << 8u16), 8);
    }
}

proof fn lemma_crc16_zeros(e: Seq<u8>)
    requires
        forall|i: int| 0 <= i < e.len() ==> e[i] == 0,
    ensures
        crc16(e) == 0,
    decreases e.len(),
{
    if e.len() > 0 {
        lemma_crc16_zeros(e.drop_last());
        let z = e.last();
        assert(0u16 ^ ((z as u16) << 8u16) == 0u16) by (bit_vector)
            requires
                z == 0,
        ;
        lemma_crc16_steps_zero(8);
    }
}

proof fn lemma_crc16_single_nonzero(e: Seq<u8>, k: int)
    requires
        0 <= k < e.len(),
        e[k] != 0,
        forall|i: int| 0 <= i < e.len() && i != k ==> e[i] == 0,
    ensures
        crc16(e) != 0,
    decreases e.len(),
{
    let n = e.len() - 1;
    if n > k {
        lemma_crc16_single_nonzero(e.drop_last(), k);
        let c = crc16(e.drop_last());
        let z = e.last();
        assert(c ^ ((z as u16) << 8u16) == c) by (bit_vector)
            requires
                z == 0,
        ;
        lemma_crc16_steps_nonzero(c, 8);
    } else {
        lemma_crc16_zeros(e.drop_last());
        let z = e[k];
        assert(z != 0 ==> 0u16 ^ ((z as u16) << 8u16) != 0) by (bit_vector);
        lemma_crc16_steps_nonzero(0u16 ^ ((z as u16) << 8u16), 8);
    }
}

/// Flipping any one bit of the bytes changes their CRC-16.
pub proof fn lemma_crc16_detects_bit_flip(s: Seq<u8>, k: int, bit: u8)
    requires
        0 <= k < s.len(),
        bit < 8,
    ensures
        crc16(s.update(k, s[k] ^ (1u8 << bit))) != crc16(s),
{
    let m = 1u8 << bit;
    assert(m != 0) by (bit_vector)
        requires
            bit < 8,
            m == 1u8 << bit,
    ;
    let e = Seq::new(s.len(), |i: int| if i == k { m } else { 0u8 });
    assert forall|i: int| 0 <= i < s.len() && i != k implies s[i] ^ e[i] == s[i] by {
        let z = s[i];
        assert(z ^ 0u8 == z) by (bit_vector);
    }
    assert(s.update(k, s[k] ^ m) =~= xor_bytes(s, e));
    lemma_crc16_linear(s, e);
    lemma_crc16_single_nonzero(e, k);
    let a = crc16(s);
    let b = crc16(e);
    assert(b != 0 ==> a ^ b != a) by (bit_vector);
}

} // verus!
