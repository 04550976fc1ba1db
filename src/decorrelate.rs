//! Reconstruction of independent channels from the stereo decorrelation modes.
use vstd::prelude::*;
use crate::predict::wrap32;

verus! {

/// The left channel that a mid sample `m` and a side sample `s` stand for:
/// `((2m + (s & 1)) + s) / 2`.
pub open spec fn mid_side_left(m: int, s: int) -> int {
    m + (s + s % 2) / 2
}

/// The right channel that a mid sample `m` and a side sample `s` stand for:
/// `((2m + (s & 1)) - s) / 2`.
pub open spec fn mid_side_right(m: int, s: int) -> int {
    m - (s - s % 2) / 2
}

/// Left/side: channel 1 becomes `left - side`, the right channel.
pub fn decorrelate_left_side(left: &Vec<i32>, side: &mut Vec<i32>)
    requires
        left@.len() == old(side)@.len(),
    ensures
        final(side)@.len() == old(side)@.len(),
        forall|i: int| 0 <= i < left@.len() ==> final(side)@[i] == wrap32(left@[i] - old(side)@[i]),
{
    let n = side.len();
    let mut i: usize = 0;
    while i < n
        invariant
            n == left@.len() == side@.len() == old(side)@.len(),
            i <= n,
            forall|j: int| 0 <= j < i ==> side@[j] == wrap32(left@[j] - old(side)@[j]),
            forall|j: int| i <= j < n ==> side@[j] == old(side)@[j],
        decreases n - i,
    {
        side[i] = #[verifier::truncate] ((left[i] as i64 - side[i] as i64) as i32);
        i = i + 1;
    }
}

/// Right/side: channel 0 becomes `right + side`, the left channel.
pub fn decorrelate_right_side(right: &Vec<i32>, side: &mut Vec<i32>)
    requires
        right@.len() == old(side)@.len(),
    ensures
        final(side)@.len() == old(side)@.len(),
        forall|i: int| 0 <= i < right@.len() ==> final(side)@[i] == wrap32(right@[i] + old(side)@[i]),
{
    let n = side.len();
    let mut i: usize = 0;
    while i < n
        invariant
            n == right@.len() == side@.len() == old(side)@.len(),
            i <= n,
            forall|j: int| 0 <= j < i ==> side@[j] == wrap32(right@[j] + old(side)@[j]),
            forall|j: int| i <= j < n ==> side@[j] == old(side)@[j],
        decreases n - i,
    {
        side[i] = #[verifier::truncate] ((right[i] as i64 + side[i] as i64) as i32);
        i = i + 1;
    }
}

/// Mid/side: channel 0 becomes the left channel and channel 1 the right channel, with
/// the rounding that the encoder's halving of the sum dropped put back.
pub fn decorrelate_mid_side(mid: &mut Vec<i32>, side: &mut Vec<i32>)
    requires
        old(mid)@.len() == old(side)@.len(),
    ensures
        final(mid)@.len() == old(mid)@.len(),
        final(side)@.len() == old(side)@.len(),
        forall|i: int| 0 <= i < old(mid)@.len() ==>
            final(mid)@[i] == wrap32(mid_side_left(old(mid)@[i] as int, old(side)@[i] as int)),
        forall|i: int| 0 <= i < old(mid)@.len() ==>
            final(side)@[i] == wrap32(mid_side_right(old(mid)@[i] as int, old(side)@[i] as int)),
{
    let n = side.len();
    let mut i: usize = 0;
    while i < n
        invariant
            n == mid@.len() == side@.len() == old(side)@.len() == old(mid)@.len(),
            i <= n,
            forall|j: int| 0 <= j < i ==> mid@[j] == wrap32(mid_side_left(old(mid)@[j] as int, old(side)@[j] as int)),
            forall|j: int| 0 <= j < i ==> side@[j] == wrap32(mid_side_right(old(mid)@[j] as int, old(side)@[j] as int)),
            forall|j: int| i <= j < n ==> mid@[j] == old(mid)@[j],
            forall|j: int| i <= j < n ==> side@[j] == old(side)@[j],
        decreases n - i,
    {
        let m = mid[i] as i64;
        let s = side[i] as i64;
        let odd = s & 1;
        let half = s >> 1;
        assert(odd + 2 * half == s && 0 <= odd <= 1) by (bit_vector)
            requires
                -0x8000_0000 <= s < 0x8000_0000,
                odd == s & 1,
                half == s >> 1,
        ;
        assert(odd == s % 2);
        let doubled = (m << 1) | odd;
        assert(doubled == 2 * m + odd) by (bit_vector)
            requires
                -0x8000_0000 <= m < 0x8000_0000,
                odd == s & 1,
                doubled == (m << 1) | odd,
        ;
        let l = doubled + s;
        let r = doubled - s;
        let hl = l >> 1;
        let hr = r >> 1;
        assert(l % 2 == 0 ==> hl + hl == l) by (bit_vector)
            requires
                hl == l >> 1,
        ;
        assert(r % 2 == 0 ==> hr + hr == r) by (bit_vector)
            requires
                hr == r >> 1,
        ;
        mid[i] = #[verifier::truncate] (hl as i32);
        side[i] = #[verifier::truncate] (hr as i32);
        i = i + 1;
    }
}

/// Mid/side coding inverts: the mid channel `floor((l + r) / 2)` and the side channel
/// `l - r` of any pair of samples give back `l` and `r`, whether the side is even or odd.
pub proof fn lemma_mid_side_inverts(l: int, r: int)
    ensures
        mid_side_left((l + r) / 2, l - r) == l,
        mid_side_right((l + r) / 2, l - r) == r,
{
}

} // verus!
