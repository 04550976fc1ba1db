//! The fixed polynomial predictors and the general linear predictor, which turn
//! residuals into samples in place.
use vstd::prelude::*;

verus! {

/// `x` reduced to 32 bits, two's complement.
pub open spec fn wrap32(x: int) -> i32 {
    x as i32
}

/// The prediction of the fixed polynomial predictor of order `order` for sample `i`
/// of `s`, before reduction to 32 bits.
pub open spec fn fixed_prediction(order: nat, s: Seq<i32>, i: int) -> int {
    if order == 0 {
        0
    } else if order == 1 {
        s[i - 1] as int
    } else if order == 2 {
        2 * s[i - 1] - s[i - 2]
    } else if order == 3 {
        3 * s[i - 1] - 3 * s[i - 2] + s[i - 3]
    } else {
        4 * s[i - 1] - 6 * s[i - 2] + 4 * s[i - 3] - s[i - 4]
    }
}

/// `out` is what the predictor of order `order` makes of `input`: the first `order`
/// samples stay, and each later one is its residual plus the prediction from the samples
/// already restored, reduced to 32 bits.
pub open spec fn fixed_restored(order: nat, input: Seq<i32>, out: Seq<i32>) -> bool {
    &&& out.len() == input.len()
    &&& forall|i: int| 0 <= i < order && i < input.len() ==> out[i] == input[i]
    &&& forall|i: int| order <= i < input.len() ==> out[i] == wrap32(input[i] + fixed_prediction(order, out, i))
}

/// Runs the fixed polynomial predictor of order `order` (0 to 4) over `buf`, whose first
/// `order` samples are warm-up samples and the rest residuals.
pub fn fixed_predict(order: u32, buf: &mut Vec<i32>)
    requires
        order <= 4,
    ensures
        fixed_restored(order as nat, old(buf)@, final(buf)@),
{
    let len = buf.len();
    let mut i: usize = order as usize;
    if i > len {
        i = len;
    }
    while i < len
        invariant
            order <= 4,
            len == buf@.len() == old(buf)@.len(),
            i <= len,
            order <= i || i == len,
            forall|j: int| i <= j < len ==> buf@[j] == old(buf)@[j],
            forall|j: int| 0 <= j < order && j < len ==> buf@[j] == old(buf)@[j],
            forall|j: int| order <= j < i ==> buf@[j] == wrap32(old(buf)@[j] + fixed_prediction(order as nat, buf@, j)),
        decreases len - i,
    {
        let pred: i64 = match order {
            0 => 0,
            1 => buf[i - 1] as i64,
            2 => 2 * (buf[i - 1] as i64) - buf[i - 2] as i64,
            3 => 3 * (buf[i - 1] as i64) - 3 * (buf[i - 2] as i64) + buf[i - 3] as i64,
            _ => 4 * (buf[i - 1] as i64) - 6 * (buf[i - 2] as i64) + 4 * (buf[i - 3] as i64) - buf[i - 4] as i64,
        };
        let ghost before = buf@;
        buf[i] = #[verifier::truncate] ((buf[i] as i64 + pred) as i32);
        assert forall|j: int| order <= j < i implies fixed_prediction(order as nat, buf@, j) == fixed_prediction(order as nat, before, j) by {}
        i = i + 1;
    }
}

/// The sum of the `k` products of the most recent samples before `i` with the
/// coefficients of a 32-slot window: the sample just before `i` goes with `coeffs[31]`,
/// the one before it with `coeffs[30]`, and so on.
pub open spec fn lpc_dot(coeffs: Seq<i32>, s: Seq<i32>, i: int, k: nat) -> int
    decreases k,
{
    if k == 0 {
        0
    } else {
        lpc_dot(coeffs, s, i, (k - 1) as nat) + coeffs[32 - k] * s[i - k]
    }
}

/// The coefficients fit a linear predictor of order `order`: at most 15 bits each, and
/// zero in the slots that the order leaves unused.
pub open spec fn lpc_window(coeffs: Seq<i32>, order: nat) -> bool {
    &&& coeffs.len() == 32
    &&& order <= 32
    &&& forall|k: int| 0 <= k < 32 ==> -0x4000 <= #[trigger] coeffs[k] < 0x4000
    &&& forall|k: int| 0 <= k < 32 - order ==> #[trigger] coeffs[k] == 0
}

/// The prediction for sample `i` of `s`: the sum of products, shifted right (rounding
/// down) by `shift`.
pub open spec fn lpc_prediction(coeffs: Seq<i32>, shift: u32, s: Seq<i32>, i: int, order: nat) -> int {
    (lpc_dot(coeffs, s, i, order) as i64 >> shift) as int
}

/// `out` is what the linear predictor makes of `input`: the first `order` samples stay,
/// and each later one is its residual plus the prediction from the samples already
/// restored, reduced to 32 bits.
pub open spec fn lpc_restored(order: nat, coeffs: Seq<i32>, shift: u32, input: Seq<i32>, out: Seq<i32>) -> bool {
    &&& out.len() == input.len()
    &&& forall|i: int| 0 <= i < order && i < input.len() ==> out[i] == input[i]
    &&& forall|i: int| order <= i < input.len() ==> out[i] == wrap32(input[i] + lpc_prediction(coeffs, shift, out, i, order))
}

proof fn lemma_lpc_dot_bound(coeffs: Seq<i32>, s: Seq<i32>, i: int, k: nat)
    requires
        k <= 32,
        coeffs.len() == 32,
        forall|j: int| 0 <= j < 32 ==> -0x4000 <= #[trigger] coeffs[j] < 0x4000,
    ensures
        -k * 0x4000_0000_0000 <= lpc_dot(coeffs, s, i, k) <= k * 0x4000_0000_0000,
    decreases k,
{
    if k > 0 {
        lemma_lpc_dot_bound(coeffs, s, i, (k - 1) as nat);
        let c = coeffs[32 - k] as int;
        let x = s[i - k] as int;
        assert(-0x4000_0000_0000 <= c * x <= 0x4000_0000_0000) by (nonlinear_arith)
            requires
                -0x4000 <= c < 0x4000,
                -0x8000_0000 <= x < 0x8000_0000,
        ;
    }
}

/// Taps beyond the order meet zero coefficients and add nothing.
proof fn lemma_lpc_dot_zero_taps(coeffs: Seq<i32>, s: Seq<i32>, i: int, order: nat, k: nat)
    requires
        order <= k <= 32,
        lpc_window(coeffs, order),
    ensures
        lpc_dot(coeffs, s, i, k) == lpc_dot(coeffs, s, i, order),
    decreases k,
{
    if k > order {
        lemma_lpc_dot_zero_taps(coeffs, s, i, order, (k - 1) as nat);
        assert(coeffs[32 - k] == 0);
    }
}

/// The sum of the `taps` products for sample `i`.
fn lpc_sum(coeffs: &[i32; 32], buf: &Vec<i32>, i: usize, taps: usize) -> (r: i64)
    requires
        taps <= 32,
        taps <= i < buf@.len(),
        forall|j: int| 0 <= j < 32 ==> -0x4000 <= #[trigger] coeffs@[j] < 0x4000,
    ensures
        r == lpc_dot(coeffs@, buf@, i as int, taps as nat),
{
    let mut acc: i64 = 0;
    let mut k: usize = 0;
    while k < taps
        invariant
            taps <= 32,
            taps <= i < buf@.len(),
            k <= taps,
            forall|j: int| 0 <= j < 32 ==> -0x4000 <= #[trigger] coeffs@[j] < 0x4000,
            acc == lpc_dot(coeffs@, buf@, i as int, k as nat),
        decreases taps - k,
    {
        proof {
            lemma_lpc_dot_bound(coeffs@, buf@, i as int, (k + 1) as nat);
            lemma_lpc_dot_bound(coeffs@, buf@, i as int, k as nat);
        }
        let c = coeffs[31 - k] as i64;
        let x = buf[i - (k + 1)] as i64;
        assert(-0x4000_0000_0000 <= c * x <= 0x4000_0000_0000) by (nonlinear_arith)
            requires
                -0x4000 <= c < 0x4000,
                -0x8000_0000 <= x < 0x8000_0000,
        ;
        acc = acc + c * x;
        k = k + 1;
    }
    acc
}

/// Restores sample `i` from its residual with a prediction over `taps` samples.
fn lpc_restore_at(coeffs: &[i32; 32], coeff_shift: u32, buf: &mut Vec<i32>, i: usize, taps: usize)
    requires
        taps <= 32,
        taps <= i < old(buf)@.len(),
        coeff_shift < 64,
        forall|j: int| 0 <= j < 32 ==> -0x4000 <= #[trigger] coeffs@[j] < 0x4000,
    ensures
        final(buf)@ == old(buf)@.update(
            i as int,
            wrap32(old(buf)@[i as int] + (lpc_dot(coeffs@, old(buf)@, i as int, taps as nat) as i64 >> coeff_shift)),
        ),
{
    let predicted = lpc_sum(coeffs, buf, i, taps);
    proof {
        lemma_lpc_dot_bound(coeffs@, buf@, i as int, taps as nat);
    }
    let shifted = predicted >> coeff_shift;
    assert(-0x8_0000_0000_0000 <= shifted <= 0x8_0000_0000_0000) by (bit_vector)
        requires
            -0x8_0000_0000_0000 <= predicted <= 0x8_0000_0000_0000,
            shifted == predicted >> coeff_shift,
    ;
    buf[i] = #[verifier::truncate] ((buf[i] as i64 + shifted) as i32);
}

/// Runs the linear predictor of order `order` over `buf`, whose first `order` samples
/// are warm-up samples and the rest residuals. The coefficients stand in reverse order at
/// the end of a 32-slot window, with zeros before them.
pub fn lpc_predict(order: usize, coeffs: &[i32; 32], coeff_shift: u32, buf: &mut Vec<i32>)
    requires
        lpc_window(coeffs@, order as nat),
        order <= old(buf)@.len(),
        coeff_shift < 64,
    ensures
        lpc_restored(order as nat, coeffs@, coeff_shift, old(buf)@, final(buf)@),
{
    let len = buf.len();
    let prefill_end: usize = if len < 32 { len } else { 32 };
    let mut i: usize = order;
    while i < prefill_end
        invariant
            lpc_window(coeffs@, order as nat),
            coeff_shift < 64,
            len == buf@.len() == old(buf)@.len(),
            prefill_end <= len,
            prefill_end <= 32,
            order <= i,
            i <= prefill_end || i == order,
            forall|j: int| i <= j < len ==> buf@[j] == old(buf)@[j],
            forall|j: int| 0 <= j < order ==> buf@[j] == old(buf)@[j],
            forall|j: int| order <= j < i ==> buf@[j] == wrap32(old(buf)@[j] + lpc_prediction(coeffs@, coeff_shift, buf@, j, order as nat)),
        decreases prefill_end - i,
    {
        let ghost before = buf@;
        lpc_restore_at(coeffs, coeff_shift, buf, i, order);
        assert forall|j: int| order <= j <= i implies lpc_dot(coeffs@, buf@, j, order as nat) == lpc_dot(coeffs@, before, j, order as nat) by {
            lemma_lpc_dot_prefix(coeffs@, buf@, before, j, order as nat);
        }
        i = i + 1;
    }
    if len <= 32 {
        return;
    }
    while i < len
        invariant
            lpc_window(coeffs@, order as nat),
            coeff_shift < 64,
            len == buf@.len() == old(buf)@.len(),
            32 <= i <= len,
            order <= 32,
            forall|j: int| i <= j < len ==> buf@[j] == old(buf)@[j],
            forall|j: int| 0 <= j < order ==> buf@[j] == old(buf)@[j],
            forall|j: int| order <= j < i ==> buf@[j] == wrap32(old(buf)@[j] + lpc_prediction(coeffs@, coeff_shift, buf@, j, order as nat)),
        decreases len - i,
    {
        let ghost before = buf@;
        proof {
            lemma_lpc_dot_zero_taps(coeffs@, before, i as int, order as nat, 32);
        }
        lpc_restore_at(coeffs, coeff_shift, buf, i, 32);
        assert forall|j: int| order <= j <= i implies lpc_dot(coeffs@, buf@, j, order as nat) == lpc_dot(coeffs@, before, j, order as nat) by {
            lemma_lpc_dot_prefix(coeffs@, buf@, before, j, order as nat);
        }
        i = i + 1;
    }
}

/// The sum for sample `i` reads only samples before `i`.
proof fn lemma_lpc_dot_prefix(coeffs: Seq<i32>, s: Seq<i32>, t: Seq<i32>, i: int, k: nat)
    requires
        k <= i,
        forall|j: int| 0 <= j < i ==> s[j] == t[j],
    ensures
        lpc_dot(coeffs, s, i, k) == lpc_dot(coeffs, t, i, k),
    decreases k,
{
    if k > 0 {
        lemma_lpc_dot_prefix(coeffs, s, t, i, (k - 1) as nat);
    }
}

/// The samples that the fixed predictor of order `order` restores from `input`, built
/// one sample at a time.
pub open spec fn fixed_restore(order: nat, input: Seq<i32>) -> Seq<i32>
    decreases input.len(),
{
    if input.len() == 0 {
        Seq::empty()
    } else {
        let prev = fixed_restore(order, input.drop_last());
        let i = input.len() - 1;
        prev.push(if i < order { input[i] } else { wrap32(input[i] + fixed_prediction(order, prev, i)) })
    }
}

/// The samples that the linear predictor restores from `input`, built one sample at a
/// time.
pub open spec fn lpc_restore(order: nat, coeffs: Seq<i32>, shift: u32, input: Seq<i32>) -> Seq<i32>
    decreases input.len(),
{
    if input.len() == 0 {
        Seq::empty()
    } else {
        let prev = lpc_restore(order, coeffs, shift, input.drop_last());
        let i = input.len() - 1;
        prev.push(if i < order { input[i] } else { wrap32(input[i] + lpc_prediction(coeffs, shift, prev, i, order)) })
    }
}

/// The fixed predictor's output is determined by its input.
pub proof fn lemma_fixed_restored_unique(order: nat, input: Seq<i32>, out: Seq<i32>)
    requires
        fixed_restored(order, input, out),
    ensures
        out == fixed_restore(order, input),
    decreases input.len(),
{
    if input.len() == 0 {
        assert(out =~= Seq::<i32>::empty());
    } else {
        let n = input.len() - 1;
        let a = input.drop_last();
        let b = out.drop_last();
        assert forall|i: int| order <= i < a.len() implies b[i] == wrap32(a[i] + fixed_prediction(order, b, i)) by {
            assert(fixed_prediction(order, b, i) == fixed_prediction(order, out, i));
        }
        lemma_fixed_restored_unique(order, a, b);
        if n >= order {
            assert(fixed_prediction(order, b, n) == fixed_prediction(order, out, n));
        }
        assert(out =~= b.push(out[n]));
    }
}

/// The linear predictor's output is determined by its input.
pub proof fn lemma_lpc_restored_unique(order: nat, coeffs: Seq<i32>, shift: u32, input: Seq<i32>, out: Seq<i32>)
    requires
        lpc_restored(order, coeffs, shift, input, out),
    ensures
        out == lpc_restore(order, coeffs, shift, input),
    decreases input.len(),
{
    if input.len() == 0 {
        assert(out =~= Seq::<i32>::empty());
    } else {
        let n = input.len() - 1;
        let a = input.drop_last();
        let b = out.drop_last();
        assert forall|i: int| order <= i < a.len() implies b[i] == wrap32(a[i] + lpc_prediction(coeffs, shift, b, i, order)) by {
            lemma_lpc_dot_prefix(coeffs, b, out, i, order);
        }
        lemma_lpc_restored_unique(order, coeffs, shift, a, b);
        if n >= order {
            lemma_lpc_dot_prefix(coeffs, b, out, n, order);
        }
        assert(out =~= b.push(out[n]));
    }
}

} // verus!

verus! {

/// Restoring keeps the number of samples.
pub proof fn lemma_restore_len(order: nat, coeffs: Seq<i32>, shift: u32, input: Seq<i32>)
    ensures
        fixed_restore(order, input).len() == input.len(),
        lpc_restore(order, coeffs, shift, input).len() == input.len(),
    decreases input.len(),
{
    if input.len() > 0 {
        lemma_restore_len(order, coeffs, shift, input.drop_last());
    }
}

} // verus!
