use sonata_codecs_flac::decorrelate::{decorrelate_left_side, decorrelate_mid_side, decorrelate_right_side};
use sonata_codecs_flac::predict::{fixed_predict, lpc_predict};

#[test]
fn fixed_order_zero_is_identity() {
    let mut buf = vec![3, -7, 11];
    fixed_predict(0, &mut buf);
    assert_eq!(buf, vec![3, -7, 11]);
}

#[test]
fn fixed_order_one_accumulates() {
    let mut buf = vec![10, 1, 2, -3];
    fixed_predict(1, &mut buf);
    assert_eq!(buf, vec![10, 11, 13, 10]);
}

#[test]
fn fixed_order_two_three_four() {
    let mut b2 = vec![1, 2, 0, 0];
    fixed_predict(2, &mut b2);
    assert_eq!(b2, vec![1, 2, 3, 4]);

    let mut b3 = vec![1, 4, 9, 0, 0];
    fixed_predict(3, &mut b3);
    assert_eq!(b3, vec![1, 4, 9, 16, 25]);

    let mut b4 = vec![1, 8, 27, 64, 0, 1];
    fixed_predict(4, &mut b4);
    // 4*64 - 6*27 + 4*8 - 1 = 125; then 4*125 - 6*64 + 4*27 - 8 + 1 = 217.
    assert_eq!(b4, vec![1, 8, 27, 64, 125, 217]);
}

#[test]
fn fixed_predictor_wraps_around() {
    let mut buf = vec![i32::MAX, i32::MAX, 5];
    fixed_predict(2, &mut buf);
    assert_eq!(buf[2], i32::MAX.wrapping_add(5));

    let mut b1 = vec![i32::MAX, 1];
    fixed_predict(1, &mut b1);
    assert_eq!(b1, vec![i32::MAX, i32::MIN]);
}

#[test]
fn lpc_order_one_matches_running_sum() {
    let mut coeffs = [0i32; 32];
    coeffs[31] = 1;
    let mut buf = vec![5, 1, 1, 1];
    lpc_predict(1, &coeffs, 0, &mut buf);
    assert_eq!(buf, vec![5, 6, 7, 8]);
}

#[test]
fn lpc_shift_rounds_down() {
    // Prediction 3 * s[i-1] >> 1.
    let mut coeffs = [0i32; 32];
    coeffs[31] = 3;
    let mut buf = vec![-3, 0, 0];
    lpc_predict(1, &coeffs, 1, &mut buf);
    // floor(-9 / 2) = -5; floor(-15 / 2) = -8.
    assert_eq!(buf, vec![-3, -5, -8]);
}

#[test]
fn lpc_steady_state_past_thirty_two_samples() {
    // Order 2 with coefficients 2 and -1 (a line) over 40 samples.
    let mut coeffs = [0i32; 32];
    coeffs[31] = 2;
    coeffs[30] = -1;
    let mut buf = vec![0i32; 40];
    buf[0] = 0;
    buf[1] = 3;
    lpc_predict(2, &coeffs, 0, &mut buf);
    let expected: Vec<i32> = (0..40).map(|i| 3 * i).collect();
    assert_eq!(buf, expected);
}

#[test]
fn left_side_gives_right_channel() {
    let left = vec![10, -4];
    let mut side = vec![3, -6];
    decorrelate_left_side(&left, &mut side);
    assert_eq!(side, vec![7, 2]);
}

#[test]
fn right_side_gives_left_channel() {
    let right = vec![7, 2];
    let mut side = vec![3, -6];
    decorrelate_right_side(&right, &mut side);
    assert_eq!(side, vec![10, -4]);
}

#[test]
fn mid_side_odd_and_even() {
    let mut mid = vec![10, 10, 10, -3];
    let mut side = vec![3, 4, -3, -1];
    decorrelate_mid_side(&mut mid, &mut side);
    assert_eq!(mid, vec![12, 12, 9, -3]);
    assert_eq!(side, vec![9, 8, 12, -2]);
}

#[test]
fn mid_side_inverts_encoding() {
    for (l, r) in [(12i64, 9i64), (-5, 8), (0, -1), (100, 100)] {
        let m = (l + r).div_euclid(2) as i32;
        let s = (l - r) as i32;
        let mut mid = vec![m];
        let mut side = vec![s];
        decorrelate_mid_side(&mut mid, &mut side);
        assert_eq!((mid[0] as i64, side[0] as i64), (l, r));
    }
}
