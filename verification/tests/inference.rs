use endspiel::nnue::inference::{output_bucket, pairwise_crelu_sum};
use endspiel::nnue::{HIDDEN_SIZE, PAIR_INPUT_SIZE, PAIR_SIZE};

#[test]
fn piece_count_buckets_cover_the_board() {
    assert_eq!(output_bucket(2), 0);
    assert_eq!(output_bucket(5), 0);
    assert_eq!(output_bucket(6), 1);
    assert_eq!(output_bucket(32), 7);
}

fn pairwise_crelu_sum_scalar(acc: &[i16; HIDDEN_SIZE], weights: &[i8]) -> i32 {
    let mut sum = 0i32;
    for idx in 0..PAIR_SIZE {
        let a = i32::from(acc[idx].clamp(0, 127));
        let b = i32::from(acc[idx + PAIR_SIZE].clamp(0, 127));
        sum += a * b * i32::from(weights[idx]);
    }
    sum
}

#[test]
fn pairwise_simd_matches_scalar() {
    let mut acc = [0i16; HIDDEN_SIZE];
    let mut weights = [0i8; PAIR_INPUT_SIZE];
    for (idx, value) in acc.iter_mut().enumerate() {
        *value = ((idx * 97 + 31) % 401) as i16 - 150;
    }
    for (idx, weight) in weights.iter_mut().enumerate() {
        *weight = ((idx * 29 + 7) % 127) as i8 - 63;
    }
    let scalar = pairwise_crelu_sum_scalar(&acc, &weights[..PAIR_SIZE]);
    assert_eq!(scalar, pairwise_crelu_sum(&acc, &weights, 0));
    let other = pairwise_crelu_sum_scalar(&acc, &weights[PAIR_SIZE..]);
    assert_eq!(other, pairwise_crelu_sum(&acc, &weights, PAIR_SIZE));
}
