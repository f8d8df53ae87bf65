use ntt::MODULUS;
use ntt::PRIMITIVE_ROOT;
use ntt::bitrev::bit_reverse_permutation;
use ntt::modarith::power_mod;
use ntt::transform::convolution;
use ntt::transform::forward_transform;
use ntt::transform::intt;
use ntt::transform::ntt;
use ntt::transform::ntt_dif;
use ntt::transform::ForwardVariant;

#[test]
fn test_power_mod_zero_exponent() {
    assert_eq!(power_mod(0, 0, 7), 1);
    assert_eq!(power_mod(5, 0, 7), 1);
    assert_eq!(power_mod(123456789, 0, MODULUS), 1);
}

#[test]
fn test_power_mod_one_exponent() {
    assert_eq!(power_mod(5, 1, 7), 5);
    assert_eq!(power_mod(12, 1, 7), 5);
    assert_eq!(power_mod(MODULUS + 3, 1, MODULUS), 3);
}

#[test]
fn test_power_mod_values() {
    assert_eq!(power_mod(2, 10, 1_000_000), 1024);
    assert_eq!(power_mod(3, 4, 100), 81);
    assert_eq!(power_mod(3, 5, 100), 43);
    assert_eq!(power_mod(10, 9, 1_000_000), 0);
}

#[test]
fn test_power_mod_fermat() {
    // the group modulo the prime has order MODULUS - 1
    assert_eq!(power_mod(PRIMITIVE_ROOT, MODULUS - 1, MODULUS), 1);
}

#[test]
fn test_power_mod_inverse() {
    let inv5 = power_mod(5, MODULUS - 2, MODULUS);
    assert_eq!(inv5 * 5 % MODULUS, 1);
    let invn = power_mod(8, MODULUS - 2, MODULUS);
    assert_eq!(invn * 8 % MODULUS, 1);
}

#[test]
fn test_bit_reverse_permutation_small() {
    assert_eq!(bit_reverse_permutation(1), vec![0]);
    assert_eq!(bit_reverse_permutation(2), vec![0, 1]);
    assert_eq!(bit_reverse_permutation(4), vec![0, 2, 1, 3]);
    assert_eq!(bit_reverse_permutation(8), vec![0, 4, 2, 6, 1, 5, 3, 7]);
}

#[test]
fn test_bit_reverse_involution() {
    let n = 16;
    let rev = bit_reverse_permutation(n);
    let first: Vec<usize> = (0..n).map(|i| rev[i]).collect();
    let twice: Vec<usize> = (0..n).map(|i| rev[rev[i]]).collect();
    let identity: Vec<usize> = (0..n).collect();
    assert_eq!(twice, identity);
    // the mapping really moves indices, so one application is not the identity
    assert_ne!(first, identity);
}

#[test]
fn test_round_trip_eight() {
    let mut coefficients: Vec<u64> = vec![1, 2, 3, 4, 5, 6, 7, 8];
    let og = coefficients.clone();
    let n = coefficients.len();
    ntt(&mut coefficients, n, PRIMITIVE_ROOT);
    assert_ne!(coefficients, og);
    intt(&mut coefficients, n, PRIMITIVE_ROOT);
    assert_eq!(coefficients, og);
}

#[test]
fn test_round_trip_one() {
    let mut a: Vec<u64> = vec![7];
    ntt(&mut a, 1, PRIMITIVE_ROOT);
    intt(&mut a, 1, PRIMITIVE_ROOT);
    assert_eq!(a, vec![7]);
}

#[test]
fn test_round_trip_two() {
    let mut a: Vec<u64> = vec![11, 29];
    ntt(&mut a, 2, PRIMITIVE_ROOT);
    assert_eq!(a, vec![40, MODULUS - 18]);
    intt(&mut a, 2, PRIMITIVE_ROOT);
    assert_eq!(a, vec![11, 29]);
}

#[test]
fn test_round_trip_extreme_values() {
    let mut a: Vec<u64> = vec![MODULUS - 1, 0, MODULUS - 2, 1];
    let og = a.clone();
    ntt(&mut a, 4, PRIMITIVE_ROOT);
    intt(&mut a, 4, PRIMITIVE_ROOT);
    assert_eq!(a, og);
}

#[test]
fn test_ntt_matches_direct_evaluation() {
    // the transform of a evaluates the polynomial at the powers of the
    // principal n-th root of unity, in natural index order
    let a: Vec<u64> = vec![1, 2, 3, 4, 5, 6, 7, 8];
    let n = a.len();
    let w = power_mod(PRIMITIVE_ROOT, (MODULUS - 1) / n as u64, MODULUS);
    let mut expected: Vec<u64> = Vec::new();
    for k in 0..n {
        let mut acc: u64 = 0;
        for j in 0..n {
            let term = a[j] * power_mod(w, (j * k) as u64, MODULUS) % MODULUS;
            acc = (acc + term) % MODULUS;
        }
        expected.push(acc);
    }
    let mut out = a.clone();
    ntt(&mut out, n, PRIMITIVE_ROOT);
    assert_eq!(out, expected);
}

#[test]
fn test_dif_twiddle_free_input() {
    // pairs of equal values cancel in every second butterfly slot, so
    // the result is independent of the twiddle factors and can be
    // computed by hand: [1,1,5,5] reorders to [1,5,1,5], the first
    // stage gives [2,10,0,0], the last [12, -8, 0, 0]
    let mut a: Vec<u64> = vec![1, 1, 5, 5];
    ntt_dif(&mut a, 4, PRIMITIVE_ROOT);
    assert_eq!(a, vec![12, MODULUS - 8, 0, 0]);
}

#[test]
fn test_variants_agree_at_length_two() {
    // at length two both networks are the single 2-point butterfly
    let mut a: Vec<u64> = vec![9, 4];
    let mut b = a.clone();
    forward_transform(&mut a, 2, PRIMITIVE_ROOT, ForwardVariant::DecimationInTime);
    forward_transform(&mut b, 2, PRIMITIVE_ROOT, ForwardVariant::DecimationInFrequency);
    assert_eq!(a, vec![13, 5]);
    assert_eq!(b, vec![13, 5]);
}

#[test]
fn test_variants_order_differently() {
    // from length four on, the two networks order their twiddles
    // differently and give different sequences
    let mut a: Vec<u64> = vec![1, 2, 3, 4];
    let mut b = a.clone();
    forward_transform(&mut a, 4, PRIMITIVE_ROOT, ForwardVariant::DecimationInTime);
    forward_transform(&mut b, 4, PRIMITIVE_ROOT, ForwardVariant::DecimationInFrequency);
    assert_ne!(a, b);
}

#[test]
fn test_forward_transform_dispatch() {
    let mut through_enum: Vec<u64> = vec![1, 2, 3, 4, 5, 6, 7, 8];
    let mut direct = through_enum.clone();
    forward_transform(&mut through_enum, 8, PRIMITIVE_ROOT, ForwardVariant::DecimationInTime);
    ntt(&mut direct, 8, PRIMITIVE_ROOT);
    assert_eq!(through_enum, direct);
    let mut through_enum_dif: Vec<u64> = vec![1, 2, 3, 4, 5, 6, 7, 8];
    let mut direct_dif = through_enum_dif.clone();
    forward_transform(&mut through_enum_dif, 8, PRIMITIVE_ROOT, ForwardVariant::DecimationInFrequency);
    ntt_dif(&mut direct_dif, 8, PRIMITIVE_ROOT);
    assert_eq!(through_enum_dif, direct_dif);
}

#[test]
fn test_convolution_scenario() {
    let n = 8;
    let vec0: Vec<u64> = vec![4, 1, 4, 2, 1, 3, 5, 6];
    let vec1: Vec<u64> = vec![6, 1, 8, 0, 3, 3, 9, 8];
    let expected_out: Vec<u64> = vec![123, 120, 106, 92, 139, 144, 140, 124];
    let res = convolution(vec0, vec1, n, PRIMITIVE_ROOT);
    assert_eq!(res, expected_out);
}

#[test]
fn test_convolution_by_hand_pipeline() {
    // the same product assembled step by step: transform both inputs,
    // multiply index-wise, transform back
    let n = 8;
    let mut vec0: Vec<u64> = vec![4, 1, 4, 2, 1, 3, 5, 6];
    let mut vec1: Vec<u64> = vec![6, 1, 8, 0, 3, 3, 9, 8];
    let expected_out: Vec<u64> = vec![123, 120, 106, 92, 139, 144, 140, 124];

    ntt(&mut vec0, n, PRIMITIVE_ROOT);
    ntt(&mut vec1, n, PRIMITIVE_ROOT);

    let mut res = Vec::with_capacity(n);
    for i in 0..n {
        res.push(vec0[i] * vec1[i] % MODULUS);
    }

    intt(&mut res, n, PRIMITIVE_ROOT);
    assert_eq!(res, expected_out);
}

#[test]
fn test_convolution_schoolbook() {
    // (1 + 2x) * (3 + 4x) = 3 + 10x + 8x^2
    let a: Vec<u64> = vec![1, 2, 0, 0];
    let b: Vec<u64> = vec![3, 4, 0, 0];
    let res = convolution(a, b, 4, PRIMITIVE_ROOT);
    assert_eq!(res, vec![3, 10, 8, 0]);
}

#[test]
fn test_convolution_large_coefficients_reduced() {
    // coefficients near the modulus wrap: (M-1) * (M-1) = 1 mod M
    let a: Vec<u64> = vec![MODULUS - 1, 0];
    let b: Vec<u64> = vec![MODULUS - 1, 0];
    let res = convolution(a, b, 2, PRIMITIVE_ROOT);
    assert_eq!(res, vec![1, 0]);
}
