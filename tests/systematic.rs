use fountainflow::systematic::{
    combinations, generate_gray_sequence, get_systematic_index, LDPCParams, KMAX,
};

#[test]
fn test_systematic_index_lookup() {
    assert_eq!(get_systematic_index(4), Some(18));
    assert_eq!(get_systematic_index(5), Some(14));
    assert_eq!(get_systematic_index(6), Some(61));
    assert_eq!(get_systematic_index(10), Some(62));
    assert_eq!(get_systematic_index(50), Some(40));
    assert_eq!(get_systematic_index(79), Some(0));
    assert!(get_systematic_index(100).is_some());
    assert!(get_systematic_index(KMAX).is_some());

    assert_eq!(get_systematic_index(3), None);
    assert_eq!(get_systematic_index(0), None);
    assert_eq!(get_systematic_index(KMAX + 1), None);
}

#[test]
fn test_ldpc_params() {
    // K = 100: X = 15 (15 * 14 >= 200), ceil(0.01 * 100) + X = 16, and S is
    // the smallest prime at or above that.
    let params = LDPCParams::new(100);
    assert_eq!(params.s, 17);
    assert!(params.h > 0);
    assert_eq!(params.l, 100 + params.s + params.h);

    let params = LDPCParams::new(4);
    assert!(params.s >= 1);
    assert!(params.h > 0);
    assert_eq!(params.l, 4 + params.s + params.h);

    let params = LDPCParams::new(KMAX);
    assert!(params.s >= 3);
    assert!(params.h > 0);
    assert_eq!(params.l, KMAX + params.s + params.h);
}

#[test]
fn ldpc_params_for_one_hundred() {
    // binom(9, 5) = 126 >= 117 > binom(8, 4) = 70
    let params = LDPCParams::new(100);
    assert_eq!((params.s, params.h, params.l), (17, 9, 126));
    let params = LDPCParams::new(4);
    assert_eq!((params.s, params.h, params.l), (5, 5, 14));
    let params = LDPCParams::new(KMAX);
    assert_eq!((params.s, params.h, params.l), (29, 11, 296));
}

#[test]
fn test_gray_sequence() {
    let seq = generate_gray_sequence(4);
    assert_eq!(seq, vec![0, 1, 3, 2]);

    let seq = generate_gray_sequence(8);
    for i in 1..seq.len() {
        let diff = seq[i] ^ seq[i - 1];
        assert_eq!(diff.count_ones(), 1);
    }
}

#[test]
fn gray_neighbours_differ_in_one_bit() {
    let seq = generate_gray_sequence(1025);
    assert_eq!(seq[1024], 1024 ^ 512);
    for i in 1..seq.len() {
        assert_eq!((seq[i] ^ seq[i - 1]).count_ones(), 1);
    }
    assert!(generate_gray_sequence(0).is_empty());
}

#[test]
fn test_combinations() {
    assert_eq!(combinations(4, 2), 6);
    assert_eq!(combinations(5, 3), 10);
    assert_eq!(combinations(6, 0), 1);
    assert_eq!(combinations(6, 6), 1);

    assert_eq!(combinations(10, 4), combinations(10, 6));

    assert_eq!(combinations(0, 0), 1);
    assert_eq!(combinations(5, 6), 0);
}

#[test]
fn combinations_large_and_capped() {
    assert_eq!(combinations(11, 6), 462);
    assert_eq!(combinations(60, 30), 118264581564861424);
    assert_eq!(combinations(200, 100), usize::MAX);
}
