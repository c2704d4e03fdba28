use enm::ordering::{float_rank, INFINITY_BITS, NAN_RANK, SIGN_BIT};
use enm::sorting::sort_indices;

fn rank_of(value: f64) -> i64 {
    float_rank(value.to_bits())
}

#[test]
fn rank_follows_the_numeric_order() {
    let ascending = [
        f64::NEG_INFINITY,
        f64::MIN,
        -1.0e300,
        -2.5,
        -1.0,
        -f64::MIN_POSITIVE,
        -5.0e-324,
        0.0,
        5.0e-324,
        f64::MIN_POSITIVE,
        0.472565,
        0.824857,
        0.828897,
        1.0,
        1.0000000000000002,
        2.0,
        1302.79,
        f64::MAX,
        f64::INFINITY,
    ];
    for pair in ascending.windows(2) {
        assert!(pair[0] < pair[1]);
        assert!(rank_of(pair[0]) < rank_of(pair[1]), "{} against {}", pair[0], pair[1]);
    }
}

#[test]
fn both_zeros_share_a_rank() {
    assert_eq!(rank_of(0.0), 0);
    assert_eq!(rank_of(-0.0), 0);
    assert_eq!(float_rank(SIGN_BIT), 0);
}

#[test]
fn nan_ranks_above_everything() {
    assert_eq!(rank_of(f64::NAN), NAN_RANK);
    assert_eq!(rank_of(-f64::NAN), NAN_RANK);
    assert_eq!(float_rank(INFINITY_BITS + 1), NAN_RANK);
    assert_eq!(float_rank(u64::MAX), NAN_RANK);
    assert_eq!(float_rank(0x7FFF_FFFF_FFFF_FFFF), NAN_RANK);
    assert!(rank_of(f64::INFINITY) < rank_of(f64::NAN));
    assert!(rank_of(f64::MAX) < rank_of(f64::NAN));
    assert_eq!(rank_of(f64::INFINITY), NAN_RANK - 1);
    assert_eq!(rank_of(f64::NEG_INFINITY), -(NAN_RANK - 1));
}

#[test]
fn rank_of_known_bit_patterns() {
    assert_eq!(float_rank(1), 1);
    assert_eq!(float_rank(SIGN_BIT + 1), -1);
    assert_eq!(rank_of(1.0), 0x3FF0_0000_0000_0000);
    assert_eq!(rank_of(-1.0), -0x3FF0_0000_0000_0000);
    assert_eq!(rank_of(-2.0), -0x4000_0000_0000_0000);
}

fn sorted(values: &[f64]) -> Vec<usize> {
    let keys: Vec<u64> = values.iter().map(|value| value.to_bits()).collect();
    sort_indices(&keys)
}

#[test]
fn sort_indices_orders_by_value() {
    assert_eq!(sorted(&[3.0, 1.0, 2.0]), vec![1, 2, 0]);
    assert_eq!(sorted(&[0.5, -0.5, 1e-9, -1e9, 7.0]), vec![3, 1, 2, 0, 4]);
    assert_eq!(sorted(&[]), Vec::<usize>::new());
    assert_eq!(sorted(&[42.0]), vec![0]);
    assert_eq!(sorted(&[5.0, 4.0, 3.0, 2.0, 1.0, 0.0]), vec![5, 4, 3, 2, 1, 0]);
    assert_eq!(sorted(&[0.0, 1.0, 2.0, 3.0]), vec![0, 1, 2, 3]);
}

#[test]
fn sort_indices_keeps_ties_in_their_order() {
    assert_eq!(sorted(&[1.0, 0.0, 1.0, -0.0, 1.0, 0.0]), vec![1, 3, 5, 0, 2, 4]);
    assert_eq!(sorted(&[2.0, 2.0, 2.0]), vec![0, 1, 2]);
}

#[test]
fn sort_indices_puts_nan_last() {
    let order = sorted(&[f64::NAN, 1.0, f64::INFINITY, -f64::NAN, f64::NEG_INFINITY, 0.0]);
    assert_eq!(order, vec![4, 5, 1, 2, 0, 3]);
}

#[test]
fn sort_indices_agrees_with_a_stable_library_sort() {
    let mut state: u64 = 0x9E37_79B9_7F4A_7C15;
    let mut values: Vec<f64> = Vec::new();
    for _ in 0..500 {
        state = state.wrapping_mul(6364136223846793005).wrapping_add(1442695040888963407);
        values.push(((state >> 40) as f64 - 8_000_000.0) / 1000.0);
        values.push(((state >> 60) as f64) - 8.0);
    }
    let mut expected: Vec<usize> = (0..values.len()).collect();
    expected.sort_by(|&x, &y| values[x].partial_cmp(&values[y]).unwrap());
    assert_eq!(sorted(&values), expected);
}
