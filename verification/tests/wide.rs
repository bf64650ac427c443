use loglens::wide::{wide_add, wide_less, wide_mul, wide_sub};

#[test]
fn full_products() {
    assert_eq!(wide_mul(0, u128::MAX), (0, 0));
    assert_eq!(wide_mul(3, 5), (0, 15));
    assert_eq!(wide_mul(1u128 << 64, 1u128 << 64), (1, 0));
    assert_eq!(wide_mul(u128::MAX, u128::MAX), (u128::MAX - 1, 1));
    assert_eq!(wide_mul(u128::MAX, 2), (1, u128::MAX - 1));
}

#[test]
fn sums_differences_and_order() {
    assert_eq!(wide_add((0, u128::MAX), (0, 1)), (1, 0));
    assert_eq!(wide_add((2, 5), (3, 7)), (5, 12));
    assert_eq!(wide_sub((1, 0), (0, 1)), (0, u128::MAX));
    assert_eq!(wide_sub((5, 12), (3, 7)), (2, 5));
    assert!(wide_less((0, u128::MAX), (1, 0)));
    assert!(!wide_less((1, 0), (0, u128::MAX)));
    assert!(wide_less((1, 1), (1, 2)));
    assert!(!wide_less((1, 2), (1, 2)));
}
