use num_bigint::BigUint;

use rna_secondary_structure::combinatorics::count_structures;

#[test]
fn test_count_structures_no_gap() {
    // with no minimum gap the counts are the Motzkin numbers
    assert_eq!(count_structures(0, 0), BigUint::from(1u32));
    assert_eq!(count_structures(1, 0), BigUint::from(1u32));
    assert_eq!(count_structures(2, 0), BigUint::from(2u32));
    assert_eq!(count_structures(3, 0), BigUint::from(4u32));
    assert_eq!(count_structures(4, 0), BigUint::from(9u32));
    assert_eq!(count_structures(5, 0), BigUint::from(21u32));
    assert_eq!(count_structures(6, 0), BigUint::from(51u32));
}

#[test]
fn test_count_structures_with_gap() {
    // a pair must enclose at least three unpaired sites
    assert_eq!(count_structures(3, 3), BigUint::from(1u32));
    assert_eq!(count_structures(4, 3), BigUint::from(1u32));
    assert_eq!(count_structures(5, 3), BigUint::from(2u32));
    assert_eq!(count_structures(6, 3), BigUint::from(4u32));
}

#[test]
fn test_count_structures_grows_large() {
    // the count for a long sequence exceeds any fixed-width integer
    let c = count_structures(200, 3);
    assert!(c > BigUint::from(u128::MAX));
}
