use rna_secondary_structure::distance_metrics::{
    get_mountain_diameter, get_mountain_distance, get_mountain_vector, get_structure_star,
    get_structure_zero, SecondaryStructureMetricError,
};
use rna_secondary_structure::secondary_structure::from_dotbracketstring;

#[test]
fn test_mountain_vector() {
    let paired = from_dotbracketstring("(((...)))").unwrap();
    let mountain_obs = get_mountain_vector(&paired);
    let mountain_exp = vec![1, 2, 3, 3, 3, 3, 2, 1, 0];
    assert_eq!(mountain_obs, mountain_exp);
}

#[test]
fn test_structure_star_and_zero() {
    let structure_star = get_structure_star(10);
    let paired_expected = from_dotbracketstring("((((..))))").unwrap();
    assert_eq!(structure_star, paired_expected);

    let structure0 = get_structure_zero(10);
    let unpaired_expected = from_dotbracketstring("..........").unwrap();
    assert_eq!(structure0, unpaired_expected);
}

#[test]
fn test_mountain_distance_symmetry_and_self() {
    let a = from_dotbracketstring("((..)..)").unwrap();
    let b = from_dotbracketstring("(......)").unwrap();
    assert_eq!(
        get_mountain_distance(&a, &b).unwrap(),
        get_mountain_distance(&b, &a).unwrap()
    );
    assert_eq!(get_mountain_distance(&a, &a).unwrap(), 0);
    assert_eq!(get_mountain_distance(&b, &b).unwrap(), 0);

    // the self-distance is zero under any exponent
    let m1 = get_mountain_vector(&a);
    let m2 = get_mountain_vector(&a);
    let d2: f64 = m1
        .iter()
        .zip(m2.iter())
        .map(|(x, y)| (((x - y).abs()) as f64).powf(2.0))
        .sum();
    assert_eq!(d2, 0.0);
}

#[test]
fn test_mountain_distance_unequal_length() {
    let a = from_dotbracketstring("(...)").unwrap();
    let b = from_dotbracketstring("(....)").unwrap();
    assert_eq!(
        get_mountain_distance(&a, &b).unwrap_err(),
        SecondaryStructureMetricError::UnequalLength
    );
}

#[test]
fn test_mountain_diameter_and_normalised_distance() {
    // the diameter of length 10 is the distance between the maximally paired
    // structure and the fully unpaired one
    let star = get_structure_star(10);
    let zero = get_structure_zero(10);
    let d = get_mountain_distance(&star, &zero).unwrap();
    let diameter = get_mountain_diameter(10);
    assert_eq!(d, diameter);
    assert_eq!(diameter, 24);

    // those two structures are maximally distant: normalised distance one
    let normalised = (d as f64) / (diameter as f64);
    assert_eq!(normalised, 1.0);

    // a structure is at normalised distance zero from itself
    let self_d = get_mountain_distance(&star, &star).unwrap();
    assert_eq!((self_d as f64) / (diameter as f64), 0.0);
}
