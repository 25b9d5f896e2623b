use weighted_rand::util::gcd_for_slice;

#[test]
fn gcd_pattern_1() {
    let actual = gcd_for_slice(&[4, 20, 32]);
    assert_eq!(actual, 4)
}

#[test]
fn gcd_pattern_2() {
    let actual = gcd_for_slice(&[77, 9, 25]);
    assert_eq!(actual, 1)
}

#[test]
fn gcd_pattern_3() {
    let actual = gcd_for_slice(&[11, 0, 22]);
    assert_eq!(actual, 11)
}

#[test]
fn gcd_pattern_4() {
    let actual = gcd_for_slice(&[]);
    assert_eq!(actual, 0)
}

#[test]
fn gcd_of_all_zero_values_is_zero() {
    assert_eq!(gcd_for_slice(&[0, 0, 0]), 0);
}

#[test]
fn gcd_skips_leading_zeros() {
    assert_eq!(gcd_for_slice(&[0, 0, 18, 12]), 6);
    assert_eq!(gcd_for_slice(&[0, 7]), 7);
}
