use nl_foundations::order::Order;
use nl_foundations::natural::Natural;

#[test]
fn one_is_one() {
    assert_eq!(Natural::one().compare(&Natural::one()), Order::Equal);
    assert_eq!(Natural::one().times(1).compare(&Natural::one()), Order::Equal);
    assert_eq!(Natural::one().times(0).compare(&Natural::one()), Order::Less);
    assert_eq!(Natural::one().compare(&Natural::one().times(0)), Order::Greater);
    assert_eq!(Natural::one().times(0).compare(&Natural::one().times(0)), Order::Equal);
}

#[test]
fn products_compare_as_numbers() {
    let six = Natural::one().times(2).times(3);
    let also_six = Natural::one().times(6);
    let seven = Natural::one().times(7);
    assert_eq!(six.compare(&also_six), Order::Equal);
    assert_eq!(six.compare(&seven), Order::Less);
    assert_eq!(seven.compare(&six), Order::Greater);
}

#[test]
fn products_beyond_a_machine_word() {
    let m = u128::MAX;
    // (2^128 - 1)^2 against (2^128 - 2) * 2^128 = (2^128 - 1)^2 - 1.
    let square = Natural::one().times(m).times(m);
    let below = Natural::one().times(m - 1).times(1 << 127).times(2);
    assert_eq!(square.compare(&below), Order::Greater);
    assert_eq!(below.compare(&square), Order::Less);
    let again = Natural::one().times(m).times(m);
    assert_eq!(square.compare(&again), Order::Equal);
    // A factor in two halves.
    let halves = Natural::one().times(1 << 64).times(1 << 64);
    let whole = Natural::one().times(1 << 127).times(2);
    assert_eq!(halves.compare(&whole), Order::Equal);
    let carry = Natural::one().times(u64::MAX as u128).times(u64::MAX as u128);
    let expected = Natural::one().times((u64::MAX as u128) * (u64::MAX as u128));
    assert_eq!(carry.compare(&expected), Order::Equal);
}

#[test]
fn the_order_of_the_factors_does_not_matter() {
    let a = Natural::one().times(123_456_789).times(u128::MAX).times(987_654_321_000);
    let b = Natural::one().times(987_654_321_000).times(123_456_789).times(u128::MAX);
    assert_eq!(a.compare(&b), Order::Equal);
    let c = b.times(1);
    assert_eq!(a.compare(&c), Order::Equal);
    let d = Natural::one().times(987_654_321_001).times(123_456_789).times(u128::MAX);
    assert_eq!(a.compare(&d), Order::Less);
}

#[test]
fn numbers_of_different_lengths() {
    let long_zero = Natural::one().times(u128::MAX).times(0);
    let short_one = Natural::one();
    assert_eq!(long_zero.compare(&short_one), Order::Less);
    assert_eq!(short_one.compare(&long_zero), Order::Greater);
    let long = Natural::one().times(u128::MAX).times(u128::MAX).times(u128::MAX);
    assert_eq!(long.compare(&short_one), Order::Greater);
    assert_eq!(short_one.compare(&long), Order::Less);
}
