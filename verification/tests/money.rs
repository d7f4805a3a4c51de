use proof_of_stake::money::{cent, microcent, millicent, unit};

#[test]
fn money_units_are_powers_of_ten() {
    assert_eq!(unit(0), 1);
    assert_eq!(unit(6), 1_000_000);
    assert_eq!(unit(18), 1_000_000_000_000_000_000);
    assert_eq!(cent(18), 10_000_000_000_000_000);
    assert_eq!(millicent(18), 10_000_000_000_000);
    assert_eq!(microcent(18), 10_000_000_000);
}

#[test]
fn money_units_saturate_at_the_largest_balance() {
    assert_eq!(unit(38), 100_000_000_000_000_000_000_000_000_000_000_000_000);
    assert_eq!(unit(39), u128::MAX);
    assert_eq!(unit(200), u128::MAX);
}
