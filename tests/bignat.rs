use egyptian::bignat::BigNat;
use egyptian::decompose::as_egyptian_fraction_symbolic;
use num_bigint::BigUint;

fn big(n: u64) -> BigNat {
    BigNat::from_u64(n)
}

fn val(x: &BigNat) -> BigUint {
    BigUint::new(x.to_limbs())
}

#[test]
fn construction_round_trips() {
    assert_eq!(val(&big(0)), BigUint::from(0u32));
    assert_eq!(val(&big(u64::MAX)), BigUint::from(u64::MAX));
    assert_eq!(val(&BigNat::from_u32(77)), BigUint::from(77u32));
    assert_eq!(val(&BigNat::from_limbs(vec![1, 2])), BigUint::from((2u64 << 32) + 1));
    assert_eq!(val(&big(9).clone()), BigUint::from(9u32));
}

#[test]
fn zero_and_equality() {
    assert!(big(0).is_zero());
    assert!(BigNat::from_limbs(vec![0, 0]).is_zero());
    assert!(!big(3).is_zero());
    assert!(big(5) == big(5));
    assert!(big(5) != big(6));
    assert!(BigNat::from_limbs(vec![5, 0]) == big(5));
}

#[test]
fn recurrence_on_seven_elevenths() {
    // 7 * 8 = 1 (mod 11) gives the step 11 - 8 = 3 and a run of three terms
    // with base 2; what is left is 1/2.
    let s = as_egyptian_fraction_symbolic(&big(7), &big(11));
    let q: Vec<(BigUint, BigUint, BigUint, BigUint)> =
        s.iter().map(|t| (val(&t.base), val(&t.step), val(&t.start), val(&t.end))).collect();
    let n = |k: u32| BigUint::from(k);
    assert_eq!(q, vec![(n(1), n(1), n(1), n(1)), (n(2), n(3), n(1), n(3))]);
}
