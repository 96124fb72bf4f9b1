//! Arbitrary-precision natural numbers stored as little-endian 32-bit limbs.
//! Every arithmetic operation is carried out by `num_bigint::BigUint`: each
//! operand enters through `BigUint::new` and each result leaves through
//! `BigUint::to_u32_digits`, both with the least significant limb first.

use num_bigint::BigUint;
use num_integer::Integer;
use vstd::prelude::*;

verus! {

/// The value of a little-endian sequence of 32-bit limbs.
pub open spec fn limbs_value(s: Seq<u32>) -> nat
    decreases s.len(),
{
    if s.len() == 0 {
        0
    } else {
        s[0] as nat + 0x1_0000_0000nat * limbs_value(s.drop_first())
    }
}

/// `a` and `b` have no common divisor greater than one.
pub open spec fn coprime(a: nat, b: nat) -> bool {
    forall|d: nat| d > 1 ==> !(#[trigger] (a % d) == 0 && b % d == 0)
}

/// A natural number of any size.
pub struct BigNat {
    limbs: Vec<u32>,
}

impl View for BigNat {
    type V = nat;

    closed spec fn view(&self) -> nat {
        limbs_value(self.limbs@)
    }
}

impl BigNat {
    pub fn from_u32(n: u32) -> (r: BigNat)
        ensures
            r@ == n as nat,
    {
        if n == 0 {
            let r = BigNat { limbs: Vec::new() };
            assert(r.limbs@.len() == 0);
            r
        } else {
            let r = BigNat { limbs: vec![n] };
            proof {
                assert(r.limbs@.drop_first().len() == 0);
                assert(limbs_value(r.limbs@.drop_first()) == 0);
            }
            r
        }
    }

    pub fn from_u64(n: u64) -> (r: BigNat)
        ensures
            r@ == n as nat,
    {
        let lo = (n % 0x1_0000_0000) as u32;
        let hi = (n / 0x1_0000_0000) as u32;
        let r = BigNat { limbs: vec![lo, hi] };
        proof {
            let s = r.limbs@;
            assert(s.drop_first().drop_first().len() == 0);
            assert(limbs_value(s.drop_first().drop_first()) == 0);
            assert(s.drop_first()[0] == hi);
            assert(limbs_value(s.drop_first()) == hi as nat);
            assert(n == lo as nat + 0x1_0000_0000nat * hi as nat);
        }
        r
    }

    /// Builds a number from little-endian 32-bit limbs.
    pub fn from_limbs(limbs: Vec<u32>) -> (r: BigNat)
        ensures
            r@ == limbs_value(limbs@),
    {
        BigNat { limbs }
    }

    /// The little-endian 32-bit limbs of this number.
    pub fn to_limbs(&self) -> (r: Vec<u32>)
        ensures
            limbs_value(r@) == self@,
    {
        let mut r: Vec<u32> = Vec::new();
        let mut i: usize = 0;
        while i < self.limbs.len()
            invariant
                i <= self.limbs@.len(),
                r@ == self.limbs@.subrange(0, i as int),
            decreases self.limbs@.len() - i,
        {
            r.push(self.limbs[i]);
            i = i + 1;
            proof {
                assert(r@ =~= self.limbs@.subrange(0, i as int));
            }
        }
        proof {
            assert(r@ =~= self.limbs@);
        }
        r
    }

    pub fn is_zero(&self) -> (r: bool)
        ensures
            r == (self@ == 0),
    {
        le(self, &BigNat::from_u32(0))
    }
}

impl Clone for BigNat {
    fn clone(&self) -> (r: Self)
        ensures
            r@ == self@,
    {
        BigNat { limbs: self.to_limbs() }
    }
}

impl PartialEq for BigNat {
    fn eq(&self, other: &BigNat) -> (r: bool) {
        le(self, other) && le(other, self)
    }
}

impl vstd::std_specs::cmp::PartialEqSpecImpl for BigNat {
    open spec fn obeys_eq_spec() -> bool {
        true
    }

    open spec fn eq_spec(&self, other: &BigNat) -> bool {
        self@ == other@
    }
}

/// Relies on `BigUint`'s `+`: the exact sum.
#[verifier::external_body]
pub(crate) fn nat_add(a: &BigNat, b: &BigNat) -> (r: BigNat)
    ensures
        r@ == a@ + b@,
{
    let s = BigUint::new(a.limbs.clone()) + BigUint::new(b.limbs.clone());
    BigNat { limbs: s.to_u32_digits() }
}

/// Relies on `BigUint`'s `<=`.
#[verifier::external_body]
pub(crate) fn le(a: &BigNat, b: &BigNat) -> (r: bool)
    ensures
        r == (a@ <= b@),
{
    BigUint::new(a.limbs.clone()) <= BigUint::new(b.limbs.clone())
}

/// Relies on `BigUint`'s `-`, which panics when the result would be negative.
#[verifier::external_body]
pub(crate) fn nat_sub(a: &BigNat, b: &BigNat) -> (r: BigNat)
    requires
        b@ <= a@,
    ensures
        r@ == a@ - b@,
{
    let s = BigUint::new(a.limbs.clone()) - BigUint::new(b.limbs.clone());
    BigNat { limbs: s.to_u32_digits() }
}

/// Relies on `BigUint`'s `*`: the exact product.
#[verifier::external_body]
pub(crate) fn nat_mul(a: &BigNat, b: &BigNat) -> (r: BigNat)
    ensures
        r@ == a@ * b@,
{
    let s = BigUint::new(a.limbs.clone()) * BigUint::new(b.limbs.clone());
    BigNat { limbs: s.to_u32_digits() }
}

/// Relies on `num_integer::Integer::div_rem` for `BigUint`: quotient and
/// remainder of the division, which panics on a zero divisor.
#[verifier::external_body]
pub(crate) fn div_rem(a: &BigNat, b: &BigNat) -> (r: (BigNat, BigNat))
    requires
        b@ > 0,
    ensures
        r.0@ == a@ / b@,
        r.1@ == a@ % b@,
{
    let (q, m) = BigUint::new(a.limbs.clone()).div_rem(&BigUint::new(b.limbs.clone()));
    (BigNat { limbs: q.to_u32_digits() }, BigNat { limbs: m.to_u32_digits() })
}

/// Relies on `num_integer::Integer::gcd` for `BigUint`: the greatest common
/// divisor, which is zero only when both arguments are.
#[verifier::external_body]
pub(crate) fn gcd(a: &BigNat, b: &BigNat) -> (r: BigNat)
    ensures
        a@ > 0 || b@ > 0 ==> r@ > 0,
        r@ > 0 ==> a@ % r@ == 0 && b@ % r@ == 0,
        a@ > 0 || b@ > 0 ==> forall|d: nat|
            d > 0 && #[trigger] (a@ % d) == 0 && b@ % d == 0 ==> d <= r@,
{
    let g = BigUint::new(a.limbs.clone()).gcd(&BigUint::new(b.limbs.clone()));
    BigNat { limbs: g.to_u32_digits() }
}

/// Relies on `BigUint::modinv`: an inverse of `a` modulo `m`, which exists
/// when the two are coprime; the call panics on a zero modulus.
#[verifier::external_body]
pub(crate) fn mod_inverse(a: &BigNat, m: &BigNat) -> (r: Option<BigNat>)
    requires
        m@ > 0,
    ensures
        coprime(a@, m@) ==> r is Some,
        r matches Some(x) ==> x@ < m@ && (a@ * x@) % m@ == 1nat % m@,
{
    match BigUint::new(a.limbs.clone()).modinv(&BigUint::new(m.limbs.clone())) {
        Some(x) => Some(BigNat { limbs: x.to_u32_digits() }),
        None => None,
    }
}

} // verus!
