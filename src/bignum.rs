use num_bigint::BigUint;
use num_traits::{ToPrimitive, Zero};
use vstd::prelude::*;

verus! {

/// The value of a little-endian sequence of base 2^32 limbs.
pub open spec fn limbs_value(limbs: Seq<u32>) -> nat
    decreases limbs.len(),
{
    if limbs.len() == 0 {
        0
    } else {
        (limbs[0] + 0x1_0000_0000 * limbs_value(limbs.drop_first())) as nat
    }
}

/// An unbounded natural number, held as its base 2^32 limbs, least
/// significant first. Arithmetic on it is carried out by `num_bigint`.
pub struct BigNat {
    limbs: Vec<u32>,
}

impl BigNat {
    /// The number this value stands for.
    pub closed spec fn value(&self) -> nat {
        limbs_value(self.limbs@)
    }
}

/// Relies on `num_traits::Zero::zero` for `BigUint`: the number zero.
#[verifier::external_body]
pub(crate) fn big_zero() -> (r: BigNat)
    ensures
        r.value() == 0,
{
    BigNat { limbs: BigUint::zero().to_u32_digits() }
}

/// Relies on `num_traits::Zero::is_zero` for `BigUint`: true exactly on zero.
#[verifier::external_body]
pub(crate) fn big_is_zero(a: &BigNat) -> (r: bool)
    ensures
        r == (a.value() == 0),
{
    BigUint::from_slice(&a.limbs).is_zero()
}

/// Relies on `BigUint * &BigUint`: the exact product.
#[verifier::external_body]
pub(crate) fn big_mul(a: &BigNat, m: usize) -> (r: BigNat)
    ensures
        r.value() == a.value() * m,
{
    BigNat { limbs: (BigUint::from_slice(&a.limbs) * &BigUint::from(m)).to_u32_digits() }
}

/// Relies on `BigUint + BigUint`: the exact sum.
#[verifier::external_body]
pub(crate) fn big_add(a: &BigNat, d: usize) -> (r: BigNat)
    ensures
        r.value() == a.value() + d,
{
    BigNat { limbs: (BigUint::from_slice(&a.limbs) + BigUint::from(d)).to_u32_digits() }
}

/// Relies on `&BigUint % &BigUint`: the remainder of the division, which
/// panics on a zero divisor.
#[verifier::external_body]
pub(crate) fn big_rem(a: &BigNat, d: usize) -> (r: BigNat)
    requires
        d > 0,
    ensures
        r.value() == a.value() % (d as nat),
{
    BigNat { limbs: (&BigUint::from_slice(&a.limbs) % &BigUint::from(d)).to_u32_digits() }
}

/// Relies on `BigUint /= &BigUint`: the quotient rounded down, which panics
/// on a zero divisor.
#[verifier::external_body]
pub(crate) fn big_div(a: &BigNat, d: usize) -> (r: BigNat)
    requires
        d > 0,
    ensures
        r.value() == a.value() / (d as nat),
{
    let mut q = BigUint::from_slice(&a.limbs);
    q /= &BigUint::from(d);
    BigNat { limbs: q.to_u32_digits() }
}

/// Relies on `num_traits::ToPrimitive::to_usize` for `BigUint`: the value
/// when it fits in a `usize`, `None` otherwise.
#[verifier::external_body]
pub(crate) fn big_to_usize(a: &BigNat) -> (r: Option<usize>)
    ensures
        a.value() <= usize::MAX ==> r == Some(a.value() as usize),
        a.value() > usize::MAX ==> r is None,
{
    BigUint::from_slice(&a.limbs).to_usize()
}

} // verus!
