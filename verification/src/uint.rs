//! Unsigned numbers of 256 bits, as the chain counts gas and fees.
//!
//! A number is held as four words of 64 bits, the least significant first.
//! Products, quotients, sums and differences are computed by the `U256` of
//! `ethers`; the trusted functions at the end of this file say what is relied
//! on. Comparisons are made here.

use vstd::prelude::*;

verus! {

/// An unsigned number of 256 bits.
#[derive(Debug, Clone, Copy, PartialEq, Eq, Hash)]
pub struct U256 {
    /// The four words of the number, the least significant first.
    pub limbs: [u64; 4],
}

/// The number that four words denote.
pub open spec fn limbs_value(limbs: [u64; 4]) -> nat {
    limbs[0] as nat + limbs[1] as nat * 0x1_0000_0000_0000_0000nat + limbs[2] as nat
        * 0x1_0000_0000_0000_0000_0000_0000_0000_0000nat + limbs[3] as nat
        * 0x1_0000_0000_0000_0000_0000_0000_0000_0000_0000_0000_0000_0000nat
}

/// The greatest number of 256 bits.
pub open spec fn u256_max() -> nat {
    0xffff_ffff_ffff_ffff_ffff_ffff_ffff_ffff_ffff_ffff_ffff_ffff_ffff_ffff_ffff_ffffnat
}

impl View for U256 {
    type V = nat;

    open spec fn view(&self) -> nat {
        limbs_value(self.limbs)
    }
}

impl U256 {
    /// The number of 256 bits with the value of a number of 64 bits.
    pub fn from_u64(value: u64) -> (x: U256)
        ensures
            x@ == value,
    {
        U256 { limbs: [value, 0, 0, 0] }
    }

    /// Whether the number is zero.
    pub fn is_zero(&self) -> (zero: bool)
        ensures
            zero == (self@ == 0),
    {
        self.limbs[0] == 0 && self.limbs[1] == 0 && self.limbs[2] == 0 && self.limbs[3] == 0
    }

    /// Whether the number is greater than the other.
    pub fn gt(&self, other: &U256) -> (greater: bool)
        ensures
            greater == (self@ > other@),
    {
        if self.limbs[3] != other.limbs[3] {
            self.limbs[3] > other.limbs[3]
        } else if self.limbs[2] != other.limbs[2] {
            self.limbs[2] > other.limbs[2]
        } else if self.limbs[1] != other.limbs[1] {
            self.limbs[1] > other.limbs[1]
        } else {
            self.limbs[0] > other.limbs[0]
        }
    }
}

/// Calls `U256::checked_mul` of `ethers` on the two numbers.
///
/// Trusted: it gives the product of the two values, or `None` where the
/// product does not fit 256 bits.
#[verifier::external_body]
pub(crate) fn uint_checked_mul(a: U256, b: U256) -> (product: Option<U256>)
    ensures
        product matches Some(p) ==> p@ == a@ * b@,
        product is None ==> a@ * b@ > u256_max(),
{
    match ethers::types::U256(a.limbs).checked_mul(ethers::types::U256(b.limbs)) {
        Some(p) => Some(U256 { limbs: p.0 }),
        None => None,
    }
}

/// Calls `U256::checked_add` of `ethers` on the two numbers.
///
/// Trusted: it gives the sum of the two values, or `None` where the sum does
/// not fit 256 bits.
#[verifier::external_body]
pub(crate) fn uint_checked_add(a: U256, b: U256) -> (sum: Option<U256>)
    ensures
        sum matches Some(s) ==> s@ == a@ + b@,
        sum is None ==> a@ + b@ > u256_max(),
{
    match ethers::types::U256(a.limbs).checked_add(ethers::types::U256(b.limbs)) {
        Some(s) => Some(U256 { limbs: s.0 }),
        None => None,
    }
}

/// Calls `U256::checked_sub` of `ethers` on the two numbers.
///
/// Trusted: it gives the first value less the second, or `None` where the
/// second is the greater.
#[verifier::external_body]
pub(crate) fn uint_checked_sub(a: U256, b: U256) -> (difference: Option<U256>)
    ensures
        difference matches Some(d) ==> a@ >= b@ && d@ == a@ - b@,
        difference is None ==> a@ < b@,
{
    match ethers::types::U256(a.limbs).checked_sub(ethers::types::U256(b.limbs)) {
        Some(d) => Some(U256 { limbs: d.0 }),
        None => None,
    }
}

/// Calls `U256::checked_div` of `ethers` on the two numbers.
///
/// Trusted: it gives the first value divided by the second, rounded down, or
/// `None` where the second is zero.
#[verifier::external_body]
pub(crate) fn uint_checked_div(a: U256, b: U256) -> (quotient: Option<U256>)
    ensures
        quotient matches Some(q) ==> b@ > 0 && q@ == a@ / b@,
        quotient is None ==> b@ == 0,
{
    match ethers::types::U256(a.limbs).checked_div(ethers::types::U256(b.limbs)) {
        Some(q) => Some(U256 { limbs: q.0 }),
        None => None,
    }
}

} // verus!
