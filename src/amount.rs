//! 256-bit unsigned amounts (prices, quantities, balances).
//!
//! An `Amount` holds four 64-bit limbs, least significant first; its mathematical value
//! is `Amount::value`. Arithmetic is carried out by `alloy`'s `U256`.

use vstd::prelude::*;
use alloy::primitives::U256;

verus! {

/// 2^128, the bound below which order quantities and prices must lie.
pub open spec fn order_bound() -> nat {
    0x1_0000_0000_0000_0000_0000_0000_0000_0000nat
}

/// 2^256 - 1, the largest amount.
pub open spec fn amount_max() -> nat {
    0xffff_ffff_ffff_ffff_ffff_ffff_ffff_ffff_ffff_ffff_ffff_ffff_ffff_ffff_ffff_ffffnat
}

/// `a + b`, saturating at the largest amount.
pub open spec fn sat_add(a: nat, b: nat) -> nat {
    if a + b <= amount_max() { a + b } else { amount_max() }
}

/// `a - b`, saturating at zero.
pub open spec fn sat_sub(a: nat, b: nat) -> nat {
    if b <= a { (a - b) as nat } else { 0 }
}

/// `a * b`, saturating at the largest amount.
pub open spec fn sat_mul(a: nat, b: nat) -> nat {
    if a * b <= amount_max() { a * b } else { amount_max() }
}

/// `n` as `k` little-endian bytes (the high part beyond `k` bytes is dropped).
pub open spec fn le_bytes(n: nat, k: nat) -> Seq<u8>
    decreases k,
{
    if k == 0 {
        Seq::empty()
    } else {
        seq![(n % 256) as u8] + le_bytes(n / 256, (k - 1) as nat)
    }
}

#[derive(Clone, Copy, Debug)]
pub struct Amount {
    /// Least significant limb.
    pub l0: u64,
    pub l1: u64,
    pub l2: u64,
    /// Most significant limb.
    pub l3: u64,
}

impl Amount {
    pub open spec fn value(self) -> nat {
        self.l0 as nat + self.l1 as nat * 0x1_0000_0000_0000_0000nat + self.l2 as nat
            * 0x1_0000_0000_0000_0000_0000_0000_0000_0000nat + self.l3 as nat
            * 0x1_0000_0000_0000_0000_0000_0000_0000_0000_0000_0000_0000_0000nat
    }

    pub proof fn lemma_value_bounded(self)
        ensures
            self.value() <= amount_max(),
    {
    }

    pub fn zero() -> (r: Amount)
        ensures
            r.value() == 0,
    {
        Amount { l0: 0, l1: 0, l2: 0, l3: 0 }
    }

    pub fn from_u64(x: u64) -> (r: Amount)
        ensures
            r.value() == x as nat,
    {
        Amount { l0: x, l1: 0, l2: 0, l3: 0 }
    }

    pub fn from_u128(x: u128) -> (r: Amount)
        ensures
            r.value() == x as nat,
    {
        let lo: u64 = #[verifier::truncate] (x as u64);
        let hi: u64 = (x >> 64u128) as u64;
        assert(x == (x & 0xffff_ffff_ffff_ffffu128) + (x >> 64u128) * 0x1_0000_0000_0000_0000u128)
            by (bit_vector);
        assert(lo == (x & 0xffff_ffff_ffff_ffffu128)) by (bit_vector)
            requires lo == #[verifier::truncate] (x as u64);
        assert((x >> 64u128) <= 0xffff_ffff_ffff_ffffu128) by (bit_vector);
        Amount { l0: lo, l1: hi, l2: 0, l3: 0 }
    }

    /// Whether the value is zero.
    pub fn is_zero(&self) -> (r: bool)
        ensures
            r == (self.value() == 0),
    {
        self.l0 == 0 && self.l1 == 0 && self.l2 == 0 && self.l3 == 0
    }

    /// Whether the value lies below 2^128.
    pub fn below_order_bound(&self) -> (r: bool)
        ensures
            r == (self.value() < order_bound()),
    {
        proof {
            self.lemma_value_bounded();
        }
        self.l2 == 0 && self.l3 == 0
    }
}

/// Relies on `U256::lt` (ruint's `Ord`): numeric comparison.
#[verifier::external_body]
pub(crate) fn lt(a: &Amount, b: &Amount) -> (r: bool)
    ensures
        r == (a.value() < b.value()),
{
    U256::from_limbs([a.l0, a.l1, a.l2, a.l3]) < U256::from_limbs([b.l0, b.l1, b.l2, b.l3])
}

/// Relies on `U256::saturating_add`: the sum, or the largest value on overflow.
#[verifier::external_body]
pub(crate) fn saturating_add(a: &Amount, b: &Amount) -> (r: Amount)
    ensures
        a.value() + b.value() <= amount_max() ==> r.value() == a.value() + b.value(),
        a.value() + b.value() > amount_max() ==> r.value() == amount_max(),
        r.value() == sat_add(a.value(), b.value()),
{
    let [l0, l1, l2, l3] = U256::from_limbs([a.l0, a.l1, a.l2, a.l3])
        .saturating_add(U256::from_limbs([b.l0, b.l1, b.l2, b.l3]))
        .into_limbs();
    Amount { l0, l1, l2, l3 }
}

/// Relies on `U256::saturating_sub`: the difference, or zero where `b > a`.
#[verifier::external_body]
pub(crate) fn saturating_sub(a: &Amount, b: &Amount) -> (r: Amount)
    ensures
        b.value() <= a.value() ==> r.value() == a.value() - b.value(),
        b.value() > a.value() ==> r.value() == 0,
        r.value() == sat_sub(a.value(), b.value()),
{
    let [l0, l1, l2, l3] = U256::from_limbs([a.l0, a.l1, a.l2, a.l3])
        .saturating_sub(U256::from_limbs([b.l0, b.l1, b.l2, b.l3]))
        .into_limbs();
    Amount { l0, l1, l2, l3 }
}

/// Relies on `U256::saturating_mul`: the product, or the largest value on overflow.
#[verifier::external_body]
pub(crate) fn saturating_mul(a: &Amount, b: &Amount) -> (r: Amount)
    ensures
        a.value() * b.value() <= amount_max() ==> r.value() == a.value() * b.value(),
        a.value() * b.value() > amount_max() ==> r.value() == amount_max(),
        r.value() == sat_mul(a.value(), b.value()),
{
    let [l0, l1, l2, l3] = U256::from_limbs([a.l0, a.l1, a.l2, a.l3])
        .saturating_mul(U256::from_limbs([b.l0, b.l1, b.l2, b.l3]))
        .into_limbs();
    Amount { l0, l1, l2, l3 }
}

/// Relies on `U256::to_le_bytes`: the 32 little-endian bytes of the value.
#[verifier::external_body]
pub(crate) fn to_le_bytes(a: &Amount) -> (r: [u8; 32])
    ensures
        r@ == le_bytes(a.value(), 32),
{
    U256::from_limbs([a.l0, a.l1, a.l2, a.l3]).to_le_bytes::<32>()
}

/// Whether `a <= b`.
pub fn le(a: &Amount, b: &Amount) -> (r: bool)
    ensures
        r == (a.value() <= b.value()),
{
    !lt(b, a)
}

/// Whether `a` and `b` have the same value.
pub fn same(a: &Amount, b: &Amount) -> (r: bool)
    ensures
        r == (a.value() == b.value()),
{
    !lt(a, b) && !lt(b, a)
}

/// The smaller of two amounts.
pub fn min(a: &Amount, b: &Amount) -> (r: Amount)
    ensures
        r.value() == if a.value() <= b.value() { a.value() } else { b.value() },
{
    if le(a, b) { *a } else { *b }
}

} // verus!
