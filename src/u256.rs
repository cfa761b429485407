//! 256-bit unsigned amounts, laid out as primitive_types lays them out.

use vstd::prelude::*;

verus! {

/// The largest value that 256 bits hold.
pub open spec fn u256_max() -> nat {
    0xffff_ffff_ffff_ffff_ffff_ffff_ffff_ffff_ffff_ffff_ffff_ffff_ffff_ffff_ffff_ffffnat
}

/// An unsigned 256-bit integer held as four words, least significant first.
#[derive(Clone, Copy, Debug, PartialEq, Eq, Structural, Hash)]
pub struct U256 {
    pub w0: u64,
    pub w1: u64,
    pub w2: u64,
    pub w3: u64,
}

/// The largest value, word by word.
pub open spec fn u256_max_value() -> U256 {
    U256 {
        w0: 0xffff_ffff_ffff_ffff,
        w1: 0xffff_ffff_ffff_ffff,
        w2: 0xffff_ffff_ffff_ffff,
        w3: 0xffff_ffff_ffff_ffff,
    }
}

impl View for U256 {
    type V = nat;

    open spec fn view(&self) -> nat {
        self.w0 as nat + self.w1 as nat * 0x1_0000_0000_0000_0000
            + self.w2 as nat * 0x1_0000_0000_0000_0000_0000_0000_0000_0000
            + self.w3 as nat * 0x1_0000_0000_0000_0000_0000_0000_0000_0000_0000_0000_0000_0000
    }
}

/// Relies on `<primitive_types::U256 as PartialOrd>::le`, which compares the
/// numeric values (word by word from the most significant one).
#[verifier::external_body]
fn primitive_le(a: U256, b: U256) -> (r: bool)
    ensures
        r == (a@ <= b@),
{
    let a = primitive_types::U256([a.w0, a.w1, a.w2, a.w3]);
    let b = primitive_types::U256([b.w0, b.w1, b.w2, b.w3]);
    a <= b
}

/// Relies on `primitive_types::U256::saturating_add`: the sum, or the
/// maximum value when the sum does not fit.
#[verifier::external_body]
fn primitive_saturating_add(a: U256, b: U256) -> (r: U256)
    ensures
        r@ == if a@ + b@ <= u256_max() { a@ + b@ } else { u256_max() },
{
    let a = primitive_types::U256([a.w0, a.w1, a.w2, a.w3]);
    let b = primitive_types::U256([b.w0, b.w1, b.w2, b.w3]);
    let primitive_types::U256(w) = a.saturating_add(b);
    U256 { w0: w[0], w1: w[1], w2: w[2], w3: w[3] }
}

/// Relies on `primitive_types::U256::checked_add`: the sum, or `None` when it
/// does not fit.
#[verifier::external_body]
fn primitive_checked_add(a: U256, b: U256) -> (r: Option<U256>)
    ensures
        match r {
            Some(s) => a@ + b@ <= u256_max() && s@ == a@ + b@,
            None => a@ + b@ > u256_max(),
        },
{
    let a = primitive_types::U256([a.w0, a.w1, a.w2, a.w3]);
    let b = primitive_types::U256([b.w0, b.w1, b.w2, b.w3]);
    a.checked_add(b).map(|primitive_types::U256(w)| U256 { w0: w[0], w1: w[1], w2: w[2], w3: w[3] })
}

/// Every value fits in 256 bits.
pub proof fn lemma_bounded(x: U256)
    ensures
        x@ <= u256_max(),
{
}

/// Relies on `primitive_types::U256::checked_sub`: the difference, or `None`
/// when `b` exceeds `a`.
#[verifier::external_body]
fn primitive_checked_sub(a: U256, b: U256) -> (r: Option<U256>)
    ensures
        match r {
            Some(d) => b@ <= a@ && d@ == a@ - b@,
            None => b@ > a@,
        },
{
    let a = primitive_types::U256([a.w0, a.w1, a.w2, a.w3]);
    let b = primitive_types::U256([b.w0, b.w1, b.w2, b.w3]);
    a.checked_sub(b).map(|primitive_types::U256(w)| U256 { w0: w[0], w1: w[1], w2: w[2], w3: w[3] })
}

/// Relies on `primitive_types::U256::checked_mul`: the product, or `None`
/// when it does not fit.
#[verifier::external_body]
fn primitive_checked_mul(a: U256, b: U256) -> (r: Option<U256>)
    ensures
        match r {
            Some(p) => a@ * b@ <= u256_max() && p@ == a@ * b@,
            None => a@ * b@ > u256_max(),
        },
{
    let a = primitive_types::U256([a.w0, a.w1, a.w2, a.w3]);
    let b = primitive_types::U256([b.w0, b.w1, b.w2, b.w3]);
    a.checked_mul(b).map(|primitive_types::U256(w)| U256 { w0: w[0], w1: w[1], w2: w[2], w3: w[3] })
}

/// Relies on `primitive_types::U256::checked_div`: the quotient rounded
/// down, or `None` for a zero divisor.
#[verifier::external_body]
fn primitive_checked_div(a: U256, b: U256) -> (r: Option<U256>)
    ensures
        match r {
            Some(q) => b@ != 0 && q@ == a@ / b@,
            None => b@ == 0,
        },
{
    let a = primitive_types::U256([a.w0, a.w1, a.w2, a.w3]);
    let b = primitive_types::U256([b.w0, b.w1, b.w2, b.w3]);
    a.checked_div(b).map(|primitive_types::U256(w)| U256 { w0: w[0], w1: w[1], w2: w[2], w3: w[3] })
}

/// Relies on `primitive_types::U256::checked_rem`: the remainder, or `None`
/// for a zero divisor.
#[verifier::external_body]
fn primitive_checked_rem(a: U256, b: U256) -> (r: Option<U256>)
    ensures
        match r {
            Some(m) => b@ != 0 && m@ == a@ % b@,
            None => b@ == 0,
        },
{
    let a = primitive_types::U256([a.w0, a.w1, a.w2, a.w3]);
    let b = primitive_types::U256([b.w0, b.w1, b.w2, b.w3]);
    a.checked_rem(b).map(|primitive_types::U256(w)| U256 { w0: w[0], w1: w[1], w2: w[2], w3: w[3] })
}

impl U256 {
    pub fn zero() -> (r: U256)
        ensures
            r@ == 0,
    {
        U256 { w0: 0, w1: 0, w2: 0, w3: 0 }
    }

    /// The largest representable value.
    pub fn max_value() -> (r: U256)
        ensures
            r@ == u256_max(),
            r == u256_max_value(),
    {
        let r = U256 {
            w0: 0xffff_ffff_ffff_ffff,
            w1: 0xffff_ffff_ffff_ffff,
            w2: 0xffff_ffff_ffff_ffff,
            w3: 0xffff_ffff_ffff_ffff,
        };
        r
    }

    pub fn from_u64(x: u64) -> (r: U256)
        ensures
            r@ == x,
    {
        U256 { w0: x, w1: 0, w2: 0, w3: 0 }
    }

    pub fn from_u128(x: u128) -> (r: U256)
        ensures
            r@ == x,
    {
        let lo: u128 = x % 0x1_0000_0000_0000_0000;
        let hi: u128 = x / 0x1_0000_0000_0000_0000;
        U256 { w0: lo as u64, w1: hi as u64, w2: 0, w3: 0 }
    }

    pub fn from_words(words: [u64; 4]) -> (r: U256)
        ensures
            r.w0 == words[0],
            r.w1 == words[1],
            r.w2 == words[2],
            r.w3 == words[3],
    {
        U256 { w0: words[0], w1: words[1], w2: words[2], w3: words[3] }
    }

    pub fn is_zero(self) -> (r: bool)
        ensures
            r == (self@ == 0),
    {
        self.w0 == 0 && self.w1 == 0 && self.w2 == 0 && self.w3 == 0
    }

    pub fn le(self, other: U256) -> (r: bool)
        ensures
            r == (self@ <= other@),
    {
        primitive_le(self, other)
    }

    pub fn lt(self, other: U256) -> (r: bool)
        ensures
            r == (self@ < other@),
    {
        !primitive_le(other, self)
    }

    /// Whether both hold the same number.
    pub fn same_value(self, other: U256) -> (r: bool)
        ensures
            r == (self@ == other@),
    {
        primitive_le(self, other) && primitive_le(other, self)
    }

    pub fn saturating_add(self, other: U256) -> (r: U256)
        ensures
            r@ == if self@ + other@ <= u256_max() { self@ + other@ } else { u256_max() },
    {
        primitive_saturating_add(self, other)
    }

    pub fn checked_add(self, other: U256) -> (r: Option<U256>)
        ensures
            r.is_some() == (self@ + other@ <= u256_max()),
            r.is_some() ==> r.unwrap()@ == self@ + other@,
    {
        primitive_checked_add(self, other)
    }

    pub fn checked_sub(self, other: U256) -> (r: Option<U256>)
        ensures
            r.is_some() == (other@ <= self@),
            r.is_some() ==> r.unwrap()@ == self@ - other@,
    {
        primitive_checked_sub(self, other)
    }

    pub fn checked_mul(self, other: U256) -> (r: Option<U256>)
        ensures
            r.is_some() == (self@ * other@ <= u256_max()),
            r.is_some() ==> r.unwrap()@ == self@ * other@,
    {
        primitive_checked_mul(self, other)
    }

    pub fn checked_rem(self, other: U256) -> (r: Option<U256>)
        ensures
            r.is_some() == (other@ != 0),
            r.is_some() ==> r.unwrap()@ == self@ % other@,
    {
        primitive_checked_rem(self, other)
    }

    pub fn checked_div(self, other: U256) -> (r: Option<U256>)
        ensures
            r.is_some() == (other@ != 0),
            r.is_some() ==> r.unwrap()@ == self@ / other@,
    {
        primitive_checked_div(self, other)
    }
}

} // verus!
