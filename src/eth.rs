//! Addresses, tokens and assets.

use vstd::prelude::*;
use crate::u256::U256;

verus! {

/// A 20-byte account address, held as its leading 4 bytes and its trailing 16
/// bytes (both big-endian).
#[derive(Clone, Copy, Debug, PartialEq, Eq, Structural, PartialOrd, Ord, Hash)]
pub struct Address {
    pub hi: u32,
    pub lo: u128,
}

impl Address {
    /// The address read as a 160-bit big-endian number.
    pub open spec fn key(self) -> nat {
        self.hi as nat * 0x1_0000_0000_0000_0000_0000_0000_0000_0000 + self.lo as nat
    }

    pub fn new(hi: u32, lo: u128) -> (r: Address)
        ensures
            r.hi == hi,
            r.lo == lo,
    {
        Address { hi, lo }
    }

    pub fn less_than(self, other: Address) -> (r: bool)
        ensures
            r == (self.key() < other.key()),
    {
        self.hi < other.hi || (self.hi == other.hi && self.lo < other.lo)
    }
}

/// Two addresses with the same number are the same address.
pub proof fn lemma_address_key_injective(a: Address, b: Address)
    requires
        a.key() == b.key(),
    ensures
        a == b,
{
}

/// An ERC-20 token, or the native-currency marker.
#[derive(Clone, Copy, Debug, PartialEq, Eq, Structural, PartialOrd, Ord, Hash)]
pub struct TokenAddress(pub Address);

/// The ERC-20 wrapper of the native currency.
#[derive(Clone, Copy, Debug, PartialEq, Eq, Structural, Hash)]
pub struct WethAddress(pub TokenAddress);

/// The leading bytes of the marker 0xEeeeeEeeeEeEeeEeEeEeeEEEeeeeEeeeeeeeEEeE.
pub const ETH_HI: u32 = 0xeeee_eeee;

/// The trailing bytes of the native-currency marker.
pub const ETH_LO: u128 = 0xeeee_eeee_eeee_eeee_eeee_eeee_eeee_eeee;

/// The marker that stands for the native currency where a token is expected.
pub open spec fn eth_token() -> TokenAddress {
    TokenAddress(Address { hi: ETH_HI, lo: ETH_LO })
}

/// Native currency becomes its wrapped token; any other token stays.
pub open spec fn wrap_spec(token: TokenAddress, weth: WethAddress) -> TokenAddress {
    if token == eth_token() {
        weth.0
    } else {
        token
    }
}

impl TokenAddress {
    /// The native-currency marker.
    pub fn eth() -> (r: TokenAddress)
        ensures
            r == eth_token(),
    {
        TokenAddress(Address { hi: ETH_HI, lo: ETH_LO })
    }

    pub fn is_eth(self) -> (r: bool)
        ensures
            r == (self == eth_token()),
    {
        self.0.hi == ETH_HI && self.0.lo == ETH_LO
    }

    /// The token that stands for this one in prices: native currency is
    /// replaced by its wrapped token.
    pub fn wrap(self, weth: WethAddress) -> (r: TokenAddress)
        ensures
            r == wrap_spec(self, weth),
    {
        if self.is_eth() {
            weth.0
        } else {
            self
        }
    }
}

/// Wrapping is idempotent, maps the native marker to the wrapped token and
/// leaves every other token unchanged.
pub proof fn lemma_wrap(token: TokenAddress, weth: WethAddress)
    ensures
        wrap_spec(wrap_spec(token, weth), weth) == wrap_spec(token, weth),
        wrap_spec(eth_token(), weth) == weth.0,
        token != eth_token() ==> wrap_spec(token, weth) == token,
{
}

/// An amount of one token.
#[derive(Clone, Copy, Debug, PartialEq, Eq, Structural, Hash)]
pub struct Asset {
    pub token: TokenAddress,
    pub amount: U256,
}

/// An amount of the native currency, in wei.
#[derive(Clone, Copy, Debug, PartialEq, Eq, Structural, Hash)]
pub struct Ether(pub U256);

} // verus!
