//! Orders of the auction.

use vstd::prelude::*;
use crate::eth::{Address, Asset, TokenAddress, eth_token};
use crate::u256::U256;

verus! {

/// The 56-byte order identifier: the order digest, the owner and the
/// validity limit.
#[derive(Clone, Copy, Debug, PartialEq, Eq, Structural, Hash)]
pub struct Uid {
    pub digest_hi: u128,
    pub digest_lo: u128,
    pub owner: Address,
    pub valid_to: u32,
}

#[derive(Clone, Copy, Debug, PartialEq, Eq, Structural, Hash)]
pub enum Side {
    Buy,
    Sell,
}

/// Market and limit orders are placed by users; liquidity orders only
/// provide liquidity. Only limit orders let the solver charge a surplus fee.
#[derive(Clone, Copy, Debug, PartialEq, Eq, Structural, Hash)]
pub enum Kind {
    Market,
    Limit,
    Liquidity,
}

#[derive(Clone, Copy, Debug, PartialEq, Eq, Structural, Hash)]
pub struct Order {
    pub uid: Uid,
    pub sell: Asset,
    pub buy: Asset,
    pub fee: U256,
    pub side: Side,
    pub kind: Kind,
    pub partially_fillable: bool,
    pub receiver: Address,
    pub valid_to: u32,
}

impl Order {
    /// Placed by an end user (a market or a limit order).
    pub open spec fn is_user_spec(self) -> bool {
        self.kind == Kind::Market || self.kind == Kind::Limit
    }

    pub fn is_user(&self) -> (r: bool)
        ensures
            r == self.is_user_spec(),
    {
        match self.kind {
            Kind::Market | Kind::Limit => true,
            Kind::Liquidity => false,
        }
    }

    /// Whether the solver may charge a surplus fee on this order.
    pub fn has_solver_fee(&self) -> (r: bool)
        ensures
            r == (self.kind == Kind::Limit),
    {
        match self.kind {
            Kind::Limit => true,
            _ => false,
        }
    }

    /// Whether the order buys the native currency.
    pub fn buys_eth(&self) -> (r: bool)
        ensures
            r == (self.buy.token == eth_token()),
    {
        self.buy.token.is_eth()
    }

    /// Whether the order sells or buys the given token.
    pub fn trades_token(&self, token: TokenAddress) -> (r: bool)
        ensures
            r == (self.sell.token == token || self.buy.token == token),
    {
        self.sell.token == token || self.buy.token == token
    }
}

} // verus!
