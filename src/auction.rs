//! The auction a competition round is about, and its deadline.

use vstd::prelude::*;
use crate::eth::TokenAddress;
use crate::order::Order;
use crate::u256::U256;

verus! {

/// An auction identifier.
#[derive(Clone, Copy, Debug, PartialEq, Eq, Structural, Hash)]
pub struct Id(pub u64);

/// A point in time, in milliseconds since the Unix epoch.
#[derive(Clone, Copy, Debug, PartialEq, Eq, Structural, PartialOrd, Ord, Hash)]
pub struct Timestamp {
    pub millis: i64,
}

/// A span of time in milliseconds.
#[derive(Clone, Copy, Debug, PartialEq, Eq, Structural, PartialOrd, Ord, Hash)]
pub struct Duration {
    pub millis: i64,
}

/// The time left to the solver for solving an auction.
#[derive(Clone, Copy, Debug, PartialEq, Eq, Structural)]
pub struct SolverTimeout(pub Duration);

/// The auction's deadline has passed, or is too close to leave the solver
/// any time.
#[derive(Clone, Copy, Debug, PartialEq, Eq, Structural)]
pub struct DeadlineExceeded;

/// Milliseconds clamped to what an `i64` holds.
pub open spec fn clamp_millis(x: int) -> int {
    if x > i64::MAX {
        i64::MAX as int
    } else if x < i64::MIN {
        i64::MIN as int
    } else {
        x
    }
}

impl SolverTimeout {
    /// The moment the timeout runs out, counted from `now`; `None` where
    /// that moment cannot be represented.
    pub fn deadline(self, now: Timestamp) -> (r: Option<Timestamp>)
        ensures
            r is Some <==> i64::MIN <= now.millis + self.0.millis <= i64::MAX,
            r is Some ==> r->Some_0.millis == now.millis + self.0.millis,
    {
        match now.millis.checked_add(self.0.millis) {
            Some(millis) => Some(Timestamp { millis }),
            None => None,
        }
    }

    pub fn duration(self) -> (r: Duration)
        ensures
            r == self.0,
    {
        self.0
    }

    /// The timeout shortened by `duration`.
    pub fn reduce(self, duration: Duration) -> (r: SolverTimeout)
        requires
            i64::MIN <= self.0.millis - duration.millis <= i64::MAX,
        ensures
            r.0.millis == self.0.millis - duration.millis,
    {
        SolverTimeout(Duration { millis: self.0.millis - duration.millis })
    }
}

/// What the driver knows of a token.
#[derive(Clone, Copy, Debug, PartialEq, Eq, Structural)]
pub struct TokenInfo {
    pub address: TokenAddress,
    pub decimals: Option<u8>,
    pub reference_price: Option<U256>,
    /// How much of the token the settlement contract holds.
    pub available_balance: U256,
    /// Whether interactions may be internalized against the contract's
    /// holdings of this token.
    pub trusted: bool,
}

/// Some entry of `tokens` marks `token` as trusted.
pub open spec fn is_trusted(tokens: Seq<TokenInfo>, token: TokenAddress) -> bool {
    exists|i: int| 0 <= i < tokens.len() && #[trigger] tokens[i].address == token && tokens[i].trusted
}

/// Whether some entry of `tokens` marks `token` as trusted.
pub fn trusted(tokens: &Vec<TokenInfo>, token: TokenAddress) -> (r: bool)
    ensures
        r == is_trusted(tokens@, token),
{
    let mut i: usize = 0;
    while i < tokens.len()
        invariant
            i <= tokens.len(),
            forall|j: int| 0 <= j < i ==> !(#[trigger] tokens@[j].address == token && tokens@[j].trusted),
        decreases tokens.len() - i,
    {
        if tokens[i].address == token && tokens[i].trusted {
            return true;
        }
        i += 1;
    }
    false
}

/// An unordered pair of distinct tokens, held with the lower address first.
#[derive(Clone, Copy, Debug, PartialEq, Eq, Structural, Hash)]
pub struct TokenPair {
    pub first: TokenAddress,
    pub second: TokenAddress,
}

/// The pair of two tokens; `None` for a token paired with itself.
pub open spec fn pair_of(a: TokenAddress, b: TokenAddress) -> Option<TokenPair> {
    if a == b {
        None
    } else if a.0.key() < b.0.key() {
        Some(TokenPair { first: a, second: b })
    } else {
        Some(TokenPair { first: b, second: a })
    }
}

impl TokenPair {
    pub fn new(a: TokenAddress, b: TokenAddress) -> (r: Option<TokenPair>)
        ensures
            r == pair_of(a, b),
    {
        if a == b {
            None
        } else if a.0.less_than(b.0) {
            Some(TokenPair { first: a, second: b })
        } else {
            Some(TokenPair { first: b, second: a })
        }
    }
}

/// Some user order of `orders` trades the pair.
pub open spec fn pair_wanted(orders: Seq<Order>, p: TokenPair) -> bool {
    exists|i: int|
        0 <= i < orders.len() && (#[trigger] orders[i]).is_user_spec() && pair_of(
            orders[i].sell.token,
            orders[i].buy.token,
        ) == Some(p)
}

fn has_pair(v: &Vec<TokenPair>, x: TokenPair) -> (r: bool)
    ensures
        r == v@.contains(x),
{
    let mut j: usize = 0;
    while j < v.len()
        invariant
            j <= v.len(),
            forall|q: int| 0 <= q < j ==> v@[q] != x,
        decreases v.len() - j,
    {
        if v[j] == x {
            return true;
        }
        j += 1;
    }
    false
}

/// The orders to settle and the market they are settled in.
pub struct Auction {
    pub id: Option<Id>,
    pub deadline: Timestamp,
    pub orders: Vec<Order>,
    pub tokens: Vec<TokenInfo>,
    pub gas_price: U256,
}

impl Auction {
    /// The token pairs that the user orders trade, each once; the
    /// liquidity for them is fetched before solving.
    pub fn liquidity_pairs(&self) -> (r: Vec<TokenPair>)
        ensures
            r@.no_duplicates(),
            forall|p: TokenPair| #![trigger r@.contains(p)] r@.contains(p) <==> pair_wanted(self.orders@, p),
    {
        let mut out: Vec<TokenPair> = Vec::new();
        let mut i: usize = 0;
        while i < self.orders.len()
            invariant
                i <= self.orders.len(),
                out@.no_duplicates(),
                forall|p: TokenPair|
                    #![trigger out@.contains(p)]
                    out@.contains(p) <==> pair_wanted(self.orders@.take(i as int), p),
            decreases self.orders.len() - i,
        {
            let o = self.orders[i];
            let ghost s0 = self.orders@.take(i as int);
            let ghost s1 = self.orders@.take(i + 1);
            assert(s1[i as int] == o);
            let ghost prev = out@;
            let mut added: Option<TokenPair> = None;
            if o.is_user() {
                match TokenPair::new(o.sell.token, o.buy.token) {
                    Some(p) => {
                        added = Some(p);
                        if !has_pair(&out, p) {
                            out.push(p);
                            assert forall|x: TokenPair|
                                #![trigger out@.contains(x)]
                                out@.contains(x) <==> (prev.contains(x) || x == p) by {
                                if out@.contains(x) {
                                    let q = choose|q: int| 0 <= q < out@.len() && out@[q] == x;
                                    if q < prev.len() {
                                        assert(prev[q] == x);
                                    }
                                }
                                if prev.contains(x) {
                                    let q = choose|q: int| 0 <= q < prev.len() && prev[q] == x;
                                    assert(out@[q] == x);
                                }
                                if x == p {
                                    assert(out@[prev.len() as int] == x);
                                }
                            }
                        }
                    },
                    None => {},
                }
            }
            assert forall|x: TokenPair|
                #![trigger out@.contains(x)]
                out@.contains(x) <==> pair_wanted(s1, x) by {
                if pair_wanted(s1, x) {
                    let q = choose|q: int|
                        0 <= q < s1.len() && (#[trigger] s1[q]).is_user_spec() && pair_of(
                            s1[q].sell.token,
                            s1[q].buy.token,
                        ) == Some(x);
                    if q < i {
                        assert(s0[q] == s1[q]);
                        assert(pair_wanted(s0, x));
                    }
                }
                if pair_wanted(s0, x) {
                    let q = choose|q: int|
                        0 <= q < s0.len() && (#[trigger] s0[q]).is_user_spec() && pair_of(
                            s0[q].sell.token,
                            s0[q].buy.token,
                        ) == Some(x);
                    assert(s1[q] == s0[q]);
                }
                if added == Some(x) {
                    assert(pair_wanted(s1, x));
                }
            }
            i += 1;
        }
        assert(self.orders@.take(self.orders.len() as int) =~= self.orders@);
        out
    }

    /// Whether the deadline has been reached at `now`.
    pub fn expired(&self, now: Timestamp) -> (r: bool)
        ensures
            r == (now.millis >= self.deadline.millis),
    {
        now.millis >= self.deadline.millis
    }

    /// The time the solver gets: what is left until the deadline, less
    /// `buffer` for the driver's own work.
    pub fn timeout(&self, now: Timestamp, buffer: Duration) -> (r: Result<
        SolverTimeout,
        DeadlineExceeded,
    >)
        ensures
            r is Err <==> self.deadline.millis - now.millis - buffer.millis <= 0,
            r is Ok ==> r->Ok_0.0.millis == clamp_millis(
                self.deadline.millis - now.millis - buffer.millis,
            ),
    {
        let left: i128 = self.deadline.millis as i128 - now.millis as i128 - buffer.millis as i128;
        if left <= 0 {
            Err(DeadlineExceeded)
        } else if left > i64::MAX as i128 {
            Ok(SolverTimeout(Duration { millis: i64::MAX }))
        } else {
            Ok(SolverTimeout(Duration { millis: left as i64 }))
        }
    }
}

} // verus!
