//! A solver's solution bound to the driver: its trades, clearing prices and
//! interactions, checked for price completeness.

use vstd::prelude::*;
use crate::allowance::{self, Required, normalized};
use crate::engine::{self, ClearingPrices, Fulfillment, Interaction, Trade, interaction_allowances, prices_map};
use crate::eth::{Address, Asset, Ether, TokenAddress, WethAddress, eth_token, wrap_spec};
use crate::u256::U256;

verus! {

/// A solution identifier, unique among one solver's solutions of one round.
#[derive(Clone, Copy, Debug, PartialEq, Eq, Structural, Hash)]
pub struct Id(pub u64);

/// The probability that a settlement succeeds, as a fraction.
#[derive(Clone, Copy, Debug, PartialEq, Eq, Structural)]
pub struct SuccessProbability {
    pub numerator: u64,
    pub denominator: u64,
}

/// How the score of a solution is to be computed.
#[derive(Clone, Copy, Debug, PartialEq, Eq, Structural)]
pub enum SolverScore {
    /// The solver states the objective value itself.
    Solver(U256),
    /// The expected surplus, weighted by the success probability, less gas.
    RiskAdjusted(SuccessProbability),
}

/// The trades that fulfil orders placed by end users, in order.
pub open spec fn user_trades_spec(trades: Seq<Trade>) -> Seq<Fulfillment>
    decreases trades.len(),
{
    if trades.len() == 0 {
        seq![]
    } else {
        let rest = user_trades_spec(trades.drop_last());
        match trades.last() {
            Trade::Fulfillment(f) => if f.order_spec().is_user_spec() {
                rest.push(f)
            } else {
                rest
            },
            Trade::Jit(_) => rest,
        }
    }
}

/// The user trades of two trade lists are those of each, in order.
pub proof fn lemma_user_trades_concat(a: Seq<Trade>, b: Seq<Trade>)
    ensures
        user_trades_spec(a + b) == user_trades_spec(a) + user_trades_spec(b),
    decreases b.len(),
{
    if b.len() == 0 {
        assert(a + b =~= a);
        assert(user_trades_spec(a) + user_trades_spec(b) =~= user_trades_spec(a));
    } else {
        assert((a + b).drop_last() =~= a + b.drop_last());
        lemma_user_trades_concat(a, b.drop_last());
        let ua = user_trades_spec(a);
        let ub = user_trades_spec(b.drop_last());
        match b.last() {
            Trade::Fulfillment(f) => if f.order_spec().is_user_spec() {
                assert((ua + ub).push(f) =~= ua + ub.push(f));
            },
            Trade::Jit(_) => {},
        }
    }
}

/// Every user trade has a price for its sell and its buy token, the native
/// currency being priced as its wrapped token.
pub open spec fn prices_complete(
    trades: Seq<Trade>,
    prices: Map<TokenAddress, U256>,
    weth: WethAddress,
) -> bool {
    forall|i: int|
        0 <= i < user_trades_spec(trades).len() ==> {
            let o = #[trigger] user_trades_spec(trades)[i].order_spec();
            prices.contains_key(wrap_spec(o.sell.token, weth)) && prices.contains_key(
                wrap_spec(o.buy.token, weth),
            )
        }
}

/// Some user trade buys the native currency.
pub open spec fn some_buys_eth(u: Seq<Fulfillment>) -> bool {
    exists|i: int| 0 <= i < u.len() && (#[trigger] u[i].order_spec()).buy.token == eth_token()
}

/// No user trade sells or buys the wrapped token.
pub open spec fn none_trades_weth(u: Seq<Fulfillment>, weth: WethAddress) -> bool {
    forall|i: int|
        0 <= i < u.len() ==> (#[trigger] u[i].order_spec()).sell.token != weth.0 && u[i].order_spec().buy.token
            != weth.0
}

/// The entries of `s` whose token is not `t`.
pub open spec fn without_token(s: Seq<Asset>, t: TokenAddress) -> Seq<Asset>
    decreases s.len(),
{
    if s.len() == 0 {
        seq![]
    } else {
        let rest = without_token(s.drop_last(), t);
        if s.last().token == t {
            rest
        } else {
            rest.push(s.last())
        }
    }
}

/// The prices handed to the settlement contract. Where a user trade buys
/// the native currency it gets the wrapped token's price, and the wrapped
/// token's own price is left out when no user trade needs it.
pub open spec fn published_prices(
    entries: Seq<Asset>,
    u: Seq<Fulfillment>,
    weth: WethAddress,
) -> Seq<Asset> {
    if some_buys_eth(u) {
        let base = if none_trades_weth(u, weth) {
            without_token(entries, weth.0)
        } else {
            entries
        };
        base.push(Asset { token: eth_token(), amount: prices_map(entries)[weth.0] })
    } else {
        entries
    }
}

/// The receivers of the user trades that buy the native currency, in
/// order; repeated receivers are kept.
pub open spec fn eth_receivers_spec(u: Seq<Fulfillment>) -> Seq<Address>
    decreases u.len(),
{
    if u.len() == 0 {
        seq![]
    } else {
        let rest = eth_receivers_spec(u.drop_last());
        if u.last().order_spec().buy.token == eth_token() {
            rest.push(u.last().order_spec().receiver)
        } else {
            rest
        }
    }
}

/// All allowances that the interactions need, in order.
pub open spec fn all_allowances(interactions: Seq<Interaction>) -> Seq<allowance::Allowance>
    decreases interactions.len(),
{
    if interactions.len() == 0 {
        seq![]
    } else {
        all_allowances(interactions.drop_last()) + interaction_allowances(interactions.last())
    }
}

/// The solution lacks a clearing price for a token of a user trade.
#[derive(Clone, Copy, Debug, PartialEq, Eq, Structural)]
pub struct InvalidClearingPrices;

/// A set of trades that a solver found a way to settle, with the prices and
/// interactions that settle them.
pub struct Solution {
    id: Id,
    trades: Vec<Trade>,
    prices: ClearingPrices,
    interactions: Vec<Interaction>,
    solver: Address,
    score: SolverScore,
    weth: WethAddress,
}

impl Solution {
    #[verifier::type_invariant]
    spec fn inv(self) -> bool {
        prices_complete(self.trades@, self.prices.map(), self.weth)
    }

    pub closed spec fn id_spec(&self) -> Id {
        self.id
    }

    pub closed spec fn trades_spec(&self) -> Seq<Trade> {
        self.trades@
    }

    pub closed spec fn prices_spec(&self) -> Seq<Asset> {
        self.prices@
    }

    pub closed spec fn interactions_spec(&self) -> Seq<Interaction> {
        self.interactions@
    }

    pub closed spec fn solver_spec(&self) -> Address {
        self.solver
    }

    pub closed spec fn score_spec(&self) -> SolverScore {
        self.score
    }

    pub closed spec fn weth_spec(&self) -> WethAddress {
        self.weth
    }

    /// The solution, when it has clearing prices for both tokens of every
    /// user trade.
    pub fn new(
        id: Id,
        trades: Vec<Trade>,
        prices: ClearingPrices,
        interactions: Vec<Interaction>,
        solver: Address,
        score: SolverScore,
        weth: WethAddress,
    ) -> (r: Result<Solution, InvalidClearingPrices>)
        ensures
            r is Ok == prices_complete(trades@, prices.map(), weth),
            r is Ok ==> {
                let s = r->Ok_0;
                &&& s.id_spec() == id
                &&& s.trades_spec() == trades@
                &&& s.prices_spec() == prices@
                &&& s.interactions_spec() == interactions@
                &&& s.solver_spec() == solver
                &&& s.score_spec() == score
                &&& s.weth_spec() == weth
            },
    {
        let users = user_trades_of(&trades);
        let mut i: usize = 0;
        while i < users.len()
            invariant
                i <= users.len(),
                users@ == user_trades_spec(trades@),
                forall|j: int|
                    0 <= j < i ==> {
                        let o = #[trigger] users@[j].order_spec();
                        prices.map().contains_key(wrap_spec(o.sell.token, weth))
                            && prices.map().contains_key(wrap_spec(o.buy.token, weth))
                    },
            decreases users.len() - i,
        {
            let o = users[i].order();
            if prices.get(o.sell.token.wrap(weth)).is_none() || prices.get(
                o.buy.token.wrap(weth),
            ).is_none() {
                return Err(InvalidClearingPrices);
            }
            i += 1;
        }
        Ok(Solution { id, trades, prices, interactions, solver, score, weth })
    }

    pub fn id(&self) -> (r: Id)
        ensures
            r == self.id_spec(),
    {
        self.id
    }

    /// Trades settled by this solution.
    pub fn trades(&self) -> (r: &Vec<Trade>)
        ensures
            r@ == self.trades_spec(),
    {
        &self.trades
    }

    /// Interactions executed by this solution.
    pub fn interactions(&self) -> (r: &Vec<Interaction>)
        ensures
            r@ == self.interactions_spec(),
    {
        &self.interactions
    }

    /// The solver that produced this solution.
    pub fn solver(&self) -> (r: Address)
        ensures
            r == self.solver_spec(),
    {
        self.solver
    }

    pub fn score(&self) -> (r: &SolverScore)
        ensures
            *r == self.score_spec(),
    {
        &self.score
    }

    pub fn weth(&self) -> (r: WethAddress)
        ensures
            r == self.weth_spec(),
    {
        self.weth
    }

    /// The solution's own clearing prices.
    pub fn prices(&self) -> (r: &ClearingPrices)
        ensures
            r@ == self.prices_spec(),
    {
        &self.prices
    }

    /// The trades, the clearing prices and the interactions, taken out of
    /// the solution.
    pub fn into_parts(self) -> (r: (Vec<Trade>, Vec<Asset>, Vec<Interaction>))
        ensures
            r.0@ == self.trades_spec(),
            r.1@ == self.prices_spec(),
            r.2@ == self.interactions_spec(),
            engine::unique_tokens(r.1@),
            prices_complete(r.0@, prices_map(r.1@), self.weth_spec()),
    {
        proof {
            use_type_invariant(&self);
        }
        let Solution { id: _, trades, prices, interactions, solver: _, score: _, weth: _ } = self;
        (trades, prices.into_entries(), interactions)
    }

    /// The trades that fulfil orders placed by end users.
    pub fn user_trades(&self) -> (r: Vec<Fulfillment>)
        ensures
            r@ == user_trades_spec(self.trades_spec()),
    {
        user_trades_of(&self.trades)
    }

    /// The receivers of native currency among the user trades. Each one
    /// that is a contract needs its transfer simulated first, so that the
    /// settlement's access list covers it.
    pub fn eth_receivers(&self) -> (r: Vec<Address>)
        ensures
            r@ == eth_receivers_spec(user_trades_spec(self.trades_spec())),
    {
        let users = self.user_trades();
        let mut out: Vec<Address> = Vec::new();
        let mut i: usize = 0;
        while i < users.len()
            invariant
                i <= users.len(),
                out@ == eth_receivers_spec(users@.take(i as int)),
            decreases users.len() - i,
        {
            assert(users@.take(i + 1).drop_last() =~= users@.take(i as int));
            let o = users[i].order();
            if o.buys_eth() {
                out.push(o.receiver);
            }
            i += 1;
        }
        assert(users@.take(users.len() as int) =~= users@);
        out
    }

    /// A solution without user trades is of no use.
    pub fn is_empty(&self) -> (r: bool)
        ensures
            r == (user_trades_spec(self.trades_spec()).len() == 0),
    {
        self.user_trades().len() == 0
    }

    /// The clearing price of a token; native currency is priced as its
    /// wrapped token.
    pub fn clearing_price(&self, token: TokenAddress) -> (r: Option<U256>)
        ensures
            ({
                let m = prices_map(self.prices_spec());
                let t = wrap_spec(token, self.weth_spec());
                r == if m.contains_key(t) {
                    Some(m[t])
                } else {
                    None::<U256>
                }
            }),
    {
        self.prices.get(token.wrap(self.weth))
    }

    /// The allowances that the interactions need, collapsed by spender and
    /// ordered by spender.
    pub fn allowances(&self) -> (r: Vec<Required>)
        ensures
            normalized(all_allowances(self.interactions_spec()), r@),
    {
        let mut all: Vec<allowance::Allowance> = Vec::new();
        let mut i: usize = 0;
        while i < self.interactions.len()
            invariant
                i <= self.interactions.len(),
                all@ == all_allowances(self.interactions@.take(i as int)),
            decreases self.interactions.len() - i,
        {
            assert(self.interactions@.take(i + 1).drop_last() =~= self.interactions@.take(i as int));
            self.interactions[i].push_allowances(&mut all);
            i += 1;
        }
        assert(self.interactions@.take(self.interactions.len() as int) =~= self.interactions@);
        allowance::normalize(&all)
    }

    /// The approvals needed for encoding: `required` is what
    /// `allowances()` returned and `existing[i]` the allowance in effect for
    /// the spender of `required[i]`.
    pub fn approvals(&self, required: &Vec<Required>, existing: &Vec<allowance::Existing>) -> (r:
        Result<Vec<allowance::Approval>, Error>)
        ensures
            r is Err <==> required@.len() != existing@.len(),
            r is Err ==> r->Err_0 == Error::AllowanceMismatch,
            r is Ok ==> r->Ok_0@ == allowance::approvals_spec(required@, existing@),
    {
        if required.len() != existing.len() {
            return Err(Error::AllowanceMismatch);
        }
        Ok(allowance::approvals(required, existing))
    }

    /// The prices handed to the settlement contract: the solution's prices,
    /// with a native-currency price equal to the wrapped token's where a
    /// user trade buys the native currency; the wrapped token's own price is
    /// then dropped when no user trade sells or buys it.
    pub fn clearing_prices(&self) -> (r: Result<Vec<Asset>, Error>)
        ensures
            r == Ok::<Vec<Asset>, Error>(r->Ok_0),
            r->Ok_0@ == published_prices(
                self.prices_spec(),
                user_trades_spec(self.trades_spec()),
                self.weth_spec(),
            ),
    {
        proof {
            use_type_invariant(self);
        }
        Ok(publish(self.prices.entries(), &self.trades, self.weth))
    }
}

/// The prices handed to the settlement contract for these trades (see
/// `published_prices`).
pub fn publish(entries: &Vec<Asset>, trades: &Vec<Trade>, weth: WethAddress) -> (r: Vec<Asset>)
    requires
        engine::unique_tokens(entries@),
        prices_complete(trades@, prices_map(entries@), weth),
    ensures
        r@ == published_prices(entries@, user_trades_spec(trades@), weth),
{
    let users = user_trades_of(trades);
    let mut buys_eth = false;
    let mut avoids_weth = true;
    let mut i: usize = 0;
    while i < users.len()
        invariant
            i <= users.len(),
            users@ == user_trades_spec(trades@),
            buys_eth == exists|j: int|
                0 <= j < i && (#[trigger] users@[j].order_spec()).buy.token == eth_token(),
            avoids_weth == forall|j: int|
                0 <= j < i ==> (#[trigger] users@[j].order_spec()).sell.token != weth.0
                    && users@[j].order_spec().buy.token != weth.0,
        decreases users.len() - i,
    {
        let o = users[i].order();
        if o.buys_eth() {
            buys_eth = true;
        }
        if o.trades_token(weth.0) {
            avoids_weth = false;
        }
        i += 1;
    }
    if !buys_eth {
        return copy_assets(entries);
    }
    let ghost j = choose|j: int|
        0 <= j < users.len() && (#[trigger] users@[j].order_spec()).buy.token == eth_token();
    assert(wrap_spec(users@[j].order_spec().buy.token, weth) == weth.0);
    let weth_price = match crate::flow::lookup(entries, weth.0) {
        Some(p) => p,
        None => {
            return copy_assets(entries);
        },
    };
    let mut out = if avoids_weth {
        without(entries, weth.0)
    } else {
        copy_assets(entries)
    };
    out.push(Asset { token: TokenAddress::eth(), amount: weth_price });
    out
}

/// The user trades among `trades`.
fn user_trades_of(trades: &Vec<Trade>) -> (r: Vec<Fulfillment>)
    ensures
        r@ == user_trades_spec(trades@),
{
    let mut out: Vec<Fulfillment> = Vec::new();
    let mut i: usize = 0;
    while i < trades.len()
        invariant
            i <= trades.len(),
            out@ == user_trades_spec(trades@.take(i as int)),
        decreases trades.len() - i,
    {
        assert(trades@.take(i + 1).drop_last() =~= trades@.take(i as int));
        match trades[i] {
            Trade::Fulfillment(f) => {
                if f.order().is_user() {
                    out.push(f);
                }
            },
            Trade::Jit(_) => {},
        }
        i += 1;
    }
    assert(trades@.take(trades.len() as int) =~= trades@);
    out
}

fn copy_assets(s: &Vec<Asset>) -> (r: Vec<Asset>)
    ensures
        r@ == s@,
{
    let mut out: Vec<Asset> = Vec::new();
    let mut i: usize = 0;
    while i < s.len()
        invariant
            i <= s.len(),
            out@ == s@.take(i as int),
        decreases s.len() - i,
    {
        out.push(s[i]);
        assert(s@.take(i + 1) =~= s@.take(i as int).push(s@[i as int]));
        i += 1;
    }
    assert(s@.take(s.len() as int) =~= s@);
    out
}

fn without(s: &Vec<Asset>, t: TokenAddress) -> (r: Vec<Asset>)
    ensures
        r@ == without_token(s@, t),
{
    let mut out: Vec<Asset> = Vec::new();
    let mut i: usize = 0;
    while i < s.len()
        invariant
            i <= s.len(),
            out@ == without_token(s@.take(i as int), t),
        decreases s.len() - i,
    {
        assert(s@.take(i + 1).drop_last() =~= s@.take(i as int));
        if s[i].token != t {
            out.push(s[i]);
        }
        i += 1;
    }
    assert(s@.take(s.len() as int) =~= s@);
    out
}

/// Why a solution could not be encoded, or two settlements not merged.
#[derive(Clone, Debug, PartialEq, Eq)]
pub enum Error {
    /// The node could not be read.
    Blockchain,
    /// The simulation failed or reverted.
    Simulation,
    /// The allowances read from chain do not match the required ones.
    AllowanceMismatch,
    /// Interactions are internalized against tokens that are not trusted.
    NonBufferableTokensUsed(Vec<TokenAddress>),
    /// These tokens do not net to zero over the settlement (none are listed
    /// where a trade's amounts cannot be computed at the clearing prices).
    AssetFlow(Vec<TokenAddress>),
    /// The settlement without internalization fails to simulate.
    FailingInternalization,
    /// The solver account cannot pay the native value that the interactions
    /// send; this much is required.
    SolverAccountInsufficientBalance(Ether),
    /// The settlements come from different solvers.
    DifferentSolvers,
    /// Both settlements trade the same order.
    OverlappingOrders,
    /// The settlements price a token differently, or against different
    /// wrapped tokens.
    ConflictingPrices,
    /// The settlements' scores cannot be added up.
    IncompatibleScores,
}

} // verus!
