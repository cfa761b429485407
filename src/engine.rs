//! What a solver engine proposes: clearing prices, trades and interactions.

use vstd::prelude::*;
use crate::allowance;
use crate::eth::{Address, Asset, Ether, TokenAddress};
use crate::order::{Kind, Order, Side};
use crate::u256::{U256, u256_max};

verus! {

/// No token occurs twice in `s`.
pub open spec fn unique_tokens(s: Seq<Asset>) -> bool {
    forall|i: int, j: int| 0 <= i < j < s.len() ==> #[trigger] s[i].token != #[trigger] s[j].token
}

/// The price of each token of `s`; a later entry wins over an earlier one.
pub open spec fn prices_map(s: Seq<Asset>) -> Map<TokenAddress, U256>
    decreases s.len(),
{
    if s.len() == 0 {
        Map::empty()
    } else {
        prices_map(s.drop_last()).insert(s.last().token, s.last().amount)
    }
}

/// The price map of a list of `(token, price)` pairs, later pairs winning.
pub open spec fn pairs_map(s: Seq<(TokenAddress, U256)>) -> Map<TokenAddress, U256>
    decreases s.len(),
{
    if s.len() == 0 {
        Map::empty()
    } else {
        pairs_map(s.drop_last()).insert(s.last().0, s.last().1)
    }
}

pub proof fn lemma_prices_map_entry(s: Seq<Asset>, i: int)
    requires
        unique_tokens(s),
        0 <= i < s.len(),
    ensures
        prices_map(s).contains_key(s[i].token),
        prices_map(s)[s[i].token] == s[i].amount,
    decreases s.len(),
{
    if i < s.len() - 1 {
        assert(s.drop_last()[i] == s[i]);
        lemma_prices_map_entry(s.drop_last(), i);
    }
}

pub proof fn lemma_prices_map_key(s: Seq<Asset>, t: TokenAddress)
    ensures
        prices_map(s).contains_key(t) <==> exists|i: int| 0 <= i < s.len() && #[trigger] s[i].token == t,
    decreases s.len(),
{
    if s.len() > 0 {
        lemma_prices_map_key(s.drop_last(), t);
        if prices_map(s.drop_last()).contains_key(t) {
            let i = choose|i: int| 0 <= i < s.drop_last().len() && #[trigger] s.drop_last()[i].token == t;
            assert(s[i].token == t);
        }
        if exists|i: int| 0 <= i < s.len() && #[trigger] s[i].token == t {
            let i = choose|i: int| 0 <= i < s.len() && #[trigger] s[i].token == t;
            if i < s.len() - 1 {
                assert(s.drop_last()[i].token == t);
            }
        }
    }
}

proof fn lemma_prices_map_update(s: Seq<Asset>, i: int, a: Asset)
    requires
        unique_tokens(s),
        0 <= i < s.len(),
        s[i].token == a.token,
    ensures
        prices_map(s.update(i, a)) =~= prices_map(s).insert(a.token, a.amount),
    decreases s.len(),
{
    let n = s.len() - 1;
    if i == n {
        assert(s.update(i, a).drop_last() =~= s.drop_last());
    } else {
        assert(s.update(i, a).drop_last() =~= s.drop_last().update(i, a));
        lemma_prices_map_update(s.drop_last(), i, a);
        assert(s[n].token != a.token);
    }
}

/// Uniform clearing prices: one price per token, in a unit of the solver's
/// choosing.
pub struct ClearingPrices {
    entries: Vec<Asset>,
}

impl View for ClearingPrices {
    type V = Seq<Asset>;

    closed spec fn view(&self) -> Seq<Asset> {
        self.entries@
    }
}

impl ClearingPrices {
    #[verifier::type_invariant]
    spec fn inv(self) -> bool {
        unique_tokens(self.entries@)
    }

    /// The price of each token.
    pub open spec fn map(&self) -> Map<TokenAddress, U256> {
        prices_map(self@)
    }

    /// Collects prices; where a token comes twice, the later price wins.
    pub fn new(prices: Vec<(TokenAddress, U256)>) -> (r: ClearingPrices)
        ensures
            r.map() == pairs_map(prices@),
    {
        let mut entries: Vec<Asset> = Vec::new();
        let mut k: usize = 0;
        while k < prices.len()
            invariant
                k <= prices.len(),
                unique_tokens(entries@),
                prices_map(entries@) == pairs_map(prices@.take(k as int)),
            decreases prices.len() - k,
        {
            let (token, amount) = prices[k];
            assert(prices@.take(k + 1).drop_last() =~= prices@.take(k as int));
            let mut i: usize = 0;
            while i < entries.len() && entries[i].token != token
                invariant
                    i <= entries.len(),
                    forall|j: int| 0 <= j < i ==> #[trigger] entries@[j].token != token,
                decreases entries.len() - i,
            {
                i += 1;
            }
            let a = Asset { token, amount };
            if i < entries.len() {
                proof {
                    lemma_prices_map_update(entries@, i as int, a);
                }
                entries.set(i, a);
            } else {
                let ghost before = entries@;
                entries.push(a);
                assert(entries@.drop_last() =~= before);
            }
            assert(prices@.take(k + 1).last() == prices@[k as int]);
            k += 1;
        }
        assert(prices@.take(prices.len() as int) =~= prices@);
        ClearingPrices { entries }
    }

    /// The prices, one entry per token.
    pub fn entries(&self) -> (r: &Vec<Asset>)
        ensures
            r@ == self@,
            unique_tokens(r@),
    {
        proof {
            use_type_invariant(self);
        }
        &self.entries
    }

    /// The entries, one per token.
    pub fn into_entries(self) -> (r: Vec<Asset>)
        ensures
            r@ == self@,
            unique_tokens(r@),
    {
        proof {
            use_type_invariant(&self);
        }
        self.entries
    }

    pub fn get(&self, token: TokenAddress) -> (r: Option<U256>)
        ensures
            r == if self.map().contains_key(token) {
                Some(self.map()[token])
            } else {
                None::<U256>
            },
    {
        proof {
            use_type_invariant(self);
            lemma_prices_map_key(self@, token);
        }
        let mut i: usize = 0;
        while i < self.entries.len()
            invariant
                i <= self.entries.len(),
                unique_tokens(self.entries@),
                forall|j: int| 0 <= j < i ==> #[trigger] self.entries@[j].token != token,
            decreases self.entries.len() - i,
        {
            if self.entries[i].token == token {
                proof {
                    lemma_prices_map_entry(self@, i as int);
                }
                return Some(self.entries[i].amount);
            }
            i += 1;
        }
        None
    }
}

/// The fee that is charged to a user for executing an order.
#[derive(Clone, Copy, Debug, PartialEq, Eq, Structural)]
pub enum Fee {
    /// The fee that the order itself states.
    Protocol,
    /// An additional surplus fee that the solver charges.
    Surplus(U256),
}

/// The surplus part of a fee, zero for a protocol fee.
pub open spec fn fee_surplus(fee: Fee) -> nat {
    match fee {
        Fee::Protocol => 0,
        Fee::Surplus(f) => f@,
    }
}

impl Fee {
    /// Returns the dynamic component of the fee.
    pub fn surplus(&self) -> (r: Option<U256>)
        ensures
            r == match *self {
                Fee::Protocol => None,
                Fee::Surplus(f) => Some(f),
            },
    {
        match self {
            Fee::Protocol => None,
            Fee::Surplus(fee) => Some(*fee),
        }
    }
}

/// The amount filled on the side that the order fixes: the buy amount of a
/// buy order; the sell amount plus any surplus fee of a sell order.
pub open spec fn full_amount(order: Order, executed: U256, fee: Fee) -> nat {
    match order.side {
        Side::Buy => executed@,
        Side::Sell => executed@ + fee_surplus(fee),
    }
}

/// The limit that the order sets on that side.
pub open spec fn limit_amount(order: Order) -> nat {
    match order.side {
        Side::Buy => order.buy.amount@,
        Side::Sell => order.sell.amount@,
    }
}

/// A surplus fee comes with limit orders and only with them; a partially
/// fillable order is filled up to its limit, any other order exactly to it.
pub open spec fn fulfillment_valid(order: Order, executed: U256, fee: Fee) -> bool {
    &&& (fee is Surplus) == (order.kind == Kind::Limit)
    &&& if order.partially_fillable {
        full_amount(order, executed, fee) <= limit_amount(order)
    } else {
        full_amount(order, executed, fee) == limit_amount(order)
    }
}

/// A traded order within a solution.
#[derive(Clone, Copy, Debug, PartialEq, Eq, Structural)]
pub struct Fulfillment {
    order: Order,
    executed: U256,
    fee: Fee,
}

impl Fulfillment {
    pub closed spec fn order_spec(self) -> Order {
        self.order
    }

    pub closed spec fn executed_spec(self) -> U256 {
        self.executed
    }

    pub closed spec fn fee_spec(self) -> Fee {
        self.fee
    }

    #[verifier::type_invariant]
    spec fn inv(self) -> bool {
        fulfillment_valid(self.order, self.executed, self.fee)
    }

    /// An order filled to `executed`; `None` when that amount or the fee
    /// does not suit the order.
    pub fn new(order: Order, executed: U256, fee: Fee) -> (r: Option<Fulfillment>)
        ensures
            r.is_some() == fulfillment_valid(order, executed, fee),
            r.is_some() ==> r.unwrap().order_spec() == order && r.unwrap().executed_spec() == executed
                && r.unwrap().fee_spec() == fee,
    {
        let surplus = match fee.surplus() {
            Some(f) => f,
            None => U256::zero(),
        };
        if (match fee {
            Fee::Surplus(_) => true,
            Fee::Protocol => false,
        }) != order.has_solver_fee() {
            return None;
        }
        let (fill, full) = match order.side {
            Side::Buy => (order.buy.amount, executed),
            Side::Sell => match executed.checked_add(surplus) {
                Some(full) => (order.sell.amount, full),
                None => {
                    return None;
                },
            },
        };
        if (!order.partially_fillable && !full.same_value(fill)) || (order.partially_fillable
            && fill.lt(full)) {
            return None;
        }
        Some(Fulfillment { order, executed, fee })
    }

    /// The order filled completely, with the protocol fee.
    pub fn fill(order: Order) -> (r: Option<Fulfillment>)
        ensures
            r.is_some() == (order.kind != Kind::Limit),
            r.is_some() ==> r.unwrap().order_spec() == order && r.unwrap().fee_spec() == Fee::Protocol
                && r.unwrap().executed_spec()@ == limit_amount(order),
    {
        let executed = match order.side {
            Side::Buy => order.buy.amount,
            Side::Sell => order.sell.amount,
        };
        Self::new(order, executed, Fee::Protocol)
    }

    /// The traded order.
    pub fn order(&self) -> (r: &Order)
        ensures
            *r == self.order_spec(),
    {
        &self.order
    }

    pub fn fee(&self) -> (r: Fee)
        ensures
            r == self.fee_spec(),
    {
        self.fee
    }

    /// The executed amount, in the token of the side that the order fixes.
    pub fn executed(&self) -> (r: Asset)
        ensures
            r.amount == self.executed_spec(),
            r.token == match self.order_spec().side {
                Side::Buy => self.order_spec().buy.token,
                Side::Sell => self.order_spec().sell.token,
            },
    {
        let token = match self.order.side {
            Side::Buy => self.order.buy.token,
            Side::Sell => self.order.sell.token,
        };
        Asset { token, amount: self.executed }
    }

    /// The surplus fee charged by the solver, in the sell token; `None` for
    /// the protocol fee.
    pub fn surplus_fee(&self) -> (r: Option<Asset>)
        ensures
            r == match self.fee_spec() {
                Fee::Protocol => None,
                Fee::Surplus(f) => Some(Asset { token: self.order_spec().sell.token, amount: f }),
            },
    {
        match self.fee.surplus() {
            Some(amount) => Some(Asset { token: self.order.sell.token, amount }),
            None => None,
        }
    }
}

/// A trade of an order created for this solution alone, which provides
/// just-in-time liquidity to the other orders.
#[derive(Clone, Copy, Debug, PartialEq, Eq, Structural)]
pub struct JitTrade {
    pub order: Order,
    pub executed: U256,
}

/// A trade which executes an order as part of a solution.
#[derive(Clone, Copy, Debug, PartialEq, Eq, Structural)]
pub enum Trade {
    Fulfillment(Fulfillment),
    Jit(JitTrade),
}

/// A pool or a foreign limit order that a solution may draw on.
#[derive(Clone, Copy, Debug, PartialEq, Eq, Structural, Hash)]
pub struct Liquidity {
    pub id: u64,
    /// The pool or order contract.
    pub address: Address,
    /// The contract that pulls the input token when the liquidity is used.
    pub spender: Address,
    pub gas: U256,
}

/// An interaction using input liquidity, encoded by the driver.
#[derive(Clone, Copy, Debug, PartialEq, Eq, Structural)]
pub struct LiquidityInteraction {
    pub liquidity: Liquidity,
    pub input: Asset,
    pub output: Asset,
    pub internalize: bool,
}

/// An approval that a custom interaction needs.
#[derive(Clone, Copy, Debug, PartialEq, Eq, Structural)]
pub struct Allowance {
    pub spender: Address,
    pub asset: Asset,
}

/// An arbitrary call returned by the solver.
#[derive(Clone, Debug)]
pub struct CustomInteraction {
    pub target: Address,
    pub value: Ether,
    pub calldata: Vec<u8>,
    /// Whether the call may be skipped and netted against the settlement
    /// contract's own balances.
    pub internalize: bool,
    /// Tokens the call takes from the settlement contract.
    pub inputs: Vec<Asset>,
    /// Tokens the call hands to the settlement contract.
    pub outputs: Vec<Asset>,
    /// Allowances the call needs.
    pub allowances: Vec<Allowance>,
}

/// An interaction executed as part of a solution.
#[derive(Clone, Debug)]
pub enum Interaction {
    Liquidity(LiquidityInteraction),
    Custom(CustomInteraction),
}

/// The allowances an interaction needs.
pub open spec fn interaction_allowances(i: Interaction) -> Seq<allowance::Allowance> {
    match i {
        Interaction::Liquidity(l) => seq![
            allowance::Allowance {
                spender: allowance::Spender { address: l.liquidity.spender, token: l.input.token },
                amount: l.input.amount,
            },
        ],
        Interaction::Custom(c) => c.allowances@.map_values(
            |a: Allowance|
                allowance::Allowance {
                    spender: allowance::Spender { address: a.spender, token: a.asset.token },
                    amount: a.asset.amount,
                },
        ),
    }
}

/// The tokens an interaction hands to the settlement contract.
pub open spec fn interaction_outputs(i: Interaction) -> Seq<Asset> {
    match i {
        Interaction::Liquidity(l) => seq![l.output],
        Interaction::Custom(c) => c.outputs@,
    }
}

/// The tokens an interaction takes from the settlement contract.
pub open spec fn interaction_inputs(i: Interaction) -> Seq<Asset> {
    match i {
        Interaction::Liquidity(l) => seq![l.input],
        Interaction::Custom(c) => c.inputs@,
    }
}

pub open spec fn interaction_internalized(i: Interaction) -> bool {
    match i {
        Interaction::Liquidity(l) => l.internalize,
        Interaction::Custom(c) => c.internalize,
    }
}

/// The native currency an interaction sends along.
pub open spec fn interaction_value(i: Interaction) -> nat {
    match i {
        Interaction::Liquidity(_) => 0,
        Interaction::Custom(c) => c.value.0@,
    }
}

/// Two interactions that describe the same call.
pub open spec fn same_interaction(a: Interaction, b: Interaction) -> bool {
    match (a, b) {
        (Interaction::Liquidity(x), Interaction::Liquidity(y)) => x == y,
        (Interaction::Custom(x), Interaction::Custom(y)) => {
            &&& x.target == y.target
            &&& x.value == y.value
            &&& x.calldata@ == y.calldata@
            &&& x.internalize == y.internalize
            &&& x.inputs@ == y.inputs@
            &&& x.outputs@ == y.outputs@
            &&& x.allowances@ == y.allowances@
        },
        _ => false,
    }
}

fn same_bytes(a: &Vec<u8>, b: &Vec<u8>) -> (r: bool)
    ensures
        r == (a@ == b@),
{
    if a.len() != b.len() {
        return false;
    }
    let mut i: usize = 0;
    while i < a.len()
        invariant
            i <= a.len(),
            a.len() == b.len(),
            forall|j: int| 0 <= j < i ==> a@[j] == b@[j],
        decreases a.len() - i,
    {
        if a[i] != b[i] {
            return false;
        }
        i += 1;
    }
    assert(a@ =~= b@);
    true
}

fn same_assets(a: &Vec<Asset>, b: &Vec<Asset>) -> (r: bool)
    ensures
        r == (a@ == b@),
{
    if a.len() != b.len() {
        return false;
    }
    let mut i: usize = 0;
    while i < a.len()
        invariant
            i <= a.len(),
            a.len() == b.len(),
            forall|j: int| 0 <= j < i ==> a@[j] == b@[j],
        decreases a.len() - i,
    {
        if a[i] != b[i] {
            return false;
        }
        i += 1;
    }
    assert(a@ =~= b@);
    true
}

fn same_allowances(a: &Vec<Allowance>, b: &Vec<Allowance>) -> (r: bool)
    ensures
        r == (a@ == b@),
{
    if a.len() != b.len() {
        return false;
    }
    let mut i: usize = 0;
    while i < a.len()
        invariant
            i <= a.len(),
            a.len() == b.len(),
            forall|j: int| 0 <= j < i ==> a@[j] == b@[j],
        decreases a.len() - i,
    {
        if a[i] != b[i] {
            return false;
        }
        i += 1;
    }
    assert(a@ =~= b@);
    true
}

/// An element-wise copy of `v`.
pub fn copy_all<T: Copy>(v: &Vec<T>) -> (r: Vec<T>)
    ensures
        r@ == v@,
{
    let mut out: Vec<T> = Vec::new();
    let mut i: usize = 0;
    while i < v.len()
        invariant
            i <= v.len(),
            out@ == v@.take(i as int),
        decreases v.len() - i,
    {
        out.push(v[i]);
        assert(v@.take(i + 1) =~= v@.take(i as int).push(v@[i as int]));
        i += 1;
    }
    assert(v@.take(v.len() as int) =~= v@);
    out
}

impl Interaction {
    /// Whether both describe the same call.
    pub fn equivalent(&self, other: &Interaction) -> (r: bool)
        ensures
            r == same_interaction(*self, *other),
    {
        match (self, other) {
            (Interaction::Liquidity(x), Interaction::Liquidity(y)) => *x == *y,
            (Interaction::Custom(x), Interaction::Custom(y)) => {
                x.target == y.target && x.value == y.value && x.internalize == y.internalize
                    && same_bytes(&x.calldata, &y.calldata) && same_assets(&x.inputs, &y.inputs)
                    && same_assets(&x.outputs, &y.outputs) && same_allowances(
                    &x.allowances,
                    &y.allowances,
                )
            },
            _ => false,
        }
    }

    /// A copy describing the same call.
    pub fn duplicate(&self) -> (r: Interaction)
        ensures
            same_interaction(r, *self),
            interaction_allowances(r) == interaction_allowances(*self),
            interaction_inputs(r) == interaction_inputs(*self),
            interaction_internalized(r) == interaction_internalized(*self),
            interaction_value(r) == interaction_value(*self),
    {
        match self {
            Interaction::Liquidity(l) => Interaction::Liquidity(*l),
            Interaction::Custom(c) => Interaction::Custom(
                CustomInteraction {
                    target: c.target,
                    value: c.value,
                    calldata: copy_all(&c.calldata),
                    internalize: c.internalize,
                    inputs: copy_all(&c.inputs),
                    outputs: copy_all(&c.outputs),
                    allowances: copy_all(&c.allowances),
                },
            ),
        }
    }

    pub fn internalize(&self) -> (r: bool)
        ensures
            r == interaction_internalized(*self),
    {
        match self {
            Interaction::Liquidity(l) => l.internalize,
            Interaction::Custom(c) => c.internalize,
        }
    }

    /// The native currency sent along with the call.
    pub fn value(&self) -> (r: U256)
        ensures
            r@ == interaction_value(*self),
    {
        match self {
            Interaction::Liquidity(_) => U256::zero(),
            Interaction::Custom(c) => c.value.0,
        }
    }

    /// Appends the interaction's input assets to `out`.
    pub fn push_inputs(&self, out: &mut Vec<Asset>)
        ensures
            final(out)@ == old(out)@ + interaction_inputs(*self),
    {
        match self {
            Interaction::Liquidity(l) => {
                out.push(l.input);
            },
            Interaction::Custom(c) => {
                let mut i: usize = 0;
                while i < c.inputs.len()
                    invariant
                        i <= c.inputs.len(),
                        out@ == old(out)@ + c.inputs@.take(i as int),
                    decreases c.inputs.len() - i,
                {
                    out.push(c.inputs[i]);
                    assert(c.inputs@.take(i + 1) =~= c.inputs@.take(i as int).push(c.inputs@[i as int]));
                    i += 1;
                }
                assert(c.inputs@.take(c.inputs.len() as int) =~= c.inputs@);
            },
        }
    }

    /// Appends the interaction's output assets to `out`.
    pub fn push_outputs(&self, out: &mut Vec<Asset>)
        ensures
            final(out)@ == old(out)@ + interaction_outputs(*self),
    {
        match self {
            Interaction::Liquidity(l) => {
                out.push(l.output);
            },
            Interaction::Custom(c) => {
                let mut i: usize = 0;
                while i < c.outputs.len()
                    invariant
                        i <= c.outputs.len(),
                        out@ == old(out)@ + c.outputs@.take(i as int),
                    decreases c.outputs.len() - i,
                {
                    out.push(c.outputs[i]);
                    assert(c.outputs@.take(i + 1) =~= c.outputs@.take(i as int).push(c.outputs@[i as int]));
                    i += 1;
                }
                assert(c.outputs@.take(c.outputs.len() as int) =~= c.outputs@);
            },
        }
    }

    /// Appends the allowances the interaction needs to `out`.
    pub fn push_allowances(&self, out: &mut Vec<allowance::Allowance>)
        ensures
            final(out)@ == old(out)@ + interaction_allowances(*self),
    {
        match self {
            Interaction::Liquidity(l) => {
                out.push(
                    allowance::Allowance {
                        spender: allowance::Spender {
                            address: l.liquidity.spender,
                            token: l.input.token,
                        },
                        amount: l.input.amount,
                    },
                );
                assert(out@ =~= old(out)@ + interaction_allowances(*self));
            },
            Interaction::Custom(c) => {
                let ghost wanted = interaction_allowances(*self);
                let mut i: usize = 0;
                while i < c.allowances.len()
                    invariant
                        i <= c.allowances.len(),
                        wanted.len() == c.allowances.len(),
                        wanted == interaction_allowances(Interaction::Custom(*c)),
                        out@ == old(out)@ + wanted.take(i as int),
                    decreases c.allowances.len() - i,
                {
                    let a = c.allowances[i];
                    out.push(
                        allowance::Allowance {
                            spender: allowance::Spender { address: a.spender, token: a.asset.token },
                            amount: a.asset.amount,
                        },
                    );
                    assert(wanted.take(i + 1) =~= wanted.take(i as int).push(wanted[i as int]));
                    i += 1;
                }
                assert(wanted.take(c.allowances.len() as int) =~= wanted);
            },
        }
    }
}

/// A solution as a solver engine returns it.
pub struct Solution {
    pub prices: ClearingPrices,
    pub trades: Vec<Trade>,
    pub interactions: Vec<Interaction>,
}

} // verus!
