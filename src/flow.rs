//! Token flows through the settlement contract. Users hand in what their
//! trades sell and take out what they buy, at the clearing prices; the
//! interactions take their inputs out and bring their outputs in.
//! Internalized interactions count too: they are netted against the
//! contract's own holdings, which is the same flow.

use vstd::prelude::*;
use crate::engine::{
    Interaction, Trade, interaction_inputs, interaction_outputs, lemma_prices_map_entry,
    lemma_prices_map_key, prices_map, unique_tokens,
};
use crate::eth::{Asset, TokenAddress, WethAddress, wrap_spec};
use crate::order::{Order, Side};
use crate::u256::{U256, u256_max};

verus! {

/// One amount of a token entering (`incoming`) or leaving the contract.
#[derive(Clone, Copy, Debug, PartialEq, Eq, Structural)]
pub struct Movement {
    pub token: TokenAddress,
    pub amount: U256,
    pub incoming: bool,
}

/// A movement as token, amount and direction.
pub open spec fn mv(m: Movement) -> (TokenAddress, nat, bool) {
    (m.token, m.amount@, m.incoming)
}

pub open spec fn views(ms: Seq<Movement>) -> Seq<(TokenAddress, nat, bool)> {
    ms.map_values(|m: Movement| mv(m))
}

/// `x / d`, rounded up.
pub open spec fn ceil_div(x: nat, d: nat) -> nat {
    x / d + if x % d == 0 {
        0nat
    } else {
        1nat
    }
}

pub open spec fn trade_order(t: Trade) -> Order {
    match t {
        Trade::Fulfillment(f) => f.order_spec(),
        Trade::Jit(j) => j.order,
    }
}

pub open spec fn trade_executed(t: Trade) -> nat {
    match t {
        Trade::Fulfillment(f) => f.executed_spec()@,
        Trade::Jit(j) => j.executed@,
    }
}

/// What a trade sells and buys at the clearing prices (native currency
/// priced as its wrapped token): a sell order sells the executed amount and
/// buys `executed * p_sell / p_buy` rounded up; a buy order buys the
/// executed amount and sells `executed * p_buy / p_sell` rounded down. Fees
/// stay with the contract and are not counted. `None` where a price is
/// missing or zero, or an amount exceeds 256 bits.
pub open spec fn trade_amounts(
    t: Trade,
    prices: Map<TokenAddress, U256>,
    weth: WethAddress,
) -> Option<(nat, nat)> {
    let o = trade_order(t);
    let e = trade_executed(t);
    let s = wrap_spec(o.sell.token, weth);
    let b = wrap_spec(o.buy.token, weth);
    if !prices.contains_key(s) || !prices.contains_key(b) {
        None
    } else {
        let ps = prices[s]@;
        let pb = prices[b]@;
        match o.side {
            Side::Sell => if pb == 0 || e * ps > u256_max() || ceil_div(e * ps, pb) > u256_max() {
                None
            } else {
                Some((e, ceil_div(e * ps, pb)))
            },
            Side::Buy => if ps == 0 || e * pb > u256_max() {
                None
            } else {
                Some(((e * pb) / ps, e))
            },
        }
    }
}

/// The flows of the trades, in order: for each, its sold token in and its
/// bought token out (both wrapped).
pub open spec fn trade_flows(
    trades: Seq<Trade>,
    prices: Map<TokenAddress, U256>,
    weth: WethAddress,
) -> Option<Seq<(TokenAddress, nat, bool)>>
    decreases trades.len(),
{
    if trades.len() == 0 {
        Some(seq![])
    } else {
        match (trade_flows(trades.drop_last(), prices, weth), trade_amounts(trades.last(), prices, weth)) {
            (Some(rest), Some(amounts)) => {
                let o = trade_order(trades.last());
                Some(
                    rest + seq![
                        (wrap_spec(o.sell.token, weth), amounts.0, true),
                        (wrap_spec(o.buy.token, weth), amounts.1, false),
                    ],
                )
            },
            _ => None,
        }
    }
}

pub open spec fn asset_flows(s: Seq<Asset>, incoming: bool) -> Seq<(TokenAddress, nat, bool)> {
    s.map_values(|a: Asset| (a.token, a.amount@, incoming))
}

/// The flows of the interactions, in order: inputs out, outputs in.
pub open spec fn interaction_flows(ints: Seq<Interaction>) -> Seq<(TokenAddress, nat, bool)>
    decreases ints.len(),
{
    if ints.len() == 0 {
        seq![]
    } else {
        interaction_flows(ints.drop_last()) + asset_flows(interaction_inputs(ints.last()), false)
            + asset_flows(interaction_outputs(ints.last()), true)
    }
}

/// All flows of a settlement; `None` where a trade's amounts cannot be
/// computed.
pub open spec fn settlement_flows(
    trades: Seq<Trade>,
    prices: Seq<Asset>,
    weth: WethAddress,
    ints: Seq<Interaction>,
) -> Option<Seq<(TokenAddress, nat, bool)>> {
    match trade_flows(trades, prices_map(prices), weth) {
        Some(t) => Some(t + interaction_flows(ints)),
        None => None,
    }
}

/// The total of `token` moving in the given direction.
pub open spec fn total_flow(ms: Seq<(TokenAddress, nat, bool)>, token: TokenAddress, incoming: bool) -> nat
    decreases ms.len(),
{
    if ms.len() == 0 {
        0
    } else {
        total_flow(ms.drop_last(), token, incoming) + if ms.last().0 == token && ms.last().2
            == incoming {
            ms.last().1
        } else {
            0
        }
    }
}

/// The token does not net to zero: what comes in differs from what goes
/// out, or either total exceeds 256 bits.
pub open spec fn unbalanced(ms: Seq<(TokenAddress, nat, bool)>, token: TokenAddress) -> bool {
    total_flow(ms, token, true) != total_flow(ms, token, false) || total_flow(ms, token, true)
        > u256_max() || total_flow(ms, token, false) > u256_max()
}

proof fn lemma_total_prefix(ms: Seq<(TokenAddress, nat, bool)>, n: int, t: TokenAddress, incoming: bool)
    requires
        0 <= n <= ms.len(),
    ensures
        total_flow(ms.take(n), t, incoming) <= total_flow(ms, t, incoming),
    decreases ms.len(),
{
    if n < ms.len() {
        assert(ms.drop_last().take(n) =~= ms.take(n));
        lemma_total_prefix(ms.drop_last(), n, t, incoming);
    } else {
        assert(ms.take(n) =~= ms);
    }
}

proof fn lemma_total_absent(ms: Seq<(TokenAddress, nat, bool)>, t: TokenAddress, incoming: bool)
    requires
        forall|j: int| 0 <= j < ms.len() ==> (#[trigger] ms[j]).0 != t,
    ensures
        total_flow(ms, t, incoming) == 0,
    decreases ms.len(),
{
    if ms.len() > 0 {
        assert(ms[ms.len() - 1].0 != t);
        assert forall|j: int| 0 <= j < ms.drop_last().len() implies (#[trigger] ms.drop_last()[j]).0 != t by {
            assert(ms.drop_last()[j] == ms[j]);
        }
        lemma_total_absent(ms.drop_last(), t, incoming);
    }
}

/// The price of `token` among `prices`.
pub fn lookup(prices: &Vec<Asset>, token: TokenAddress) -> (r: Option<U256>)
    requires
        unique_tokens(prices@),
    ensures
        r == if prices_map(prices@).contains_key(token) {
            Some(prices_map(prices@)[token])
        } else {
            None::<U256>
        },
{
    proof {
        lemma_prices_map_key(prices@, token);
    }
    let mut i: usize = 0;
    while i < prices.len()
        invariant
            i <= prices.len(),
            unique_tokens(prices@),
            forall|j: int| 0 <= j < i ==> #[trigger] prices@[j].token != token,
        decreases prices.len() - i,
    {
        if prices[i].token == token {
            proof {
                lemma_prices_map_entry(prices@, i as int);
            }
            return Some(prices[i].amount);
        }
        i += 1;
    }
    None
}

/// What a trade sells and buys at the clearing prices.
pub fn trade_amounts_of(t: &Trade, prices: &Vec<Asset>, weth: WethAddress) -> (r: Option<(U256, U256)>)
    requires
        unique_tokens(prices@),
    ensures
        r is Some <==> trade_amounts(*t, prices_map(prices@), weth) is Some,
        r is Some ==> r->Some_0.0@ == trade_amounts(*t, prices_map(prices@), weth)->Some_0.0
            && r->Some_0.1@ == trade_amounts(*t, prices_map(prices@), weth)->Some_0.1,
{
    let (o, e) = match t {
        Trade::Fulfillment(f) => (*f.order(), f.executed().amount),
        Trade::Jit(j) => (j.order, j.executed),
    };
    assert(e@ == trade_executed(*t));
    let ps = match lookup(prices, o.sell.token.wrap(weth)) {
        Some(p) => p,
        None => {
            return None;
        },
    };
    let pb = match lookup(prices, o.buy.token.wrap(weth)) {
        Some(p) => p,
        None => {
            return None;
        },
    };
    match o.side {
        Side::Sell => {
            let x = match e.checked_mul(ps) {
                Some(x) => x,
                None => {
                    return None;
                },
            };
            let q = match x.checked_div(pb) {
                Some(q) => q,
                None => {
                    return None;
                },
            };
            let m = match x.checked_rem(pb) {
                Some(m) => m,
                None => {
                    return None;
                },
            };
            if m.is_zero() {
                Some((e, q))
            } else {
                match q.checked_add(U256::from_u64(1)) {
                    Some(c) => Some((e, c)),
                    None => None,
                }
            }
        },
        Side::Buy => {
            let x = match e.checked_mul(pb) {
                Some(x) => x,
                None => {
                    return None;
                },
            };
            match x.checked_div(ps) {
                Some(q) => Some((q, e)),
                None => None,
            }
        },
    }
}

/// Appends each asset as a movement in the given direction.
fn push_assets(out: &mut Vec<Movement>, assets: &Vec<Asset>, incoming: bool)
    ensures
        views(final(out)@) == views(old(out)@) + asset_flows(assets@, incoming),
{
    let ghost start = out@;
    let mut i: usize = 0;
    while i < assets.len()
        invariant
            i <= assets.len(),
            start == old(out)@,
            views(out@) == views(start) + asset_flows(assets@.take(i as int), incoming),
        decreases assets.len() - i,
    {
        let ghost before = out@;
        let a = assets[i];
        out.push(Movement { token: a.token, amount: a.amount, incoming });
        assert(views(out@) =~= views(before).push(mv(Movement { token: a.token, amount: a.amount, incoming })));
        assert(asset_flows(assets@.take(i + 1), incoming) =~= asset_flows(assets@.take(i as int), incoming).push(
            (a.token, a.amount@, incoming),
        ));
        i += 1;
    }
    assert(assets@.take(assets.len() as int) =~= assets@);
}

/// All movements of a settlement; `None` where a trade's amounts cannot be
/// computed.
pub fn flows(trades: &Vec<Trade>, prices: &Vec<Asset>, weth: WethAddress, interactions: &Vec<Interaction>) -> (r:
    Option<Vec<Movement>>)
    requires
        unique_tokens(prices@),
    ensures
        r is Some <==> settlement_flows(trades@, prices@, weth, interactions@) is Some,
        r is Some ==> views(r->Some_0@) == settlement_flows(trades@, prices@, weth, interactions@)->Some_0,
{
    let mut out: Vec<Movement> = Vec::new();
    let mut i: usize = 0;
    while i < trades.len()
        invariant
            i <= trades.len(),
            unique_tokens(prices@),
            trade_flows(trades@.take(i as int), prices_map(prices@), weth) == Some(views(out@)),
        decreases trades.len() - i,
    {
        assert(trades@.take(i + 1).drop_last() =~= trades@.take(i as int));
        assert(trades@.take(i + 1).last() == trades@[i as int]);
        let o = match &trades[i] {
            Trade::Fulfillment(f) => *f.order(),
            Trade::Jit(j) => j.order,
        };
        match trade_amounts_of(&trades[i], prices, weth) {
            Some((sold, bought)) => {
                let ghost before = out@;
                let a = Movement { token: o.sell.token.wrap(weth), amount: sold, incoming: true };
                let b = Movement { token: o.buy.token.wrap(weth), amount: bought, incoming: false };
                out.push(a);
                out.push(b);
                assert(views(out@) =~= views(before) + seq![mv(a), mv(b)]);
            },
            None => {
                proof {
                    lemma_trade_flows_stuck(trades@, i as int, prices_map(prices@), weth);
                }
                return None;
            },
        }
        i += 1;
    }
    assert(trades@.take(trades.len() as int) =~= trades@);
    let ghost traded = views(out@);
    let mut k: usize = 0;
    while k < interactions.len()
        invariant
            k <= interactions.len(),
            views(out@) == traded + interaction_flows(interactions@.take(k as int)),
        decreases interactions.len() - k,
    {
        assert(interactions@.take(k + 1).drop_last() =~= interactions@.take(k as int));
        let mut ins: Vec<Asset> = Vec::new();
        interactions[k].push_inputs(&mut ins);
        let mut outs: Vec<Asset> = Vec::new();
        interactions[k].push_outputs(&mut outs);
        assert(ins@ =~= interaction_inputs(interactions@[k as int]));
        assert(outs@ =~= interaction_outputs(interactions@[k as int]));
        push_assets(&mut out, &ins, false);
        push_assets(&mut out, &outs, true);
        k += 1;
    }
    assert(interactions@.take(interactions.len() as int) =~= interactions@);
    Some(out)
}

proof fn lemma_trade_flows_stuck(trades: Seq<Trade>, i: int, prices: Map<TokenAddress, U256>, weth: WethAddress)
    requires
        0 <= i < trades.len(),
        trade_amounts(trades[i], prices, weth) is None,
    ensures
        trade_flows(trades, prices, weth) is None,
    decreases trades.len(),
{
    if i < trades.len() - 1 {
        assert(trades.drop_last()[i] == trades[i]);
        lemma_trade_flows_stuck(trades.drop_last(), i, prices, weth);
    }
}

/// The total of `token` moving in the given direction; `None` where it
/// exceeds 256 bits.
pub fn flow_total(ms: &Vec<Movement>, token: TokenAddress, incoming: bool) -> (r: Option<U256>)
    ensures
        r is Some <==> total_flow(views(ms@), token, incoming) <= u256_max(),
        r is Some ==> r->Some_0@ == total_flow(views(ms@), token, incoming),
{
    let ghost v = views(ms@);
    let mut sum = U256::zero();
    let mut i: usize = 0;
    while i < ms.len()
        invariant
            i <= ms.len(),
            v == views(ms@),
            sum@ == total_flow(v.take(i as int), token, incoming),
        decreases ms.len() - i,
    {
        assert(v.take(i + 1).drop_last() =~= v.take(i as int));
        assert(v.take(i + 1).last() == mv(ms@[i as int]));
        if ms[i].token == token && ms[i].incoming == incoming {
            match sum.checked_add(ms[i].amount) {
                Some(s) => {
                    sum = s;
                },
                None => {
                    proof {
                        lemma_total_prefix(v, i + 1, token, incoming);
                    }
                    return None;
                },
            }
        }
        i += 1;
    }
    assert(v.take(ms.len() as int) =~= v);
    Some(sum)
}

fn has_token(v: &Vec<TokenAddress>, x: TokenAddress) -> (r: bool)
    ensures
        r == v@.contains(x),
{
    let mut j: usize = 0;
    while j < v.len()
        invariant
            j <= v.len(),
            forall|q: int| 0 <= q < j ==> v@[q] != x,
        decreases v.len() - j,
    {
        if v[j] == x {
            return true;
        }
        j += 1;
    }
    false
}

/// The tokens that do not net to zero, each once.
pub fn unbalanced_tokens(ms: &Vec<Movement>) -> (r: Vec<TokenAddress>)
    ensures
        r@.no_duplicates(),
        forall|t: TokenAddress| #![trigger r@.contains(t)] r@.contains(t) <==> unbalanced(views(ms@), t),
{
    let ghost v = views(ms@);
    let mut out: Vec<TokenAddress> = Vec::new();
    let mut i: usize = 0;
    while i < ms.len()
        invariant
            i <= ms.len(),
            v == views(ms@),
            out@.no_duplicates(),
            forall|t: TokenAddress|
                #![trigger out@.contains(t)]
                out@.contains(t) <==> ((exists|j: int| 0 <= j < i && (#[trigger] v[j]).0 == t)
                    && unbalanced(v, t)),
        decreases ms.len() - i,
    {
        let t = ms[i].token;
        assert(v[i as int].0 == t);
        let ins = flow_total(ms, t, true);
        let outs = flow_total(ms, t, false);
        let bad = match (ins, outs) {
            (Some(a), Some(b)) => !a.same_value(b),
            _ => true,
        };
        assert(bad == unbalanced(v, t));
        let ghost prev = out@;
        if bad && !has_token(&out, t) {
            out.push(t);
            assert forall|x: TokenAddress|
                #![trigger out@.contains(x)]
                out@.contains(x) <==> (prev.contains(x) || x == t) by {
                if out@.contains(x) {
                    let q = choose|q: int| 0 <= q < out@.len() && out@[q] == x;
                    if q < prev.len() {
                        assert(prev[q] == x);
                    }
                }
                if prev.contains(x) {
                    let q = choose|q: int| 0 <= q < prev.len() && prev[q] == x;
                    assert(out@[q] == x);
                }
                if x == t {
                    assert(out@[prev.len() as int] == x);
                }
            }
        }
        assert forall|x: TokenAddress|
            #![trigger out@.contains(x)]
            out@.contains(x) <==> ((exists|j: int| 0 <= j < i + 1 && (#[trigger] v[j]).0 == x)
                && unbalanced(v, x)) by {
            if exists|j: int| 0 <= j < i + 1 && (#[trigger] v[j]).0 == x {
                let j = choose|j: int| 0 <= j < i + 1 && (#[trigger] v[j]).0 == x;
                if j < i {
                    assert(exists|j: int| 0 <= j < i && (#[trigger] v[j]).0 == x);
                }
            }
        }
        i += 1;
    }
    assert forall|t: TokenAddress| #![trigger out@.contains(t)] unbalanced(v, t) implies out@.contains(t) by {
        if !(exists|j: int| 0 <= j < ms.len() && (#[trigger] v[j]).0 == t) {
            lemma_total_absent(v, t, true);
            lemma_total_absent(v, t, false);
        }
    }
    out
}

} // verus!
