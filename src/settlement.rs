//! Settlements: solutions encoded against one auction, checked, and merged.

use vstd::prelude::*;
use crate::allowance::{
    Allowance, Approval, Spender, Existing, Required, approvals_spec, capped, lemma_allowance_sufficiency,
    lemma_approvals_same, lemma_normalized_unique, normalized, total_for,
};
use crate::flow::{flows, interaction_flows, settlement_flows, unbalanced, unbalanced_tokens, views};
use crate::auction::{self, Auction, TokenInfo, is_trusted, trusted};
use crate::engine::{
    Interaction, Trade, copy_all, interaction_inputs, interaction_internalized, interaction_value,
    lemma_prices_map_key, prices_map, same_interaction, unique_tokens,
};
use crate::eth::{Address, Asset, Ether, TokenAddress, WethAddress, wrap_spec};
use crate::order::Uid;
use crate::solution::{
    Error, Solution, SolverScore, SuccessProbability, all_allowances, publish, published_prices, lemma_user_trades_concat, prices_complete, user_trades_spec,
};
use crate::u256::{U256, lemma_bounded, u256_max, u256_max_value};

verus! {

/// A 32-byte storage slot.
#[derive(Clone, Copy, Debug, PartialEq, Eq, Structural, Hash)]
pub struct StorageKey {
    pub hi: u128,
    pub lo: u128,
}

/// One entry of an access list: an account, or one storage slot of it.
#[derive(Clone, Copy, Debug, PartialEq, Eq, Structural, Hash)]
pub struct AccessEntry {
    pub address: Address,
    pub slot: Option<StorageKey>,
}

/// The accounts and storage slots a transaction touches (EIP-2930), each
/// entry once.
pub struct AccessList {
    pub entries: Vec<AccessEntry>,
}

impl AccessList {
    pub open spec fn wf(&self) -> bool {
        self.entries@.no_duplicates()
    }

    pub fn empty() -> (r: AccessList)
        ensures
            r.wf(),
            r.entries@ == Seq::<AccessEntry>::empty(),
    {
        AccessList { entries: Vec::new() }
    }

    /// Every entry of either list, once.
    pub fn union(&self, other: &AccessList) -> (r: AccessList)
        ensures
            r.wf(),
            forall|e: AccessEntry| r.entries@.contains(e) <==> (self.entries@.contains(e) || other.entries@.contains(e)),
    {
        let mut out: Vec<AccessEntry> = Vec::new();
        assert(forall|e: AccessEntry| !out@.contains(e));
        add_entries(&mut out, &self.entries);
        assert(forall|e: AccessEntry| out@.contains(e) <==> self.entries@.contains(e));
        let ghost mid = out@;
        add_entries(&mut out, &other.entries);
        assert(forall|e: AccessEntry| out@.contains(e) <==> (mid.contains(e) || other.entries@.contains(e)));
        AccessList { entries: out }
    }
}

fn has_entry(v: &Vec<AccessEntry>, x: AccessEntry) -> (r: bool)
    ensures
        r == v@.contains(x),
{
    let mut j: usize = 0;
    while j < v.len()
        invariant
            j <= v.len(),
            forall|q: int| 0 <= q < j ==> v@[q] != x,
        decreases v.len() - j,
    {
        if v[j] == x {
            return true;
        }
        j += 1;
    }
    false
}

fn has_token(v: &Vec<TokenAddress>, x: TokenAddress) -> (r: bool)
    ensures
        r == v@.contains(x),
{
    let mut j: usize = 0;
    while j < v.len()
        invariant
            j <= v.len(),
            forall|q: int| 0 <= q < j ==> v@[q] != x,
        decreases v.len() - j,
    {
        if v[j] == x {
            return true;
        }
        j += 1;
    }
    false
}

/// Adds each entry of `add` that `out` lacks.
fn add_entries(out: &mut Vec<AccessEntry>, add: &Vec<AccessEntry>)
    requires
        old(out)@.no_duplicates(),
    ensures
        final(out)@.no_duplicates(),
        forall|e: AccessEntry|
            #![trigger final(out)@.contains(e)]
            #![trigger old(out)@.contains(e)]
            #![trigger add@.contains(e)]
            final(out)@.contains(e) <==> (old(out)@.contains(e) || add@.contains(e)),
{
    let ghost start = out@;
    let mut i: usize = 0;
    while i < add.len()
        invariant
            i <= add.len(),
            start == old(out)@,
            out@.no_duplicates(),
            forall|e: AccessEntry|
                #![trigger out@.contains(e)]
                #![trigger start.contains(e)]
                #![trigger add@.take(i as int).contains(e)]
                out@.contains(e) <==> (start.contains(e) || add@.take(i as int).contains(e)),
        decreases add.len() - i,
    {
        let e = add[i];
        let ghost prev = out@;
        let found = has_entry(out, e);
        assert(out@ == prev);
        if !found {
            out.push(e);
            assert forall|x: AccessEntry|
                #![trigger out@.contains(x)]
                #![trigger prev.contains(x)]
                out@.contains(x) <==> (prev.contains(x) || x == e) by {
                if out@.contains(x) {
                    let q = choose|q: int| 0 <= q < out@.len() && out@[q] == x;
                    if q < prev.len() {
                        assert(prev[q] == x);
                    }
                }
                if prev.contains(x) {
                    let q = choose|q: int| 0 <= q < prev.len() && prev[q] == x;
                    assert(out@[q] == x);
                }
                if x == e {
                    assert(out@[prev.len() as int] == x);
                }
            }
        }
        let ghost s0 = add@.take(i as int);
        let ghost s1 = add@.take(i + 1);
        assert(s1 =~= s0.push(e));
        assert forall|x: AccessEntry|
            #![trigger s1.contains(x)]
            #![trigger s0.contains(x)]
            s1.contains(x) <==> (s0.contains(x) || x == e) by {
            if s1.contains(x) {
                let q = choose|q: int| 0 <= q < s1.len() && s1[q] == x;
                if q < i {
                    assert(s0[q] == x);
                }
            }
            if s0.contains(x) {
                let q = choose|q: int| 0 <= q < s0.len() && s0[q] == x;
                assert(s1[q] == x);
            }
            if x == e {
                assert(s1[i as int] == x);
            }
        }
        i += 1;
    }
    assert(add@.take(add.len() as int) =~= add@);
}

/// Some interaction is internalized and takes `token` as an input.
pub open spec fn internalized_input(interactions: Seq<Interaction>, token: TokenAddress) -> bool {
    exists|i: int, k: int|
        0 <= i < interactions.len() && interaction_internalized(interactions[i]) && 0 <= k
            < interaction_inputs(interactions[i]).len() && #[trigger] interaction_inputs(
            interactions[i],
        )[k].token == token
}

/// Some interaction is internalized.
pub open spec fn any_internalized(interactions: Seq<Interaction>) -> bool {
    exists|i: int| 0 <= i < interactions.len() && #[trigger] interaction_internalized(interactions[i])
}

/// The native currency that all interactions send along.
pub open spec fn total_value(interactions: Seq<Interaction>) -> nat
    decreases interactions.len(),
{
    if interactions.len() == 0 {
        0
    } else {
        total_value(interactions.drop_last()) + interaction_value(interactions.last())
    }
}

/// The tokens that internalized interactions take as inputs without being
/// trusted by the auction, each once.
pub fn untrusted_internalized(interactions: &Vec<Interaction>, tokens: &Vec<TokenInfo>) -> (r: Vec<
    TokenAddress,
>)
    ensures
        r@.no_duplicates(),
        forall|t: TokenAddress|
            r@.contains(t) <==> (internalized_input(interactions@, t) && !is_trusted(tokens@, t)),
{
    let mut out: Vec<TokenAddress> = Vec::new();
    let mut i: usize = 0;
    while i < interactions.len()
        invariant
            i <= interactions.len(),
            out@.no_duplicates(),
            forall|t: TokenAddress|
                #![trigger out@.contains(t)]
                out@.contains(t) <==> (internalized_input(interactions@.take(i as int), t)
                    && !is_trusted(tokens@, t)),
        decreases interactions.len() - i,
    {
        let ghost upto = interactions@.take(i as int);
        let ghost next = interactions@.take(i + 1);
        assert forall|j: int| 0 <= j < i implies next[j] == upto[j] by {}
        let mut ins: Vec<Asset> = Vec::new();
        if interactions[i].internalize() {
            interactions[i].push_inputs(&mut ins);
        }
        assert(ins@.len() > 0 ==> interaction_internalized(interactions@[i as int]));
        assert(ins@.len() > 0 ==> ins@ == interaction_inputs(interactions@[i as int]));
        let mut k: usize = 0;
        while k < ins.len()
            invariant
                k <= ins.len(),
                out@.no_duplicates(),
                forall|t: TokenAddress|
                    #![trigger out@.contains(t)]
                    out@.contains(t) <==> ((internalized_input(upto, t) || exists|q: int|
                        0 <= q < k && #[trigger] ins@[q].token == t) && !is_trusted(tokens@, t)),
            decreases ins.len() - k,
        {
            let t = ins[k].token;
            let ghost prev = out@;
            if !trusted(tokens, t) {
                if !has_token(&out, t) {
                    out.push(t);
                    assert forall|x: TokenAddress|
                        #![trigger out@.contains(x)]
                        #![trigger prev.contains(x)]
                        out@.contains(x) <==> (prev.contains(x) || x == t) by {
                        if out@.contains(x) {
                            let q = choose|q: int| 0 <= q < out@.len() && out@[q] == x;
                            if q < prev.len() {
                                assert(prev[q] == x);
                            }
                        }
                        if prev.contains(x) {
                            let q = choose|q: int| 0 <= q < prev.len() && prev[q] == x;
                            assert(out@[q] == x);
                        }
                        if x == t {
                            assert(out@[prev.len() as int] == x);
                        }
                    }
                }
            }
            assert(out@.contains(t) <==> !is_trusted(tokens@, t));
            assert(forall|x: TokenAddress| #![trigger out@.contains(x)] x != t ==> (out@.contains(x) <==> prev.contains(x)));
            assert forall|x: TokenAddress|
                #![trigger out@.contains(x)]
                out@.contains(x) <==> ((internalized_input(upto, x) || exists|q: int|
                    0 <= q < k + 1 && #[trigger] ins@[q].token == x) && !is_trusted(tokens@, x)) by {
                if exists|q: int| 0 <= q < k + 1 && #[trigger] ins@[q].token == x {
                    let q = choose|q: int| 0 <= q < k + 1 && #[trigger] ins@[q].token == x;
                    if q < k {
                        assert(exists|q: int| 0 <= q < k && #[trigger] ins@[q].token == x);
                    }
                }
                if x == t {
                    assert(ins@[k as int].token == x);
                }
            }
            k += 1;
        }
        assert forall|x: TokenAddress|
            internalized_input(next, x) <==> (internalized_input(upto, x) || exists|q: int|
                0 <= q < ins@.len() && #[trigger] ins@[q].token == x) by {
            if internalized_input(next, x) {
                let (a, b) = choose|a: int, b: int|
                    0 <= a < next.len() && interaction_internalized(next[a]) && 0 <= b
                        < interaction_inputs(next[a]).len() && #[trigger] interaction_inputs(
                        next[a],
                    )[b].token == x;
                if a < i {
                    assert(interaction_inputs(upto[a])[b].token == x);
                } else {
                    assert(ins@[b].token == x);
                }
            }
            if internalized_input(upto, x) {
                let (a, b) = choose|a: int, b: int|
                    0 <= a < upto.len() && interaction_internalized(upto[a]) && 0 <= b
                        < interaction_inputs(upto[a]).len() && #[trigger] interaction_inputs(
                        upto[a],
                    )[b].token == x;
                assert(interaction_inputs(next[a])[b].token == x);
            }
            if exists|q: int| 0 <= q < ins@.len() && #[trigger] ins@[q].token == x {
                let q = choose|q: int| 0 <= q < ins@.len() && #[trigger] ins@[q].token == x;
                assert(interaction_inputs(next[i as int])[q].token == x);
            }
        }
        i += 1;
    }
    assert(interactions@.take(interactions.len() as int) =~= interactions@);
    out
}

/// The native value of the interactions; `None` where it exceeds 256 bits.
pub fn value_sent(interactions: &Vec<Interaction>) -> (r: Option<U256>)
    ensures
        r is Some <==> total_value(interactions@) <= u256_max(),
        r is Some ==> r->Some_0@ == total_value(interactions@),
{
    let mut sum = U256::zero();
    let mut i: usize = 0;
    while i < interactions.len()
        invariant
            i <= interactions.len(),
            sum@ == total_value(interactions@.take(i as int)),
        decreases interactions.len() - i,
    {
        assert(interactions@.take(i + 1).drop_last() =~= interactions@.take(i as int));
        match sum.checked_add(interactions[i].value()) {
            Some(s) => {
                sum = s;
            },
            None => {
                proof {
                    lemma_total_value_grows(interactions@, i + 1);
                }
                return None;
            },
        }
        i += 1;
    }
    assert(interactions@.take(interactions.len() as int) =~= interactions@);
    Some(sum)
}

proof fn lemma_total_value_grows(interactions: Seq<Interaction>, n: int)
    requires
        0 <= n <= interactions.len(),
    ensures
        total_value(interactions.take(n)) <= total_value(interactions),
    decreases interactions.len(),
{
    if n < interactions.len() {
        assert(interactions.drop_last().take(n) =~= interactions.take(n));
        lemma_total_value_grows(interactions.drop_last(), n);
    } else {
        assert(interactions.take(n) =~= interactions);
    }
}

fn some_internalized(interactions: &Vec<Interaction>) -> (r: bool)
    ensures
        r == any_internalized(interactions@),
{
    let mut i: usize = 0;
    while i < interactions.len()
        invariant
            i <= interactions.len(),
            forall|j: int| 0 <= j < i ==> !#[trigger] interaction_internalized(interactions@[j]),
        decreases interactions.len() - i,
    {
        if interactions[i].internalize() {
            return true;
        }
        i += 1;
    }
    false
}

/// The order a trade executes.
pub open spec fn trade_uid(t: Trade) -> Uid {
    match t {
        Trade::Fulfillment(f) => f.order_spec().uid,
        Trade::Jit(j) => j.order.uid,
    }
}

/// Some order is traded in both lists.
pub open spec fn orders_overlap(a: Seq<Trade>, b: Seq<Trade>) -> bool {
    exists|i: int, j: int|
        0 <= i < a.len() && 0 <= j < b.len() && #[trigger] trade_uid(a[i]) == #[trigger] trade_uid(b[j])
}

/// Some token has different prices in the two lists.
pub open spec fn prices_conflict(a: Seq<Asset>, b: Seq<Asset>) -> bool {
    exists|i: int, j: int|
        0 <= i < a.len() && 0 <= j < b.len() && #[trigger] a[i].token == #[trigger] b[j].token
            && a[i].amount@ != b[j].amount@
}

pub open spec fn has_token_spec(a: Seq<Asset>, t: TokenAddress) -> bool {
    exists|i: int| 0 <= i < a.len() && #[trigger] a[i].token == t
}

/// The entries of `b` for tokens that `a` does not price, in order.
pub open spec fn fresh_prices(a: Seq<Asset>, b: Seq<Asset>) -> Seq<Asset>
    decreases b.len(),
{
    if b.len() == 0 {
        seq![]
    } else {
        let rest = fresh_prices(a, b.drop_last());
        if has_token_spec(a, b.last().token) {
            rest
        } else {
            rest.push(b.last())
        }
    }
}

proof fn lemma_fresh_prices(a: Seq<Asset>, b: Seq<Asset>)
    requires
        unique_tokens(b),
    ensures
        unique_tokens(fresh_prices(a, b)),
        forall|k: int|
            0 <= k < fresh_prices(a, b).len() ==> !has_token_spec(a, #[trigger] fresh_prices(a, b)[k].token)
                && has_token_spec(b, fresh_prices(a, b)[k].token),
        forall|j: int|
            0 <= j < b.len() && !has_token_spec(a, #[trigger] b[j].token) ==> has_token_spec(
                fresh_prices(a, b),
                b[j].token,
            ),
    decreases b.len(),
{
    if b.len() > 0 {
        let c = b.drop_last();
        assert forall|i: int, j: int| 0 <= i < j < c.len() implies #[trigger] c[i].token != #[trigger] c[j].token by {
            assert(c[i] == b[i] && c[j] == b[j]);
        }
        lemma_fresh_prices(a, c);
        let rest = fresh_prices(a, c);
        let f = fresh_prices(a, b);
        assert forall|k: int| 0 <= k < rest.len() implies has_token_spec(b, #[trigger] rest[k].token) by {
            let w = choose|w: int| 0 <= w < c.len() && #[trigger] c[w].token == rest[k].token;
            assert(b[w].token == rest[k].token);
        }
        assert forall|k: int| 0 <= k < rest.len() implies #[trigger] rest[k].token != b.last().token by {
            let w = choose|w: int| 0 <= w < c.len() && #[trigger] c[w].token == rest[k].token;
            assert(b[w] == c[w]);
        }
        assert forall|j: int| 0 <= j < b.len() && !has_token_spec(a, #[trigger] b[j].token) implies has_token_spec(
            f,
            b[j].token,
        ) by {
            if j < c.len() {
                assert(c[j] == b[j]);
                let w = choose|w: int| 0 <= w < rest.len() && #[trigger] rest[w].token == c[j].token;
                assert(f[w] == rest[w]);
            } else {
                assert(f[f.len() - 1] == b[j]);
            }
        }
    }
}

proof fn lemma_merged_prices_complete(a: &Settlement, b: &Settlement, merged: Seq<Asset>)
    requires
        a.wf(),
        b.wf(),
        a.weth == b.weth,
        merged == a.prices@ + fresh_prices(a.prices@, b.prices@),
        user_trades_spec(a.trades@ + b.trades@) == user_trades_spec(a.trades@) + user_trades_spec(
            b.trades@,
        ),
    ensures
        prices_complete(a.trades@ + b.trades@, prices_map(merged), a.weth),
{
    lemma_fresh_prices(a.prices@, b.prices@);
    let f = fresh_prices(a.prices@, b.prices@);
    let ua = user_trades_spec(a.trades@);
    let ub = user_trades_spec(b.trades@);
    assert forall|t: TokenAddress|
        prices_map(a.prices@).contains_key(t) || prices_map(b.prices@).contains_key(t) implies prices_map(
            merged,
        ).contains_key(t) by {
        lemma_prices_map_key(a.prices@, t);
        lemma_prices_map_key(b.prices@, t);
        lemma_prices_map_key(merged, t);
        if prices_map(a.prices@).contains_key(t) {
            let i = choose|i: int| 0 <= i < a.prices@.len() && #[trigger] a.prices@[i].token == t;
            assert(merged[i].token == t);
        } else {
            let j = choose|j: int| 0 <= j < b.prices@.len() && #[trigger] b.prices@[j].token == t;
            if has_token_spec(a.prices@, t) {
                let i = choose|i: int| 0 <= i < a.prices@.len() && #[trigger] a.prices@[i].token == t;
                assert(merged[i].token == t);
            } else {
                assert(has_token_spec(f, b.prices@[j].token));
                let k = choose|k: int| 0 <= k < f.len() && #[trigger] f[k].token == t;
                assert(merged[a.prices@.len() + k].token == t);
            }
        }
    }
    assert forall|i: int| 0 <= i < (ua + ub).len() implies {
        let o = #[trigger] (ua + ub)[i].order_spec();
        prices_map(merged).contains_key(wrap_spec(o.sell.token, a.weth)) && prices_map(merged).contains_key(
            wrap_spec(o.buy.token, a.weth),
        )
    } by {
        if i < ua.len() {
            assert((ua + ub)[i] == ua[i]);
            let o = ua[i].order_spec();
            assert(prices_map(a.prices@).contains_key(wrap_spec(o.sell.token, a.weth)));
            assert(prices_map(a.prices@).contains_key(wrap_spec(o.buy.token, a.weth)));
        } else {
            assert((ua + ub)[i] == ub[i - ua.len()]);
            let o = ub[i - ua.len()].order_spec();
            assert(prices_map(b.prices@).contains_key(wrap_spec(o.sell.token, a.weth)));
            assert(prices_map(b.prices@).contains_key(wrap_spec(o.buy.token, a.weth)));
        }
    }
}

fn less_likely_of(p: SuccessProbability, q: SuccessProbability) -> (r: SuccessProbability)
    ensures
        r == less_likely(p, q),
{
    let (a, b, c, d) = (p.numerator as u128, q.denominator as u128, q.numerator as u128, p.denominator as u128);
    assert(a * b <= 0xffff_ffff_ffff_ffff * 0xffff_ffff_ffff_ffff) by (nonlinear_arith)
        requires
            a <= 0xffff_ffff_ffff_ffff,
            b <= 0xffff_ffff_ffff_ffff,
    ;
    assert(c * d <= 0xffff_ffff_ffff_ffff * 0xffff_ffff_ffff_ffff) by (nonlinear_arith)
        requires
            c <= 0xffff_ffff_ffff_ffff,
            d <= 0xffff_ffff_ffff_ffff,
    ;
    if a * b <= c * d {
        p
    } else {
        q
    }
}

fn trades_overlap(a: &Vec<Trade>, b: &Vec<Trade>) -> (r: bool)
    ensures
        r == orders_overlap(a@, b@),
{
    let mut i: usize = 0;
    while i < a.len()
        invariant
            i <= a.len(),
            forall|x: int, y: int|
                0 <= x < i && 0 <= y < b.len() ==> #[trigger] trade_uid(a@[x]) != #[trigger] trade_uid(b@[y]),
        decreases a.len() - i,
    {
        let ua = uid_of(&a[i]);
        let mut j: usize = 0;
        while j < b.len()
            invariant
                j <= b.len(),
                i < a.len(),
                ua == trade_uid(a@[i as int]),
                forall|y: int| 0 <= y < j ==> ua != #[trigger] trade_uid(b@[y]),
            decreases b.len() - j,
        {
            if uid_of(&b[j]) == ua {
                assert(trade_uid(a@[i as int]) == trade_uid(b@[j as int]));
                return true;
            }
            j += 1;
        }
        i += 1;
    }
    false
}

fn has_uid_exec(v: &Vec<Uid>, x: Uid) -> (r: bool)
    ensures
        r == v@.contains(x),
{
    let mut j: usize = 0;
    while j < v.len()
        invariant
            j <= v.len(),
            forall|q: int| 0 <= q < j ==> v@[q] != x,
        decreases v.len() - j,
    {
        if v[j] == x {
            return true;
        }
        j += 1;
    }
    false
}

fn uid_of(t: &Trade) -> (r: Uid)
    ensures
        r == trade_uid(*t),
{
    match t {
        Trade::Fulfillment(f) => f.order().uid,
        Trade::Jit(j) => j.order.uid,
    }
}

fn price_conflict(a: &Vec<Asset>, b: &Vec<Asset>) -> (r: bool)
    ensures
        r == prices_conflict(a@, b@),
{
    let mut i: usize = 0;
    while i < a.len()
        invariant
            i <= a.len(),
            forall|x: int, y: int|
                0 <= x < i && 0 <= y < b.len() && #[trigger] a@[x].token == #[trigger] b@[y].token ==> a@[x].amount@
                    == b@[y].amount@,
        decreases a.len() - i,
    {
        let mut j: usize = 0;
        while j < b.len()
            invariant
                j <= b.len(),
                i < a.len(),
                forall|y: int|
                    0 <= y < j && a@[i as int].token == #[trigger] b@[y].token ==> a@[i as int].amount@
                        == b@[y].amount@,
            decreases b.len() - j,
        {
            if a[i].token == b[j].token && !a[i].amount.same_value(b[j].amount) {
                assert(a@[i as int].token == b@[j as int].token);
                return true;
            }
            j += 1;
        }
        i += 1;
    }
    false
}

fn has_price(a: &Vec<Asset>, t: TokenAddress) -> (r: bool)
    ensures
        r == has_token_spec(a@, t),
{
    let mut i: usize = 0;
    while i < a.len()
        invariant
            i <= a.len(),
            forall|x: int| 0 <= x < i ==> #[trigger] a@[x].token != t,
        decreases a.len() - i,
    {
        if a[i].token == t {
            return true;
        }
        i += 1;
    }
    false
}

fn fresh_of(a: &Vec<Asset>, b: &Vec<Asset>) -> (r: Vec<Asset>)
    ensures
        r@ == fresh_prices(a@, b@),
{
    let mut out: Vec<Asset> = Vec::new();
    let mut j: usize = 0;
    while j < b.len()
        invariant
            j <= b.len(),
            out@ == fresh_prices(a@, b@.take(j as int)),
        decreases b.len() - j,
    {
        assert(b@.take(j + 1).drop_last() =~= b@.take(j as int));
        if !has_price(a, b[j].token) {
            out.push(b[j]);
        }
        j += 1;
    }
    assert(b@.take(b.len() as int) =~= b@);
    out
}

/// Some interaction of `a` describes the same call as `x`.
pub open spec fn known_interaction(a: Seq<Interaction>, x: Interaction) -> bool {
    exists|i: int| 0 <= i < a.len() && same_interaction(#[trigger] a[i], x)
}

/// The interactions of `b`, in order, whose call `a` does not already hold.
pub open spec fn fresh_interactions(a: Seq<Interaction>, b: Seq<Interaction>) -> Seq<Interaction>
    decreases b.len(),
{
    if b.len() == 0 {
        seq![]
    } else {
        let rest = fresh_interactions(a, b.drop_last());
        if known_interaction(a, b.last()) {
            rest
        } else {
            rest.push(b.last())
        }
    }
}

/// `m` describes the calls of `a` followed by those of `b`.
pub open spec fn merged_as(m: Seq<Interaction>, a: Seq<Interaction>, b: Seq<Interaction>) -> bool {
    &&& m.len() == a.len() + b.len()
    &&& forall|i: int| 0 <= i < a.len() ==> same_interaction(#[trigger] m[i], a[i])
    &&& forall|k: int| 0 <= k < b.len() ==> same_interaction(#[trigger] m[a.len() + k], b[k])
}

/// Some approval of `a` is for `sp`.
pub open spec fn approves(a: Seq<Approval>, sp: Spender) -> bool {
    exists|i: int| 0 <= i < a.len() && (#[trigger] a[i]).0.spender == sp
}

/// The approvals of `b`, in order, for spenders that `a` does not approve.
pub open spec fn fresh_approvals(a: Seq<Approval>, b: Seq<Approval>) -> Seq<Approval>
    decreases b.len(),
{
    if b.len() == 0 {
        seq![]
    } else {
        let rest = fresh_approvals(a, b.drop_last());
        if approves(a, b.last().0.spender) {
            rest
        } else {
            rest.push(b.last())
        }
    }
}

proof fn lemma_interaction_flows_same(m: Seq<Interaction>, x: Seq<Interaction>)
    requires
        m.len() == x.len(),
        forall|i: int| 0 <= i < m.len() ==> same_interaction(#[trigger] m[i], x[i]),
    ensures
        interaction_flows(m) == interaction_flows(x),
    decreases m.len(),
{
    if m.len() > 0 {
        let n = m.len() - 1;
        assert forall|i: int| 0 <= i < n implies same_interaction(#[trigger] m.drop_last()[i], x.drop_last()[i]) by {
            assert(m.drop_last()[i] == m[i] && x.drop_last()[i] == x[i]);
        }
        lemma_interaction_flows_same(m.drop_last(), x.drop_last());
        assert(same_interaction(m[n], x[n]));
    }
}

fn knows(a: &Vec<Interaction>, x: &Interaction) -> (r: bool)
    ensures
        r == known_interaction(a@, *x),
{
    let mut i: usize = 0;
    while i < a.len()
        invariant
            i <= a.len(),
            forall|j: int| 0 <= j < i ==> !same_interaction(#[trigger] a@[j], *x),
        decreases a.len() - i,
    {
        if a[i].equivalent(x) {
            return true;
        }
        i += 1;
    }
    false
}

fn approves_exec(a: &Vec<Approval>, sp: Spender) -> (r: bool)
    ensures
        r == approves(a@, sp),
{
    let mut i: usize = 0;
    while i < a.len()
        invariant
            i <= a.len(),
            forall|j: int| 0 <= j < i ==> (#[trigger] a@[j]).0.spender != sp,
        decreases a.len() - i,
    {
        if a[i].0.spender == sp {
            return true;
        }
        i += 1;
    }
    false
}

fn merged_approvals(a: &Vec<Approval>, b: &Vec<Approval>) -> (r: Vec<Approval>)
    ensures
        r@ == a@ + fresh_approvals(a@, b@),
{
    let mut out = copy_all(a);
    let mut j: usize = 0;
    while j < b.len()
        invariant
            j <= b.len(),
            out@ == a@ + fresh_approvals(a@, b@.take(j as int)),
        decreases b.len() - j,
    {
        assert(b@.take(j + 1).drop_last() =~= b@.take(j as int));
        let x = b[j];
        if !approves_exec(a, x.0.spender) {
            let ghost before = out@;
            out.push(x);
            assert(out@ =~= a@ + fresh_approvals(a@, b@.take(j as int)).push(x));
        }
        j += 1;
    }
    assert(b@.take(b.len() as int) =~= b@);
    out
}

fn merged_interactions(a: &Vec<Interaction>, b: &Vec<Interaction>) -> (r: Vec<Interaction>)
    ensures
        merged_as(r@, a@, fresh_interactions(a@, b@)),
{
    let mut out: Vec<Interaction> = Vec::new();
    append_duplicates(&mut out, a);
    assert forall|i: int| 0 <= i < a@.len() implies same_interaction(#[trigger] out@[i], a@[i]) by {
        assert(out@[0 + i] == out@[i]);
    }
    let mut j: usize = 0;
    while j < b.len()
        invariant
            j <= b.len(),
            merged_as(out@, a@, fresh_interactions(a@, b@.take(j as int))),
        decreases b.len() - j,
    {
        assert(b@.take(j + 1).drop_last() =~= b@.take(j as int));
        assert(b@.take(j + 1).last() == b@[j as int]);
        if !knows(a, &b[j]) {
            let ghost before = out@;
            let ghost f = fresh_interactions(a@, b@.take(j as int));
            out.push(b[j].duplicate());
            assert forall|i: int| 0 <= i < a@.len() implies same_interaction(#[trigger] out@[i], a@[i]) by {
                assert(out@[i] == before[i]);
            }
            assert forall|k: int| 0 <= k < f.len() + 1 implies same_interaction(
                #[trigger] out@[a@.len() + k],
                f.push(b@[j as int])[k],
            ) by {
                if k < f.len() {
                    assert(out@[a@.len() + k] == before[a@.len() + k]);
                }
            }
        }
        j += 1;
    }
    assert(b@.take(b.len() as int) =~= b@);
    out
}

/// Appends a copy of each interaction of `add` to `out`.
fn append_duplicates(out: &mut Vec<Interaction>, add: &Vec<Interaction>)
    ensures
        final(out)@.len() == old(out)@.len() + add@.len(),
        forall|i: int| 0 <= i < old(out)@.len() ==> #[trigger] final(out)@[i] == old(out)@[i],
        forall|i: int|
            0 <= i < add@.len() ==> same_interaction(#[trigger] final(out)@[old(out)@.len() + i], add@[i]),
{
    let ghost start = out@;
    let mut i: usize = 0;
    while i < add.len()
        invariant
            i <= add.len(),
            start == old(out)@,
            out@.len() == start.len() + i,
            forall|k: int| 0 <= k < start.len() ==> #[trigger] out@[k] == start[k],
            forall|k: int| 0 <= k < i ==> same_interaction(#[trigger] out@[start.len() + k], add@[k]),
        decreases add.len() - i,
    {
        out.push(add[i].duplicate());
        i += 1;
    }
}

/// The objective value of a settlement, in wei of the native currency:
/// `magnitude`, negated when `negative`.
#[derive(Clone, Copy, Debug, PartialEq, Eq, Structural)]
pub struct Score {
    pub negative: bool,
    pub magnitude: U256,
}

impl Score {
    /// The signed value of the score.
    pub open spec fn value(self) -> int {
        if self.negative {
            -(self.magnitude@ as int)
        } else {
            self.magnitude@ as int
        }
    }

    /// A score of `magnitude`, not negative.
    pub fn positive(magnitude: U256) -> (r: Score)
        ensures
            r.value() == magnitude@,
            r == (Score { negative: false, magnitude }),
    {
        Score { negative: false, magnitude }
    }

    /// Whether this score is at most `other`.
    pub fn le(self, other: Score) -> (r: bool)
        ensures
            r == (self.value() <= other.value()),
    {
        match (self.negative, other.negative) {
            (false, false) => self.magnitude.le(other.magnitude),
            (true, false) => true,
            (false, true) => self.magnitude.is_zero() && other.magnitude.is_zero(),
            (true, true) => other.magnitude.le(self.magnitude),
        }
    }
}

/// A settlement whose score cannot be computed.
#[derive(Clone, Copy, Debug, PartialEq, Eq, Structural)]
pub struct ScoringFailed;

/// The score of a risk-adjusted settlement: the expected surplus
/// `surplus * p` (rounded down) less the gas cost `gas * gas_price`, which
/// is negative where the cost exceeds the expected surplus; `None` where the
/// probability has no denominator or an intermediate value exceeds 256 bits.
pub open spec fn risk_adjusted_score(
    surplus: nat,
    numerator: nat,
    denominator: nat,
    gas: nat,
    gas_price: nat,
) -> Option<int> {
    if denominator == 0 || surplus * numerator > u256_max() || gas * gas_price > u256_max() {
        None
    } else {
        Some((surplus * numerator) / denominator - gas * gas_price)
    }
}

/// The less likely of two success probabilities (compared exactly).
pub open spec fn less_likely(p: SuccessProbability, q: SuccessProbability) -> SuccessProbability {
    if p.numerator * q.denominator <= q.numerator * p.denominator {
        p
    } else {
        q
    }
}

/// Some trade executes the order `uid`.
pub open spec fn has_uid(trades: Seq<Trade>, uid: Uid) -> bool {
    exists|i: int| 0 <= i < trades.len() && #[trigger] trade_uid(trades[i]) == uid
}

/// The required allowances of interactions: their normalisation, which is
/// unique up to how amounts are written.
pub open spec fn required_of(ints: Seq<Interaction>) -> Seq<Required> {
    choose|q: Seq<Required>| normalized(all_allowances(ints), q)
}

/// `existing` holds one read for each required allowance, for its spender.
pub open spec fn reads_match(required: Seq<Required>, existing: Seq<Existing>) -> bool {
    &&& required.len() == existing.len()
    &&& forall|i: int| 0 <= i < required.len() ==> #[trigger] existing[i].0.spender == required[i].0.spender
}

fn reads_match_exec(required: &Vec<Required>, existing: &Vec<Existing>) -> (r: bool)
    ensures
        r == reads_match(required@, existing@),
{
    if required.len() != existing.len() {
        return false;
    }
    let mut i: usize = 0;
    while i < required.len()
        invariant
            i <= required.len(),
            required.len() == existing.len(),
            forall|j: int| 0 <= j < i ==> #[trigger] existing@[j].0.spender == required@[j].0.spender,
        decreases required.len() - i,
    {
        if existing[i].0.spender != required[i].0.spender {
            return false;
        }
        i += 1;
    }
    true
}

/// A solution encoded against one auction: ready to be submitted on chain.
pub struct Settlement {
    pub auction_id: Option<auction::Id>,
    /// The account of the solver that produced it.
    pub solver: Address,
    pub weth: WethAddress,
    pub trades: Vec<Trade>,
    /// The solver's clearing prices, one per token.
    pub prices: Vec<Asset>,
    /// The prices handed to the settlement contract: the solver's, with
    /// the native currency priced where a user trade buys it.
    pub clearing_prices: Vec<Asset>,
    pub interactions: Vec<Interaction>,
    /// Approvals executed before the interactions.
    pub approvals: Vec<Approval>,
    pub access_list: AccessList,
    pub gas: U256,
    pub score: SolverScore,
}

impl Settlement {
    /// One price per token, a price for both tokens of every user trade,
    /// and the published prices derived from them.
    pub open spec fn wf(&self) -> bool {
        &&& unique_tokens(self.prices@)
        &&& prices_complete(self.trades@, prices_map(self.prices@), self.weth)
        &&& self.clearing_prices@ == published_prices(
            self.prices@,
            user_trades_spec(self.trades@),
            self.weth,
        )
    }

    /// The score: the solver-stated value, or for a risk-adjusted
    /// settlement the expected surplus less gas at the auction's gas price;
    /// `surplus` is the surplus the settlement gives the users.
    pub fn score(&self, auction: &Auction, surplus: U256) -> (r: Result<Score, ScoringFailed>)
        ensures
            match self.score {
                SolverScore::Solver(s) => r == Ok::<Score, ScoringFailed>(
                    Score { negative: false, magnitude: s },
                ),
                SolverScore::RiskAdjusted(p) => match risk_adjusted_score(
                    surplus@,
                    p.numerator as nat,
                    p.denominator as nat,
                    self.gas@,
                    auction.gas_price@,
                ) {
                    Some(v) => r is Ok && r->Ok_0.value() == v,
                    None => r is Err,
                },
            },
    {
        match self.score {
            SolverScore::Solver(s) => Ok(Score::positive(s)),
            SolverScore::RiskAdjusted(p) => {
                let weighted = match surplus.checked_mul(U256::from_u64(p.numerator)) {
                    Some(w) => w,
                    None => {
                        return Err(ScoringFailed);
                    },
                };
                let expected = match weighted.checked_div(U256::from_u64(p.denominator)) {
                    Some(e) => e,
                    None => {
                        return Err(ScoringFailed);
                    },
                };
                let cost = match self.gas.checked_mul(auction.gas_price) {
                    Some(c) => c,
                    None => {
                        return Err(ScoringFailed);
                    },
                };
                if expected.lt(cost) {
                    match cost.checked_sub(expected) {
                        Some(v) => Ok(Score { negative: true, magnitude: v }),
                        None => Err(ScoringFailed),
                    }
                } else {
                    match expected.checked_sub(cost) {
                        Some(v) => Ok(Score::positive(v)),
                        None => Err(ScoringFailed),
                    }
                }
            },
        }
    }

    /// The orders the settlement executes, each once.
    pub fn orders(&self) -> (r: Vec<Uid>)
        ensures
            r@.no_duplicates(),
            forall|u: Uid| r@.contains(u) <==> has_uid(self.trades@, u),
    {
        let mut out: Vec<Uid> = Vec::new();
        let mut i: usize = 0;
        while i < self.trades.len()
            invariant
                i <= self.trades.len(),
                out@.no_duplicates(),
                forall|u: Uid|
                    #![trigger out@.contains(u)]
                    out@.contains(u) <==> has_uid(self.trades@.take(i as int), u),
            decreases self.trades.len() - i,
        {
            let u = uid_of(&self.trades[i]);
            let ghost prev = out@;
            let ghost s0 = self.trades@.take(i as int);
            let ghost s1 = self.trades@.take(i + 1);
            if !has_uid_exec(&out, u) {
                out.push(u);
                assert forall|x: Uid|
                    #![trigger out@.contains(x)]
                    out@.contains(x) <==> (prev.contains(x) || x == u) by {
                    if out@.contains(x) {
                        let q = choose|q: int| 0 <= q < out@.len() && out@[q] == x;
                        if q < prev.len() {
                            assert(prev[q] == x);
                        }
                    }
                    if prev.contains(x) {
                        let q = choose|q: int| 0 <= q < prev.len() && prev[q] == x;
                        assert(out@[q] == x);
                    }
                    if x == u {
                        assert(out@[prev.len() as int] == x);
                    }
                }
            }
            assert forall|x: Uid| #![trigger out@.contains(x)] out@.contains(x) <==> has_uid(s1, x) by {
                if has_uid(s1, x) {
                    let q = choose|q: int| 0 <= q < s1.len() && #[trigger] trade_uid(s1[q]) == x;
                    if q < i {
                        assert(trade_uid(s0[q]) == x);
                    }
                }
                if has_uid(s0, x) {
                    let q = choose|q: int| 0 <= q < s0.len() && #[trigger] trade_uid(s0[q]) == x;
                    assert(trade_uid(s1[q]) == x);
                }
                if x == u {
                    assert(trade_uid(s1[i as int]) == x);
                }
            }
            i += 1;
        }
        assert(self.trades@.take(self.trades.len() as int) =~= self.trades@);
        out
    }

    /// Merges two settlements of one solver into one that executes both:
    /// the trades of `self` followed by those of `other`; the interactions
    /// of `self` followed by those of `other` that `self` does not already
    /// hold; the approvals of `self` followed by those of `other` for other
    /// spenders (all approve the maximum); the prices of both, and both
    /// access lists. Its gas is the sum of
    /// both until the merged settlement is simulated again.
    ///
    /// Solver-stated scores add up. A risk-adjusted settlement keeps the
    /// less likely of the two success probabilities, since the merged
    /// settlement succeeds only where both parts do.
    ///
    /// Fails when the solvers differ, when an order is traded in both, when
    /// a token is priced differently (or against different wrapped tokens),
    /// when the scores are of different kinds (a solver reports one kind),
    /// when solver-stated scores do not add up in 256 bits, or when some
    /// token of the merged settlement does not net to zero.
    pub fn merge(&self, other: &Settlement) -> (r: Result<Settlement, Error>)
        requires
            self.wf(),
            other.wf(),
        ensures
            ({
                let different = self.solver != other.solver;
                let overlap = orders_overlap(self.trades@, other.trades@);
                let conflict = self.weth != other.weth || prices_conflict(self.prices@, other.prices@);
                let scores = match (self.score, other.score) {
                    (SolverScore::Solver(a), SolverScore::Solver(b)) => a@ + b@ <= u256_max(),
                    (SolverScore::RiskAdjusted(_), SolverScore::RiskAdjusted(_)) => true,
                    _ => false,
                };
                let mflows = settlement_flows(
                    self.trades@ + other.trades@,
                    self.prices@ + fresh_prices(self.prices@, other.prices@),
                    self.weth,
                    self.interactions@ + fresh_interactions(self.interactions@, other.interactions@),
                );
                let unneutral = mflows is None || exists|t: TokenAddress| unbalanced(mflows->Some_0, t);
                &&& r is Ok <==> !different && !overlap && !conflict && scores && !unneutral
                &&& !different && !overlap && !conflict && scores && unneutral ==> r is Err
                    && r->Err_0 is AssetFlow && ({
                    let ts = r->Err_0->AssetFlow_0@;
                    &&& mflows is None ==> ts.len() == 0
                    &&& mflows is Some ==> ts.no_duplicates() && forall|t: TokenAddress|
                        ts.contains(t) <==> unbalanced(mflows->Some_0, t)
                })
                &&& different ==> r == Err::<Settlement, Error>(Error::DifferentSolvers)
                &&& !different && overlap ==> r == Err::<Settlement, Error>(Error::OverlappingOrders)
                &&& !different && !overlap && conflict ==> r == Err::<Settlement, Error>(
                    Error::ConflictingPrices,
                )
                &&& !different && !overlap && !conflict && !scores ==> r == Err::<Settlement, Error>(
                    Error::IncompatibleScores,
                )
            }),
            r is Ok ==> {
                let m = r->Ok_0;
                &&& m.wf()
                &&& m.auction_id == self.auction_id
                &&& m.solver == self.solver
                &&& m.weth == self.weth
                &&& m.trades@ == self.trades@ + other.trades@
                &&& m.prices@ == self.prices@ + fresh_prices(self.prices@, other.prices@)
                &&& merged_as(
                    m.interactions@,
                    self.interactions@,
                    fresh_interactions(self.interactions@, other.interactions@),
                )
                &&& m.approvals@ == self.approvals@ + fresh_approvals(self.approvals@, other.approvals@)
                &&& forall|e: AccessEntry|
                    m.access_list.entries@.contains(e) <==> (self.access_list.entries@.contains(e)
                        || other.access_list.entries@.contains(e))
                &&& m.gas@ == if self.gas@ + other.gas@ <= u256_max() {
                    self.gas@ + other.gas@
                } else {
                    u256_max()
                }
                &&& match (self.score, other.score) {
                    (SolverScore::Solver(a), SolverScore::Solver(b)) => m.score is Solver
                        && m.score->Solver_0@ == a@ + b@ && m.score->Solver_0@ >= a@
                        && m.score->Solver_0@ >= b@,
                    (SolverScore::RiskAdjusted(p), SolverScore::RiskAdjusted(q)) => m.score
                        == SolverScore::RiskAdjusted(less_likely(p, q)),
                    _ => false,
                }
            },
    {
        if self.solver != other.solver {
            return Err(Error::DifferentSolvers);
        }
        if trades_overlap(&self.trades, &other.trades) {
            return Err(Error::OverlappingOrders);
        }
        if self.weth != other.weth || price_conflict(&self.prices, &other.prices) {
            return Err(Error::ConflictingPrices);
        }
        let score = match (self.score, other.score) {
            (SolverScore::Solver(a), SolverScore::Solver(b)) => match a.checked_add(b) {
                Some(s) => SolverScore::Solver(s),
                None => {
                    return Err(Error::IncompatibleScores);
                },
            },
            (SolverScore::RiskAdjusted(p), SolverScore::RiskAdjusted(q)) => {
                SolverScore::RiskAdjusted(less_likely_of(p, q))
            },
            _ => {
                return Err(Error::IncompatibleScores);
            },
        };
        let mut trades = copy_all(&self.trades);
        let mut more = copy_all(&other.trades);
        trades.append(&mut more);
        let mut prices = copy_all(&self.prices);
        let mut fresh = fresh_of(&self.prices, &other.prices);
        proof {
            lemma_fresh_prices(self.prices@, other.prices@);
        }
        let ghost mine = prices@;
        prices.append(&mut fresh);
        proof {
            assert forall|i: int, j: int| 0 <= i < j < prices@.len() implies #[trigger] prices@[i].token
                != #[trigger] prices@[j].token by {
                let n = mine.len();
                if j >= n && i < n {
                    let f = fresh_prices(self.prices@, other.prices@);
                    assert(prices@[j] == f[j - n]);
                    assert(!has_token_spec(self.prices@, f[j - n].token));
                    if prices@[i].token == prices@[j].token {
                        assert(self.prices@[i].token == f[j - n].token);
                    }
                }
            }
            lemma_user_trades_concat(self.trades@, other.trades@);
            lemma_merged_prices_complete(self, other, prices@);
        }
        let clearing_prices = publish(&prices, &trades, self.weth);
        let interactions = merged_interactions(&self.interactions, &other.interactions);
        proof {
            let f = fresh_interactions(self.interactions@, other.interactions@);
            let x = self.interactions@ + f;
            let n = self.interactions@.len();
            assert forall|i: int| 0 <= i < interactions@.len() implies same_interaction(
                #[trigger] interactions@[i],
                x[i],
            ) by {
                if i < n {
                    assert(x[i] == self.interactions@[i]);
                } else {
                    assert(x[i] == f[i - n]);
                    assert(interactions@[n + (i - n)] == interactions@[i]);
                }
            }
            lemma_interaction_flows_same(interactions@, x);
        }
        let movements = match flows(&trades, &prices, self.weth, &interactions) {
            Some(m) => m,
            None => {
                return Err(Error::AssetFlow(Vec::new()));
            },
        };
        let unbalanced_ts = unbalanced_tokens(&movements);
        if unbalanced_ts.len() > 0 {
            proof {
                let t = unbalanced_ts@[0];
                assert(unbalanced_ts@.contains(t));
            }
            return Err(Error::AssetFlow(unbalanced_ts));
        }
        proof {
            assert forall|t: TokenAddress| !unbalanced(views(movements@), t) by {
                if unbalanced(views(movements@), t) {
                    assert(unbalanced_ts@.contains(t));
                }
            }
        }
        let approvals = merged_approvals(&self.approvals, &other.approvals);
        Ok(Settlement {
            auction_id: self.auction_id,
            solver: self.solver,
            weth: self.weth,
            trades,
            prices,
            clearing_prices,
            interactions,
            approvals,
            access_list: self.access_list.union(&other.access_list),
            gas: self.gas.saturating_add(other.gas),
            score,
        })
    }

    /// Encodes a solution into a settlement, given what was read from chain
    /// for it: `existing[i]` is the allowance in effect for the `i`-th
    /// entry of `solution.allowances()`, `partial` the access list of the
    /// native transfers to contract receivers, and `solver_balance` the
    /// solver account's native balance. The settlement still has to be
    /// simulated (see `simulated`); until then its gas is zero.
    ///
    /// Checked in this order: the allowances read are those required; only
    /// trusted tokens are inputs of internalized interactions; every token
    /// nets to zero over the trades and interactions; the solver account
    /// holds the native value sent.
    pub fn encode(
        solution: Solution,
        auction: &Auction,
        existing: &Vec<Existing>,
        partial: AccessList,
        solver_balance: Ether,
    ) -> (r: Result<Settlement, Error>)
        ensures
            ({
                let ints = solution.interactions_spec();
                let required = required_of(ints);
                let mismatch = !reads_match(required, existing@);
                let untrusted = exists|t: TokenAddress|
                    internalized_input(ints, t) && !is_trusted(auction.tokens@, t);
                let flows = settlement_flows(
                    solution.trades_spec(),
                    solution.prices_spec(),
                    solution.weth_spec(),
                    ints,
                );
                let unneutral = flows is None || exists|t: TokenAddress| unbalanced(flows->Some_0, t);
                let broke = total_value(ints) > solver_balance.0@;
                &&& r is Ok <==> !mismatch && !untrusted && !unneutral && !broke
                &&& mismatch ==> r == Err::<Settlement, Error>(Error::AllowanceMismatch)
                &&& !mismatch && untrusted ==> r is Err && r->Err_0 is NonBufferableTokensUsed && ({
                    let ts = r->Err_0->NonBufferableTokensUsed_0@;
                    ts.no_duplicates() && forall|t: TokenAddress|
                        ts.contains(t) <==> (internalized_input(ints, t) && !is_trusted(
                            auction.tokens@,
                            t,
                        ))
                })
                &&& !mismatch && !untrusted && unneutral ==> r is Err && r->Err_0 is AssetFlow && ({
                    let ts = r->Err_0->AssetFlow_0@;
                    &&& flows is None ==> ts.len() == 0
                    &&& flows is Some ==> ts.no_duplicates() && forall|t: TokenAddress|
                        ts.contains(t) <==> unbalanced(flows->Some_0, t)
                })
                &&& !mismatch && !untrusted && !unneutral && broke ==> r is Err
                    && r->Err_0 is SolverAccountInsufficientBalance
                    && r->Err_0->SolverAccountInsufficientBalance_0.0@ == capped(total_value(ints))
            }),
            r is Ok ==> {
                let s = r->Ok_0;
                let ints = solution.interactions_spec();
                let required = required_of(ints);
                &&& s.wf()
                &&& s.auction_id == auction.id
                &&& s.solver == solution.solver_spec()
                &&& s.weth == solution.weth_spec()
                &&& s.trades@ == solution.trades_spec()
                &&& s.prices@ == solution.prices_spec()
                &&& s.clearing_prices@ == published_prices(
                    solution.prices_spec(),
                    user_trades_spec(solution.trades_spec()),
                    solution.weth_spec(),
                )
                &&& s.interactions@ == ints
                &&& s.approvals@ == approvals_spec(required, existing@)
                &&& forall|i: int|
                    0 <= i < required.len() && total_for(
                        all_allowances(ints),
                        #[trigger] required[i].0.spender,
                    ) <= u256_max() ==> total_for(all_allowances(ints), required[i].0.spender)
                        <= existing@[i].0.amount@ || s.approvals@.contains(
                        Approval(Allowance { spender: required[i].0.spender, amount: u256_max_value() }),
                    )
                &&& s.access_list.entries@ == partial.entries@
                &&& s.gas@ == 0
                &&& s.score == solution.score_spec()
            },
    {
        let required = solution.allowances();
        let ghost ints = solution.interactions_spec();
        let ghost all = all_allowances(ints);
        let ghost req = required_of(ints);
        proof {
            lemma_normalized_unique(all, required@, req);
        }
        if !reads_match_exec(&required, existing) {
            proof {
                if reads_match(req, existing@) {
                    assert forall|i: int| 0 <= i < required@.len() implies #[trigger] existing@[i].0.spender
                        == required@[i].0.spender by {
                        assert(existing@[i].0.spender == req[i].0.spender);
                    }
                }
            }
            return Err(Error::AllowanceMismatch);
        }
        proof {
            lemma_approvals_same(required@, req, existing@);
            assert forall|i: int| 0 <= i < req.len() implies #[trigger] existing@[i].0.spender
                == req[i].0.spender by {
                assert(existing@[i].0.spender == required@[i].0.spender);
            }
        }
        let approvals = match solution.approvals(&required, existing) {
            Ok(a) => a,
            Err(e) => {
                return Err(e);
            },
        };
        proof {
            assert forall|i: int|
                0 <= i < req.len() && total_for(all, #[trigger] req[i].0.spender) <= u256_max() implies total_for(
                    all,
                    req[i].0.spender,
                ) <= existing@[i].0.amount@ || approvals@.contains(
                    Approval(Allowance { spender: req[i].0.spender, amount: u256_max_value() }),
                ) by {
                lemma_allowance_sufficiency(all, req, existing@, i);
            }
        }
        let untrusted = untrusted_internalized(solution.interactions(), &auction.tokens);
        if untrusted.len() > 0 {
            proof {
                let t = untrusted@[0];
                assert(untrusted@.contains(t));
            }
            return Err(Error::NonBufferableTokensUsed(untrusted));
        }
        proof {
            assert forall|t: TokenAddress|
                !(internalized_input(solution.interactions_spec(), t) && !is_trusted(
                    auction.tokens@,
                    t,
                )) by {
                if internalized_input(solution.interactions_spec(), t) && !is_trusted(
                    auction.tokens@,
                    t,
                ) {
                    assert(untrusted@.contains(t));
                }
            }
        }
        let movements = match flows(
            solution.trades(),
            solution.prices().entries(),
            solution.weth(),
            solution.interactions(),
        ) {
            Some(m) => m,
            None => {
                return Err(Error::AssetFlow(Vec::new()));
            },
        };
        let unbalanced_ts = unbalanced_tokens(&movements);
        if unbalanced_ts.len() > 0 {
            proof {
                let t = unbalanced_ts@[0];
                assert(unbalanced_ts@.contains(t));
            }
            return Err(Error::AssetFlow(unbalanced_ts));
        }
        proof {
            assert forall|t: TokenAddress| !unbalanced(views(movements@), t) by {
                if unbalanced(views(movements@), t) {
                    assert(unbalanced_ts@.contains(t));
                }
            }
        }
        proof {
            lemma_bounded(solver_balance.0);
        }
        match value_sent(solution.interactions()) {
            Some(sent) => {
                if solver_balance.0.lt(sent) {
                    return Err(Error::SolverAccountInsufficientBalance(Ether(sent)));
                }
            },
            None => {
                return Err(Error::SolverAccountInsufficientBalance(Ether(U256::max_value())));
            },
        }
        let clearing_prices = match solution.clearing_prices() {
            Ok(c) => c,
            Err(e) => {
                return Err(e);
            },
        };
        let solver = solution.solver();
        let weth = solution.weth();
        let score = *solution.score();
        let (trades, prices, interactions) = solution.into_parts();
        Ok(Settlement {
            auction_id: auction.id,
            solver,
            weth,
            trades,
            prices,
            clearing_prices,
            interactions,
            approvals,
            access_list: partial,
            gas: U256::zero(),
            score,
        })
    }

    /// The settlement with the access list and gas of its simulation;
    /// `uninternalized_simulates` tells whether it succeeds with nothing
    /// internalized. Where something is internalized and that fails, the
    /// settlement is rejected.
    pub fn simulated(self, access_list: AccessList, gas: U256, uninternalized_simulates: bool) -> (r:
        Result<Settlement, Error>)
        ensures
            r is Err <==> any_internalized(self.interactions@) && !uninternalized_simulates,
            r is Err ==> r->Err_0 == Error::FailingInternalization,
            r is Ok ==> {
                let s = r->Ok_0;
                &&& s.access_list.entries@ == access_list.entries@
                &&& s.gas == gas
                &&& s.auction_id == self.auction_id
                &&& s.solver == self.solver
                &&& s.weth == self.weth
                &&& s.trades@ == self.trades@
                &&& s.prices@ == self.prices@
                &&& s.clearing_prices@ == self.clearing_prices@
                &&& s.interactions@ == self.interactions@
                &&& s.approvals@ == self.approvals@
                &&& s.score == self.score
                &&& self.wf() ==> s.wf()
            },
    {
        if some_internalized(&self.interactions) && !uninternalized_simulates {
            return Err(Error::FailingInternalization);
        }
        let Settlement {
            auction_id,
            solver,
            weth,
            trades,
            prices,
            clearing_prices,
            interactions,
            approvals,
            access_list: _,
            gas: _,
            score,
        } = self;
        Ok(Settlement {
            auction_id,
            solver,
            weth,
            trades,
            prices,
            clearing_prices,
            interactions,
            approvals,
            access_list,
            gas,
            score,
        })
    }
}

} // verus!
