use driver::allowance::{self, Allowance, Approval, Existing, Required, Spender};
use driver::auction::{self, Auction, DeadlineExceeded, Duration, Timestamp, TokenInfo};
use driver::competition::{self, Competition};
use driver::engine::{
    ClearingPrices, CustomInteraction, Fee, Fulfillment, Interaction, JitTrade, Liquidity,
    LiquidityInteraction, Trade,
};
use driver::eth::{Address, Asset, Ether, TokenAddress, WethAddress};
use driver::merger::Merger;
use driver::order::{Kind, Order, Side, Uid};
use driver::settlement::{AccessEntry, AccessList, Score, Settlement, StorageKey};
use driver::solution::{self, Id, InvalidClearingPrices, Solution, SolverScore, SuccessProbability};
use driver::u256::U256;

fn u(x: u128) -> U256 {
    U256::from_u128(x)
}

fn dec(s: &str) -> U256 {
    let primitive_types::U256(w) = primitive_types::U256::from_dec_str(s).unwrap();
    U256::from_words(w)
}

fn token(hi: u32, lo: u128) -> TokenAddress {
    TokenAddress(Address::new(hi, lo))
}

fn weth() -> WethAddress {
    WethAddress(token(0xc02aaa39, 0xb223fe8d0a0e5c4f27ead9083c756cc2))
}

fn gno() -> TokenAddress {
    token(0x6810e776, 0x880c02933d47db1b9fc05908e5386b96)
}

fn cow() -> TokenAddress {
    token(0xdef1ca1f, 0xb7fbcdc777520aa7f396b4e015f497ab)
}

fn dai() -> TokenAddress {
    token(0x6b175474, 0xe89094c44da98b954eedeac495271d0f)
}

fn usdc() -> TokenAddress {
    token(0xa0b86991, 0xc6218b36c1d19d4a2e9eb0ce3606eb48)
}

fn uid(byte: u8) -> Uid {
    let b = byte as u128;
    let word = b * 0x0101_0101_0101_0101_0101_0101_0101_0101;
    Uid {
        digest_hi: word,
        digest_lo: word,
        owner: Address::new(b as u32 * 0x0101_0101, word),
        valid_to: b as u32 * 0x0101_0101,
    }
}

fn order(id: u8, sell: Asset, buy: Asset, side: Side, kind: Kind) -> Order {
    Order {
        uid: uid(id),
        sell,
        buy,
        fee: U256::zero(),
        side,
        kind,
        partially_fillable: false,
        receiver: Address::new(0, id as u128),
        valid_to: u32::MAX,
    }
}

fn asset(token: TokenAddress, amount: U256) -> Asset {
    Asset { token, amount }
}

fn pool(id: u64, spender: u128) -> Liquidity {
    Liquidity {
        id,
        address: Address::new(0x92762b42, 0xa06dcdddc5b7362cfb01e631c4d44b40),
        spender: Address::new(0xba12222, spender),
        gas: u(88892),
    }
}

fn swap(input: Asset, output: Asset, internalize: bool) -> Interaction {
    swap_on(0, input, output, internalize)
}

fn swap_on(pool_id: u64, input: Asset, output: Asset, internalize: bool) -> Interaction {
    Interaction::Liquidity(LiquidityInteraction { liquidity: pool(pool_id, 1), input, output, internalize })
}

fn solver() -> Address {
    Address::new(0x5010e6, 0x5010e6)
}

fn token_info(address: TokenAddress, trusted: bool) -> TokenInfo {
    TokenInfo {
        address,
        decimals: Some(18),
        reference_price: None,
        available_balance: U256::zero(),
        trusted,
    }
}

fn auction_for(tokens: Vec<TokenInfo>) -> Auction {
    Auction {
        id: Some(auction::Id(1)),
        deadline: Timestamp { millis: 4_291_747_200_000 },
        orders: Vec::new(),
        tokens,
        gas_price: u(1_000_000_000),
    }
}

fn solution_of(
    id: u64,
    trades: Vec<Trade>,
    prices: Vec<(TokenAddress, U256)>,
    interactions: Vec<Interaction>,
    score: SolverScore,
) -> Solution {
    Solution::new(
        Id(id),
        trades,
        ClearingPrices::new(prices),
        interactions,
        solver(),
        score,
        weth(),
    )
    .unwrap()
}

fn encode(solution: Solution, auction: &Auction) -> Result<Settlement, solution::Error> {
    let required = solution.allowances();
    let existing: Vec<Existing> = required
        .iter()
        .map(|r| Existing(Allowance { spender: r.0.spender, amount: U256::zero() }))
        .collect();
    Settlement::encode(solution, auction, &existing, AccessList::empty(), Ether(u(1_000_000_000_000_000_000)))?
    .simulated(AccessList::empty(), u(100_000), true)
}

fn gno_cow_solution(id: u64, order_id: u8) -> Solution {
    let o = order(
        order_id,
        asset(gno(), u(1_000_000_000_000_000_000)),
        asset(cow(), u(1)),
        Side::Sell,
        Kind::Market,
    );
    let trade = Fulfillment::new(o, u(1_000_000_000_000_000_000), Fee::Protocol).unwrap();
    solution_of(
        id,
        vec![Trade::Fulfillment(trade)],
        vec![(gno(), dec("1657855325872947866705")), (cow(), u(1_000_000_000_000_000_000))],
        vec![swap_on(
            order_id as u64,
            asset(gno(), u(1_000_000_000_000_000_000)),
            asset(cow(), dec("1657855325872947866705")),
            false,
        )],
        SolverScore::Solver(u(1000)),
    )
}

#[test]
fn u256_arithmetic_matches_primitive_types() {
    let big = dec("1657855325872947866705");
    assert_eq!(big, U256::from_u128(1657855325872947866705));
    assert_eq!(u(2).saturating_add(u(3)), u(5));
    assert_eq!(U256::max_value().saturating_add(u(1)), U256::max_value());
    assert_eq!(U256::max_value().checked_add(u(1)), None);
    assert_eq!(u(7).checked_sub(u(9)), None);
    assert_eq!(u(9).checked_sub(u(7)), Some(u(2)));
    assert_eq!(u(6).checked_mul(u(7)), Some(u(42)));
    assert_eq!(U256::max_value().checked_mul(u(2)), None);
    assert_eq!(u(43).checked_div(u(7)), Some(u(6)));
    assert_eq!(u(43).checked_div(U256::zero()), None);
    assert!(u(1).lt(u(2)) && !u(2).lt(u(2)) && u(2).le(u(2)));
    assert!(dec("18446744073709551616").lt(dec("18446744073709551617")));
    assert!(!dec("36893488147419103232").le(dec("18446744073709551617")));
    assert!(u(0).is_zero() && !u(1).is_zero());
}

#[test]
fn wrap_is_idempotent_and_maps_eth_to_weth() {
    let eth = TokenAddress::eth();
    assert!(eth.is_eth());
    assert_eq!(eth.wrap(weth()), weth().0);
    assert_eq!(eth.wrap(weth()).wrap(weth()), eth.wrap(weth()));
    assert_eq!(gno().wrap(weth()), gno());
    assert_eq!(gno().wrap(weth()).wrap(weth()), gno());
    assert_eq!(weth().0.wrap(weth()), weth().0);
}

#[test]
fn approval_only_when_required_exceeds_existing() {
    let spender = Spender { address: Address::new(1, 2), token: gno() };
    let other = Spender { address: Address::new(1, 3), token: gno() };
    let required = Required(Allowance { spender, amount: u(10) });
    assert_eq!(required.approval(&Existing(Allowance { spender, amount: u(10) })), None);
    assert_eq!(required.approval(&Existing(Allowance { spender: other, amount: u(0) })), None);
    let approval = required.approval(&Existing(Allowance { spender, amount: u(9) })).unwrap();
    assert_eq!(approval, Approval(Allowance { spender, amount: u(10) }));
    let max = approval.max();
    assert_eq!(max.0.spender, spender);
    assert_eq!(max.0.amount, U256::max_value());
}

#[test]
fn allowances_collapse_by_spender_in_order() {
    let a = Spender { address: Address::new(0, 5), token: gno() };
    let b = Spender { address: Address::new(0, 2), token: cow() };
    let c = Spender { address: Address::new(0, 2), token: gno() };
    let input = vec![
        Allowance { spender: a, amount: u(1) },
        Allowance { spender: b, amount: u(2) },
        Allowance { spender: a, amount: u(3) },
        Allowance { spender: c, amount: U256::max_value() },
        Allowance { spender: c, amount: u(4) },
    ];
    let out = allowance::normalize(&input);
    // cow's address sorts after gno's.
    assert_eq!(
        out,
        vec![
            Required(Allowance { spender: c, amount: U256::max_value() }),
            Required(Allowance { spender: b, amount: u(2) }),
            Required(Allowance { spender: a, amount: u(4) }),
        ]
    );
    assert!(allowance::normalize(&Vec::new()).is_empty());
}

#[test]
fn approvals_cover_every_shortfall() {
    let a = Spender { address: Address::new(0, 1), token: gno() };
    let b = Spender { address: Address::new(0, 2), token: gno() };
    let required = vec![
        Required(Allowance { spender: a, amount: u(5) }),
        Required(Allowance { spender: b, amount: u(5) }),
    ];
    let existing = vec![
        Existing(Allowance { spender: a, amount: u(5) }),
        Existing(Allowance { spender: b, amount: u(4) }),
    ];
    let approvals = allowance::approvals(&required, &existing);
    assert_eq!(approvals, vec![Approval(Allowance { spender: b, amount: U256::max_value() })]);
}

#[test]
fn fulfillment_validity() {
    let sell = order(1, asset(gno(), u(100)), asset(cow(), u(1)), Side::Sell, Kind::Market);
    assert!(Fulfillment::new(sell, u(100), Fee::Protocol).is_some());
    assert!(Fulfillment::new(sell, u(99), Fee::Protocol).is_none());
    assert!(Fulfillment::new(sell, u(90), Fee::Surplus(u(10))).is_none());
    let limit = Order { kind: Kind::Limit, ..sell };
    let filled = Fulfillment::new(limit, u(90), Fee::Surplus(u(10))).unwrap();
    assert_eq!(filled.surplus_fee(), Some(asset(gno(), u(10))));
    assert_eq!(filled.executed(), asset(gno(), u(90)));
    assert!(Fulfillment::new(limit, u(90), Fee::Surplus(u(11))).is_none());
    assert!(Fulfillment::new(limit, U256::max_value(), Fee::Surplus(u(1))).is_none());
    assert!(Fulfillment::fill(limit).is_none());
    let partial = Order { partially_fillable: true, ..sell };
    assert!(Fulfillment::new(partial, u(40), Fee::Protocol).is_some());
    assert!(Fulfillment::new(partial, u(101), Fee::Protocol).is_none());
    let buy = order(2, asset(gno(), u(100)), asset(cow(), u(7)), Side::Buy, Kind::Market);
    let full = Fulfillment::fill(buy).unwrap();
    assert_eq!(full.executed(), asset(cow(), u(7)));
    assert_eq!(full.surplus_fee(), None);
    assert_eq!(full.fee(), Fee::Protocol);
    assert_eq!(Fee::Surplus(u(3)).surplus(), Some(u(3)));
}

#[test]
fn clearing_prices_later_entry_wins() {
    let prices = ClearingPrices::new(vec![(gno(), u(1)), (cow(), u(2)), (gno(), u(3))]);
    assert_eq!(prices.get(gno()), Some(u(3)));
    assert_eq!(prices.get(cow()), Some(u(2)));
    assert_eq!(prices.get(dai()), None);
    assert_eq!(prices.entries().len(), 2);
}

#[test]
fn solution_needs_prices_for_user_trades() {
    let o = order(1, asset(gno(), u(100)), asset(TokenAddress::eth(), u(1)), Side::Sell, Kind::Market);
    let trade = Trade::Fulfillment(Fulfillment::fill(o).unwrap());
    let missing = Solution::new(
        Id(0),
        vec![trade],
        ClearingPrices::new(vec![(gno(), u(1))]),
        Vec::new(),
        solver(),
        SolverScore::Solver(u(1)),
        weth(),
    );
    assert!(matches!(missing, Err(InvalidClearingPrices)));
    // The native currency is priced as its wrapped token.
    let ok = solution_of(
        0,
        vec![trade],
        vec![(gno(), u(1)), (weth().0, u(2))],
        Vec::new(),
        SolverScore::Solver(u(1)),
    );
    assert_eq!(ok.clearing_price(TokenAddress::eth()), Some(u(2)));
    assert_eq!(ok.clearing_price(dai()), None);
    assert_eq!(ok.eth_receivers(), vec![o.receiver]);
    // A liquidity order needs no price.
    let liquidity = Order { kind: Kind::Liquidity, ..o };
    let jit = JitTrade { order: liquidity, executed: u(1) };
    let empty = solution_of(
        1,
        vec![Trade::Fulfillment(Fulfillment::fill(liquidity).unwrap()), Trade::Jit(jit)],
        Vec::new(),
        Vec::new(),
        SolverScore::Solver(u(1)),
    );
    assert!(empty.is_empty());
    assert!(!ok.is_empty());
}

#[test]
fn clearing_prices_add_eth_and_drop_unused_weth() {
    let o = order(1, asset(gno(), u(100)), asset(TokenAddress::eth(), u(1)), Side::Sell, Kind::Market);
    let trade = Trade::Fulfillment(Fulfillment::fill(o).unwrap());
    let s = solution_of(
        0,
        vec![trade],
        vec![(gno(), u(1)), (weth().0, u(2))],
        Vec::new(),
        SolverScore::Solver(u(1)),
    );
    assert_eq!(
        s.clearing_prices().unwrap(),
        vec![asset(gno(), u(1)), asset(TokenAddress::eth(), u(2))]
    );
    // When another user trade uses the wrapped token its price stays.
    let w = order(2, asset(weth().0, u(5)), asset(gno(), u(1)), Side::Sell, Kind::Market);
    let s = solution_of(
        0,
        vec![trade, Trade::Fulfillment(Fulfillment::fill(w).unwrap())],
        vec![(gno(), u(1)), (weth().0, u(2))],
        Vec::new(),
        SolverScore::Solver(u(1)),
    );
    assert_eq!(
        s.clearing_prices().unwrap(),
        vec![asset(gno(), u(1)), asset(weth().0, u(2)), asset(TokenAddress::eth(), u(2))]
    );
    // Without native-currency buys the prices are handed on as they are.
    let plain = gno_cow_solution(0, 1);
    assert_eq!(plain.clearing_prices().unwrap().len(), 2);
}

#[test]
fn weighted_pool_sell_scenario() {
    let solution = gno_cow_solution(0, 0x2a);
    assert_eq!(solution.clearing_price(gno()), Some(dec("1657855325872947866705")));
    assert_eq!(solution.clearing_price(cow()), Some(u(1_000_000_000_000_000_000)));
    assert_eq!(solution.user_trades()[0].executed().amount, u(1_000_000_000_000_000_000));
    let required = solution.allowances();
    assert_eq!(required.len(), 1);
    assert_eq!(required[0].0.spender.token, gno());
    let auction = auction_for(vec![token_info(gno(), true), token_info(cow(), true)]);
    let settlement = encode(solution, &auction).unwrap();
    assert_eq!(settlement.trades.len(), 1);
    assert_eq!(settlement.approvals.len(), 1);
    assert_eq!(settlement.approvals[0].0.amount, U256::max_value());
    assert_eq!(settlement.orders(), vec![uid(0x2a)]);
    assert_eq!(settlement.auction_id, Some(auction::Id(1)));
}

#[test]
fn stable_pool_orders_stay_separate() {
    let sell = order(
        1,
        asset(dai(), u(10_000_000_000_000_000_000)),
        asset(usdc(), u(9_500_000)),
        Side::Sell,
        Kind::Market,
    );
    let buy = order(
        2,
        asset(dai(), u(10_500_000_000_000_000_000)),
        asset(usdc(), u(10_000_000)),
        Side::Buy,
        Kind::Market,
    );
    let first = solution_of(
        0,
        vec![Trade::Fulfillment(Fulfillment::fill(sell).unwrap())],
        vec![(dai(), u(9999475)), (usdc(), u(10_000_000_000_000_000_000))],
        vec![swap(asset(dai(), u(10_000_000_000_000_000_000)), asset(usdc(), u(9999475)), false)],
        SolverScore::Solver(u(1)),
    );
    let second = solution_of(
        1,
        vec![Trade::Fulfillment(Fulfillment::fill(buy).unwrap())],
        vec![(dai(), u(10_000_000)), (usdc(), u(10000524328839166557))],
        vec![swap(asset(dai(), u(10000524328839166557)), asset(usdc(), u(10_000_000)), false)],
        SolverScore::Solver(u(1)),
    );
    let auction = auction_for(vec![token_info(dai(), true), token_info(usdc(), true)]);
    let a = encode(first, &auction).unwrap();
    let b = encode(second, &auction).unwrap();
    assert_eq!(a.prices, vec![asset(dai(), u(9999475)), asset(usdc(), u(10_000_000_000_000_000_000))]);
    assert_eq!(b.prices, vec![asset(dai(), u(10_000_000)), asset(usdc(), u(10000524328839166557))]);
    assert_eq!(a.merge(&b).err(), Some(solution::Error::ConflictingPrices));
}

#[test]
fn merge_combines_compatible_settlements() {
    let auction = auction_for(vec![token_info(gno(), true), token_info(cow(), true)]);
    let a = encode(gno_cow_solution(0, 1), &auction).unwrap();
    let b = encode(gno_cow_solution(1, 2), &auction).unwrap();
    let m = a.merge(&b).unwrap();
    assert_eq!(m.trades.len(), 2);
    assert_eq!(m.prices.len(), 2);
    assert_eq!(m.interactions.len(), 2);
    // Both approve the same spender for the maximum: one approval remains.
    assert_eq!(m.approvals.len(), 1);
    assert_eq!(m.gas, u(200_000));
    assert_eq!(m.score, SolverScore::Solver(u(2000)));
    assert_eq!(m.orders(), vec![uid(1), uid(2)]);
    // The same order twice does not merge.
    let c = encode(gno_cow_solution(2, 1), &auction).unwrap();
    assert_eq!(a.merge(&c).err(), Some(solution::Error::OverlappingOrders));
    // Nor do settlements of different solvers.
    let mut d = encode(gno_cow_solution(3, 3), &auction).unwrap();
    d.solver = Address::new(9, 9);
    assert_eq!(a.merge(&d).err(), Some(solution::Error::DifferentSolvers));
    // Nor risk-adjusted scores.
    let mut e = encode(gno_cow_solution(4, 4), &auction).unwrap();
    e.score = SolverScore::RiskAdjusted(SuccessProbability { numerator: 1, denominator: 2 });
    assert_eq!(a.merge(&e).err(), Some(solution::Error::IncompatibleScores));
}

#[test]
fn internalization_rejects_untrusted_tokens() {
    let o = order(1, asset(gno(), u(100)), asset(cow(), u(1)), Side::Sell, Kind::Market);
    let solution = solution_of(
        0,
        vec![Trade::Fulfillment(Fulfillment::fill(o).unwrap())],
        vec![(gno(), u(1)), (cow(), u(100))],
        vec![swap(asset(gno(), u(100)), asset(cow(), u(1)), true)],
        SolverScore::Solver(u(1)),
    );
    let auction = auction_for(vec![token_info(gno(), false), token_info(cow(), true)]);
    assert_eq!(
        encode(solution, &auction).err(),
        Some(solution::Error::NonBufferableTokensUsed(vec![gno()]))
    );
}

#[test]
fn internalization_needs_a_working_fallback() {
    let solution = gno_cow_internalized();
    let auction = auction_for(vec![token_info(gno(), true), token_info(cow(), true)]);
    let required = solution.allowances();
    let existing: Vec<Existing> =
        required.iter().map(|r| Existing(Allowance { spender: r.0.spender, amount: u(0) })).collect();
    let encoded =
        Settlement::encode(solution, &auction, &existing, AccessList::empty(), Ether(u(0)))
            .unwrap();
    assert_eq!(encoded.gas, U256::zero());
    let result = encoded.simulated(AccessList::empty(), u(1), false);
    assert_eq!(result.err(), Some(solution::Error::FailingInternalization));
    let plain = encode(gno_cow_solution(0, 1), &auction).unwrap();
    let kept = plain.simulated(AccessList::empty(), u(7), false).unwrap();
    assert_eq!(kept.gas, u(7));
}

fn gno_cow_internalized() -> Solution {
    let o = order(1, asset(gno(), u(100)), asset(cow(), u(1)), Side::Sell, Kind::Market);
    solution_of(
        0,
        vec![Trade::Fulfillment(Fulfillment::fill(o).unwrap())],
        vec![(gno(), u(1)), (cow(), u(100))],
        vec![swap(asset(gno(), u(100)), asset(cow(), u(1)), true)],
        SolverScore::Solver(u(1)),
    )
}

#[test]
fn encode_checks_allowances_and_solver_balance() {
    let call = CustomInteraction {
        target: Address::new(0, 77),
        value: Ether(u(500)),
        calldata: vec![1, 2, 3],
        internalize: false,
        inputs: Vec::new(),
        outputs: Vec::new(),
        allowances: Vec::new(),
    };
    let make = || {
        solution_of(
            0,
            Vec::new(),
            Vec::new(),
            vec![Interaction::Custom(call.clone())],
            SolverScore::Solver(u(1)),
        )
    };
    let auction = auction_for(Vec::new());
    let poor = Settlement::encode(
        make(),
        &auction,
        &Vec::new(),
        AccessList::empty(),
        Ether(u(499)),
    );
    assert_eq!(poor.err(), Some(solution::Error::SolverAccountInsufficientBalance(Ether(u(500)))));
    let rich = Settlement::encode(
        make(),
        &auction,
        &Vec::new(),
        AccessList::empty(),
        Ether(u(500)),
    );
    assert!(rich.is_ok());
    let extra = vec![Existing(Allowance {
        spender: Spender { address: Address::new(0, 1), token: gno() },
        amount: u(0),
    })];
    let mismatch = Settlement::encode(
        make(),
        &auction,
        &extra,
        AccessList::empty(),
        Ether(u(500)),
    );
    assert_eq!(mismatch.err(), Some(solution::Error::AllowanceMismatch));
}

#[test]
fn scores_of_both_kinds() {
    let auction = auction_for(vec![token_info(gno(), true), token_info(cow(), true)]);
    let mut s = encode(gno_cow_solution(0, 1), &auction).unwrap();
    assert_eq!(s.score(&auction, u(0)), Ok(Score::positive(u(1000))));
    s.score = SolverScore::RiskAdjusted(SuccessProbability { numerator: 1, denominator: 2 });
    // 10^15 * 1/2 - 100000 * 10^9
    assert_eq!(
        s.score(&auction, u(1_000_000_000_000_000)),
        Ok(Score::positive(u(500_000_000_000_000 - 100_000_000_000_000)))
    );
    // Gas costing more than the expected surplus gives a negative score.
    assert_eq!(
        s.score(&auction, u(1)),
        Ok(Score { negative: true, magnitude: u(100_000_000_000_000) })
    );
    let negative = Score { negative: true, magnitude: u(5) };
    assert!(negative.le(Score::positive(U256::zero())));
    assert!(!Score::positive(u(1)).le(negative));
    assert!(Score { negative: true, magnitude: u(7) }.le(negative));
    s.score = SolverScore::RiskAdjusted(SuccessProbability { numerator: 1, denominator: 0 });
    assert!(s.score(&auction, u(1_000_000_000_000_000)).is_err());
}

#[test]
fn access_lists_union_without_repeats() {
    let a = AccessEntry { address: Address::new(0, 1), slot: None };
    let b = AccessEntry { address: Address::new(0, 1), slot: Some(StorageKey { hi: 0, lo: 7 }) };
    let c = AccessEntry { address: Address::new(0, 2), slot: None };
    let x = AccessList { entries: vec![a, b] };
    let y = AccessList { entries: vec![b, c] };
    assert_eq!(x.union(&y).entries, vec![a, b, c]);
}

#[test]
fn deadline_sliver_is_exceeded() {
    let now = Timestamp { millis: 1_000_000 };
    let buffer = Duration { millis: 500 };
    let mut auction = auction_for(Vec::new());
    auction.deadline = Timestamp { millis: now.millis + buffer.millis / 2 };
    assert_eq!(auction.timeout(now, buffer), Err(DeadlineExceeded));
    auction.deadline = Timestamp { millis: now.millis + 2_000 };
    let timeout = auction.timeout(now, buffer).unwrap();
    assert_eq!(timeout.duration(), Duration { millis: 1_500 });
    assert_eq!(timeout.deadline(now), Some(Timestamp { millis: 1_001_500 }));
    assert_eq!(timeout.reduce(Duration { millis: 500 }).duration(), Duration { millis: 1_000 });
    assert_eq!(timeout.deadline(Timestamp { millis: i64::MAX }), None);
}

#[test]
fn settle_without_solve_is_not_available() {
    let mut competition = Competition::new();
    assert!(matches!(competition.settle(), Err(competition::Error::SolutionNotAvailable)));
    assert_eq!(competition.auction_id(), None);
}

#[test]
fn settle_twice_is_not_available() {
    let auction = auction_for(vec![token_info(gno(), true), token_info(cow(), true)]);
    let mut competition = Competition::new();
    let s = encode(gno_cow_solution(0, 1), &auction).unwrap();
    let reveal = competition.solve(vec![(Score::positive(u(5)), s)]).unwrap();
    assert_eq!(reveal.score, Score::positive(u(5)));
    assert_eq!(competition.auction_id(), Some(auction::Id(1)));
    assert!(competition.settle().is_ok());
    assert!(matches!(competition.settle(), Err(competition::Error::SolutionNotAvailable)));
    assert_eq!(competition.auction_id(), None);
}

#[test]
fn second_solve_replaces_the_first() {
    let auction = auction_for(vec![token_info(gno(), true), token_info(cow(), true)]);
    let mut competition = Competition::new();
    let first = encode(gno_cow_solution(0, 1), &auction).unwrap();
    let reveal = competition.solve(vec![(Score::positive(u(5)), first)]).unwrap();
    assert_eq!(reveal.orders, vec![uid(1)]);
    let mut later = auction_for(vec![token_info(gno(), true), token_info(cow(), true)]);
    later.id = Some(auction::Id(2));
    let second = encode(gno_cow_solution(0, 2), &later).unwrap();
    let reveal = competition.solve(vec![(Score::positive(u(3)), second)]).unwrap();
    assert_eq!(reveal.orders, vec![uid(2)]);
    let settled = competition.settle().unwrap();
    assert_eq!(settled.auction_id, Some(auction::Id(2)));
    assert_eq!(settled.orders(), vec![uid(2)]);
}

#[test]
fn solve_without_settlements_finds_nothing() {
    let mut competition = Competition::new();
    assert!(matches!(competition.solve(Vec::new()), Err(competition::Error::SolutionNotFound)));
}

#[test]
fn best_score_wins_and_later_wins_ties() {
    let auction = auction_for(vec![token_info(gno(), true), token_info(cow(), true)]);
    let s = |id: u8| encode(gno_cow_solution(0, id), &auction).unwrap();
    let scored = vec![(Score::positive(u(3)), s(1)), (Score::positive(u(7)), s(2)), (Score::positive(u(7)), s(3)), (Score::positive(u(1)), s(4))];
    assert_eq!(competition::best_index(&scored), Some(2));
    let mut competition = Competition::new();
    let reveal = competition.solve(scored).unwrap();
    assert_eq!(reveal.score, Score::positive(u(7)));
    assert_eq!(reveal.orders, vec![uid(3)]);
}

#[test]
fn empty_solutions_are_discarded() {
    let kept = gno_cow_solution(0, 1);
    let empty = solution_of(1, Vec::new(), Vec::new(), Vec::new(), SolverScore::Solver(u(1)));
    let out = competition::non_empty(vec![empty, kept]);
    assert_eq!(out.len(), 1);
    assert_eq!(out[0].id(), Id(0));
}

fn run_merger(items: Vec<u32>, merge: impl Fn(u32, u32) -> Option<u32>) -> (Vec<u32>, usize) {
    let mut merger = Merger::new(items);
    let mut attempts = 0;
    while let Some(j) = merger.next_attempt() {
        attempts += 1;
        match merge(*merger.candidate(j), *merger.current()) {
            Some(m) => merger.merged(m),
            None => merger.not_merged(),
        }
    }
    (merger.finish(), attempts)
}

#[test]
fn merger_without_merges_returns_the_inputs() {
    let (out, attempts) = run_merger(vec![1, 2, 3, 4], |_, _| None);
    assert_eq!(out, vec![4, 3, 2, 1]);
    assert_eq!(attempts, 3 + 2 + 1);
}

#[test]
fn merger_folds_mergeable_items() {
    let (out, attempts) = run_merger(vec![1, 2, 3, 4], |a, b| Some(a + b));
    assert_eq!(out, vec![10]);
    assert!(attempts <= 16);
    // Only even sums merge.
    let (out, _) = run_merger(vec![1, 3, 2], |a, b| if (a + b) % 2 == 0 { Some(a + b) } else { None });
    assert_eq!(out.iter().sum::<u32>(), 6);
}

#[test]
fn start_merging_keeps_successful_encodings() {
    let auction = auction_for(vec![token_info(gno(), true), token_info(cow(), true)]);
    let ok = encode(gno_cow_solution(0, 1), &auction);
    let failed: Result<Settlement, solution::Error> = Err(solution::Error::Simulation);
    let mut merger = competition::start_merging(vec![failed, ok]);
    assert_eq!(merger.next_attempt(), None);
    let out = merger.finish();
    assert_eq!(out.len(), 1);
    assert_eq!(out[0].orders(), vec![uid(1)]);
}

#[test]
fn asset_flow_rejects_a_token_drain() {
    let drain = CustomInteraction {
        target: Address::new(0, 66),
        value: Ether(U256::zero()),
        calldata: Vec::new(),
        internalize: false,
        inputs: vec![asset(gno(), u(1_000_000_000_000_000_000))],
        outputs: Vec::new(),
        allowances: Vec::new(),
    };
    let solution = solution_of(0, Vec::new(), Vec::new(), vec![Interaction::Custom(drain)], SolverScore::Solver(u(1)));
    let auction = auction_for(Vec::new());
    assert_eq!(
        encode(solution, &auction).err(),
        Some(solution::Error::AssetFlow(vec![gno()]))
    );
}

#[test]
fn asset_flow_counts_trades_at_clearing_prices() {
    // The interaction returns one wei of COW too few for the sell order.
    let o = order(1, asset(gno(), u(100)), asset(cow(), u(1)), Side::Sell, Kind::Market);
    let short = solution_of(
        0,
        vec![Trade::Fulfillment(Fulfillment::fill(o).unwrap())],
        vec![(gno(), u(3)), (cow(), u(2))],
        vec![swap(asset(gno(), u(100)), asset(cow(), u(149)), false)],
        SolverScore::Solver(u(1)),
    );
    let auction = auction_for(vec![token_info(gno(), true), token_info(cow(), true)]);
    assert_eq!(encode(short, &auction).err(), Some(solution::Error::AssetFlow(vec![cow()])));
    // 100 * 3 / 2 = 150 COW.
    let exact = solution_of(
        0,
        vec![Trade::Fulfillment(Fulfillment::fill(o).unwrap())],
        vec![(gno(), u(3)), (cow(), u(2))],
        vec![swap(asset(gno(), u(100)), asset(cow(), u(150)), false)],
        SolverScore::Solver(u(1)),
    );
    assert!(encode(exact, &auction).is_ok());
    // A buy order of 7 COW sells 7 * 2 / 3 = 4 GNO, rounded down.
    let b = order(2, asset(gno(), u(10)), asset(cow(), u(7)), Side::Buy, Kind::Market);
    let buy = solution_of(
        0,
        vec![Trade::Fulfillment(Fulfillment::fill(b).unwrap())],
        vec![(gno(), u(3)), (cow(), u(2))],
        vec![swap(asset(gno(), u(4)), asset(cow(), u(7)), false)],
        SolverScore::Solver(u(1)),
    );
    assert!(encode(buy, &auction).is_ok());
    // A just-in-time trade without prices cannot be valued.
    let jit = JitTrade {
        order: Order { kind: Kind::Liquidity, ..order(3, asset(dai(), u(1)), asset(usdc(), u(1)), Side::Sell, Kind::Liquidity) },
        executed: u(1),
    };
    let unpriced = solution_of(0, vec![Trade::Jit(jit)], Vec::new(), Vec::new(), SolverScore::Solver(u(1)));
    assert_eq!(encode(unpriced, &auction).err(), Some(solution::Error::AssetFlow(Vec::new())));
}

#[test]
fn encode_rejects_reads_for_other_spenders() {
    let solution = gno_cow_solution(0, 1);
    let auction = auction_for(vec![token_info(gno(), true), token_info(cow(), true)]);
    let wrong = vec![Existing(Allowance {
        spender: Spender { address: Address::new(7, 7), token: gno() },
        amount: U256::zero(),
    })];
    let result = Settlement::encode(solution, &auction, &wrong, AccessList::empty(), Ether(U256::zero()));
    assert_eq!(result.err(), Some(solution::Error::AllowanceMismatch));
    // Enough allowance already in effect: no approval.
    let solution = gno_cow_solution(0, 1);
    let spender = solution.allowances()[0].0.spender;
    let enough = vec![Existing(Allowance { spender, amount: U256::max_value() })];
    let s = Settlement::encode(solution, &auction, &enough, AccessList::empty(), Ether(U256::zero())).unwrap();
    assert!(s.approvals.is_empty());
}

#[test]
fn settlement_publishes_the_native_price() {
    let o = order(1, asset(gno(), u(100)), asset(TokenAddress::eth(), u(1)), Side::Sell, Kind::Market);
    let solution = solution_of(
        0,
        vec![Trade::Fulfillment(Fulfillment::fill(o).unwrap())],
        vec![(gno(), u(1)), (weth().0, u(100))],
        vec![swap(asset(gno(), u(100)), asset(weth().0, u(1)), false)],
        SolverScore::Solver(u(1)),
    );
    let auction = auction_for(vec![token_info(gno(), true), token_info(weth().0, true)]);
    let s = encode(solution, &auction).unwrap();
    assert_eq!(s.clearing_prices, vec![asset(gno(), u(1)), asset(TokenAddress::eth(), u(100))]);
}

#[test]
fn risk_adjusted_settlements_merge() {
    let auction = auction_for(vec![token_info(gno(), true), token_info(cow(), true)]);
    let mut a = encode(gno_cow_solution(0, 1), &auction).unwrap();
    let mut b = encode(gno_cow_solution(1, 2), &auction).unwrap();
    a.score = SolverScore::RiskAdjusted(SuccessProbability { numerator: 9, denominator: 10 });
    b.score = SolverScore::RiskAdjusted(SuccessProbability { numerator: 1, denominator: 2 });
    let m = a.merge(&b).unwrap();
    assert_eq!(m.score, SolverScore::RiskAdjusted(SuccessProbability { numerator: 1, denominator: 2 }));
}

#[test]
fn liquidity_pairs_of_user_orders() {
    let mut a = auction_for(Vec::new());
    a.orders = vec![
        order(1, asset(gno(), u(1)), asset(cow(), u(1)), Side::Sell, Kind::Market),
        order(2, asset(cow(), u(1)), asset(gno(), u(1)), Side::Buy, Kind::Limit),
        order(3, asset(dai(), u(1)), asset(dai(), u(1)), Side::Sell, Kind::Market),
        order(4, asset(dai(), u(1)), asset(usdc(), u(1)), Side::Sell, Kind::Liquidity),
    ];
    let pairs = a.liquidity_pairs();
    assert_eq!(pairs, vec![auction::TokenPair::new(gno(), cow()).unwrap()]);
    assert_eq!(pairs[0].first, gno());
    assert!(auction::TokenPair::new(dai(), dai()).is_none());
}

#[test]
fn merge_drops_repeated_interactions_and_rechecks_flows() {
    let auction = auction_for(vec![token_info(gno(), true), token_info(cow(), true)]);
    let a = encode(gno_cow_solution(0, 1), &auction).unwrap();
    // Order 2 routed through the same pool with the same amounts: the
    // repeated swap is kept once, and the merged settlement no longer
    // balances.
    let o = order(2, asset(gno(), u(1_000_000_000_000_000_000)), asset(cow(), u(1)), Side::Sell, Kind::Market);
    let trade = Fulfillment::new(o, u(1_000_000_000_000_000_000), Fee::Protocol).unwrap();
    let b = encode(
        solution_of(
            1,
            vec![Trade::Fulfillment(trade)],
            vec![(gno(), dec("1657855325872947866705")), (cow(), u(1_000_000_000_000_000_000))],
            vec![swap_on(1, asset(gno(), u(1_000_000_000_000_000_000)), asset(cow(), dec("1657855325872947866705")), false)],
            SolverScore::Solver(u(1)),
        ),
        &auction,
    )
    .unwrap();
    let mut gno_then_cow = vec![gno(), cow()];
    let mut err = match a.merge(&b).err() {
        Some(solution::Error::AssetFlow(ts)) => ts,
        other => panic!("unexpected {:?}", other),
    };
    err.sort();
    gno_then_cow.sort();
    assert_eq!(err, gno_then_cow);
}

#[test]
fn start_merging_in_order_keeps_the_order() {
    let auction = auction_for(vec![token_info(gno(), true), token_info(cow(), true)]);
    let first = encode(gno_cow_solution(0, 1), &auction);
    let second = encode(gno_cow_solution(1, 2), &auction);
    let failed: Result<Settlement, solution::Error> = Err(solution::Error::Blockchain);
    let mut merger = competition::start_merging_in_order(vec![first, failed, second]);
    let mut attempts = 0;
    while merger.next_attempt().is_some() {
        attempts += 1;
        merger.not_merged();
    }
    assert_eq!(attempts, 1);
    let out = merger.finish();
    assert_eq!(out.len(), 2);
    assert_eq!(out[0].orders(), vec![uid(2)]);
    assert_eq!(out[1].orders(), vec![uid(1)]);
}

#[test]
fn auction_expiry() {
    let auction = auction_for(Vec::new());
    assert!(!auction.expired(Timestamp { millis: auction.deadline.millis - 1 }));
    assert!(auction.expired(auction.deadline));
}
