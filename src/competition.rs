//! The competition of one solver: the solve/settle handoff around a single
//! reserved settlement, and the decisions that `solve` makes between its
//! calls to the outside world.

use vstd::prelude::*;
use rand::seq::SliceRandom;
use crate::auction::{self, DeadlineExceeded};
use crate::merger::Merger;
use crate::order::Uid;
use crate::settlement::{Score, Settlement, has_uid};
use crate::solution::{self, Solution, user_trades_spec};

verus! {

/// Solution information revealed to the protocol before settling: the
/// score and the orders solved.
pub struct Reveal {
    pub score: Score,
    /// The orders solved by the settlement, each once.
    pub orders: Vec<Uid>,
}

/// The calldata of the settlement transaction, with and without
/// internalized interactions.
pub struct Calldata {
    pub internalized: Vec<u8>,
    pub uninternalized: Vec<u8>,
}

#[derive(Clone, Copy, Debug, PartialEq, Eq, Structural)]
pub enum Error {
    /// `settle` came without a reserved settlement.
    SolutionNotAvailable,
    /// No settlement survived encoding, merging and scoring.
    SolutionNotFound,
    DeadlineExceeded(DeadlineExceeded),
    /// The solver failed to answer.
    Solver,
}

/// The score values of scored settlements.
pub open spec fn score_values(scored: Seq<(Score, Settlement)>) -> Seq<int> {
    Seq::new(scored.len(), |i: int| scored[i].0.value())
}

/// `b` holds the highest score, and no later entry ties with it: on equal
/// scores the later one wins.
pub open spec fn is_best(scores: Seq<int>, b: int) -> bool {
    &&& 0 <= b < scores.len()
    &&& forall|j: int| 0 <= j < scores.len() ==> #[trigger] scores[j] <= scores[b]
    &&& forall|j: int| b < j < scores.len() ==> #[trigger] scores[j] < scores[b]
}

pub proof fn lemma_best_unique(scores: Seq<int>, a: int, b: int)
    requires
        is_best(scores, a),
        is_best(scores, b),
    ensures
        a == b,
{
    if a < b {
        assert(scores[b] < scores[a]);
        assert(scores[a] <= scores[b]);
    } else if b < a {
        assert(scores[a] < scores[b]);
        assert(scores[b] <= scores[a]);
    }
}

/// The winning position among scored settlements.
pub open spec fn best_of(scored: Seq<(Score, Settlement)>) -> int {
    choose|b: int| is_best(score_values(scored), b)
}

/// The slot after `solve` with these scored settlements: the best one
/// replaces whatever was reserved; with none the slot stays.
pub open spec fn slot_after_solve(
    slot: Option<Settlement>,
    scored: Seq<(Score, Settlement)>,
) -> Option<Settlement> {
    if scored.len() == 0 {
        slot
    } else {
        Some(scored[best_of(scored)].1)
    }
}

/// The position of the best score; `None` for no entries.
pub fn best_index(scored: &Vec<(Score, Settlement)>) -> (r: Option<usize>)
    ensures
        r is None <==> scored@.len() == 0,
        r is Some ==> is_best(score_values(scored@), r->Some_0 as int),
{
    if scored.len() == 0 {
        return None;
    }
    let ghost v = score_values(scored@);
    let mut best: usize = 0;
    let mut i: usize = 1;
    while i < scored.len()
        invariant
            1 <= i <= scored.len(),
            best < i,
            v == score_values(scored@),
            forall|j: int| 0 <= j < i ==> #[trigger] v[j] <= v[best as int],
            forall|j: int| best < j < i ==> #[trigger] v[j] < v[best as int],
        decreases scored.len() - i,
    {
        if scored[best].0.le(scored[i].0) {
            best = i;
        }
        i += 1;
    }
    Some(best)
}

/// The solutions that have user trades, in order.
pub open spec fn non_empty_spec(s: Seq<Solution>) -> Seq<Solution>
    decreases s.len(),
{
    if s.len() == 0 {
        seq![]
    } else {
        let rest = non_empty_spec(s.drop_first());
        if user_trades_spec(s[0].trades_spec()).len() == 0 {
            rest
        } else {
            seq![s[0]] + rest
        }
    }
}

/// Discards the solutions without user trades.
pub fn non_empty(solutions: Vec<Solution>) -> (r: Vec<Solution>)
    ensures
        r@ == non_empty_spec(solutions@),
{
    let mut rest = solutions;
    let mut out: Vec<Solution> = Vec::new();
    while rest.len() > 0
        invariant
            out@ + non_empty_spec(rest@) == non_empty_spec(solutions@),
        decreases rest.len(),
    {
        let ghost before = rest@;
        let s = rest.remove(0);
        assert(rest@ =~= before.drop_first());
        if s.is_empty() {
        } else {
            let ghost o = out@;
            out.push(s);
            assert(o + (seq![s] + non_empty_spec(rest@)) =~= out@ + non_empty_spec(rest@));
        }
    }
    assert(out@ + non_empty_spec(rest@) =~= out@);
    out
}

/// The settlements of the encodings that succeeded, in order.
pub open spec fn encoded_spec(results: Seq<Result<Settlement, solution::Error>>) -> Seq<Settlement>
    decreases results.len(),
{
    if results.len() == 0 {
        seq![]
    } else {
        let rest = encoded_spec(results.drop_first());
        match results[0] {
            Ok(s) => seq![s] + rest,
            Err(_) => rest,
        }
    }
}

/// Relies on `rand::seq::SliceRandom::shuffle` with the thread-local
/// generator: the items are permuted in place.
#[verifier::external_body]
fn shuffle(items: &mut Vec<Settlement>)
    ensures
        final(items)@.len() == old(items)@.len(),
        final(items)@.to_multiset() == old(items)@.to_multiset(),
{
    items.shuffle(&mut rand::thread_rng());
}

/// The settlements of the encodings that succeeded, in order.
pub fn encoded(results: Vec<Result<Settlement, solution::Error>>) -> (r: Vec<Settlement>)
    ensures
        r@ == encoded_spec(results@),
{
    let mut rest = results;
    let mut out: Vec<Settlement> = Vec::new();
    while rest.len() > 0
        invariant
            out@ + encoded_spec(rest@) == encoded_spec(results@),
        decreases rest.len(),
    {
        let ghost before = rest@;
        let item = rest.remove(0);
        assert(rest@ =~= before.drop_first());
        match item {
            Ok(s) => {
                let ghost o = out@;
                out.push(s);
                assert(o + (seq![s] + encoded_spec(rest@)) =~= out@ + encoded_spec(rest@));
            },
            Err(_) => {},
        }
    }
    assert(out@ + encoded_spec(rest@) =~= out@);
    out
}

/// Keeps the settlements whose encoding succeeded and hands them, in random
/// order, to a merger.
pub fn start_merging(results: Vec<Result<Settlement, solution::Error>>) -> (r: Merger<Settlement>)
    ensures
        r.wf(),
        r.attempts() == 0,
        r.merges() == 0,
        r.input().to_multiset() == encoded_spec(results@).to_multiset(),
{
    let mut out = encoded(results);
    shuffle(&mut out);
    Merger::new(out)
}

/// Keeps the settlements whose encoding succeeded and hands them, in the
/// given order, to a merger; a caller that wants reproducible merges orders
/// the results itself (for instance from a seed).
pub fn start_merging_in_order(results: Vec<Result<Settlement, solution::Error>>) -> (r: Merger<
    Settlement,
>)
    ensures
        r.wf(),
        r.attempts() == 0,
        r.merges() == 0,
        r.input() == encoded_spec(results@),
{
    Merger::new(encoded(results))
}

/// What `settle` leaves in the slot and returns, given the slot before.
pub open spec fn settle_outcome(slot: Option<Settlement>) -> (Option<Settlement>, Result<Settlement, Error>) {
    match slot {
        Some(s) => (None, Ok(s)),
        None => (None, Err(Error::SolutionNotAvailable)),
    }
}

/// An ongoing competition: there is one per solver. It reserves at most one
/// settlement, produced by `solve`, until `settle` takes it for execution.
pub struct Competition {
    settlement: Option<Settlement>,
}

impl Competition {
    /// The reserved settlement, if any.
    pub closed spec fn slot(&self) -> Option<Settlement> {
        self.settlement
    }

    pub fn new() -> (r: Competition)
        ensures
            r.slot() is None,
    {
        Competition { settlement: None }
    }

    /// Completes solving an auction: picks the best of the scored
    /// settlements (the later one on equal scores), reserves it in place of
    /// any earlier one, and reveals its score and orders.
    pub fn solve(&mut self, scored: Vec<(Score, Settlement)>) -> (r: Result<Reveal, Error>)
        ensures
            final(self).slot() == slot_after_solve(old(self).slot(), scored@),
            scored@.len() == 0 ==> r == Err::<Reveal, Error>(Error::SolutionNotFound),
            scored@.len() > 0 ==> {
                let b = best_of(scored@);
                &&& is_best(score_values(scored@), b)
                &&& r is Ok
                &&& r->Ok_0.score == scored@[b].0
                &&& r->Ok_0.orders@.no_duplicates()
                &&& forall|u: Uid| r->Ok_0.orders@.contains(u) <==> has_uid(scored@[b].1.trades@, u)
            },
    {
        let b = match best_index(&scored) {
            Some(b) => b,
            None => {
                return Err(Error::SolutionNotFound);
            },
        };
        proof {
            lemma_best_unique(score_values(scored@), b as int, best_of(scored@));
        }
        let ghost all = scored@;
        let mut scored = scored;
        let (score, settlement) = scored.remove(b);
        assert((score, settlement) == all[b as int]);
        let orders = settlement.orders();
        self.settlement = Some(settlement);
        Ok(Reveal { score, orders })
    }

    /// Takes the reserved settlement for execution; without one, fails with
    /// `SolutionNotAvailable`. Either way no settlement is reserved after.
    pub fn settle(&mut self) -> (r: Result<Settlement, Error>)
        ensures
            (final(self).slot(), r) == settle_outcome(old(self).slot()),
    {
        match self.settlement.take() {
            Some(s) => Ok(s),
            None => Err(Error::SolutionNotAvailable),
        }
    }

    /// The auction of the reserved settlement.
    pub fn auction_id(&self) -> (r: Option<auction::Id>)
        ensures
            r == match self.slot() {
                Some(s) => s.auction_id,
                None => None,
            },
    {
        match &self.settlement {
            Some(s) => s.auction_id,
            None => None,
        }
    }
}

/// Settling is idempotent: once a settle has succeeded the slot is empty,
/// and a second settle fails with `SolutionNotAvailable`.
pub proof fn lemma_settle_idempotent(slot: Option<Settlement>)
    ensures
        settle_outcome(slot).1 is Ok ==> settle_outcome(slot).0 is None,
        settle_outcome(settle_outcome(slot).0).1 == Err::<Settlement, Error>(Error::SolutionNotAvailable),
        settle_outcome(settle_outcome(slot).0).0 is None,
{
}

/// At most one settlement is reserved: a successful solve reserves its own
/// best settlement whatever was reserved before, so of two successive
/// solves only the second one's settlement is left for `settle`.
pub proof fn lemma_last_solve_wins(
    slot: Option<Settlement>,
    first: Seq<(Score, Settlement)>,
    second: Seq<(Score, Settlement)>,
)
    requires
        second.len() > 0,
    ensures
        slot_after_solve(slot_after_solve(slot, first), second) == slot_after_solve(None, second),
        slot_after_solve(slot_after_solve(slot, first), second) == Some(
            second[best_of(second)].1,
        ),
{
}

} // verus!
