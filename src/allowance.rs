//! ERC-20 allowances: what a settlement needs, what is already granted, and
//! the approvals that close the gap.

use vstd::prelude::*;
use crate::eth::{Address, TokenAddress, lemma_address_key_injective};
use crate::u256::{U256, u256_max, u256_max_value};

verus! {

/// The contract allowed to spend a token on behalf of the settlement.
#[derive(Clone, Copy, Debug, PartialEq, Eq, Structural, PartialOrd, Ord, Hash)]
pub struct Spender {
    pub address: Address,
    pub token: TokenAddress,
}

/// An ERC-20 allowance: how much of `spender.token` the spender may move.
#[derive(Clone, Copy, Debug, PartialEq, Eq, Structural, Hash)]
pub struct Allowance {
    pub spender: Spender,
    pub amount: U256,
}

/// An allowance already in effect on chain.
#[derive(Clone, Copy, Debug, PartialEq, Eq, Structural)]
pub struct Existing(pub Allowance);

/// An allowance that some action requires.
#[derive(Clone, Copy, Debug, PartialEq, Eq, Structural)]
pub struct Required(pub Allowance);

/// An allowance that must be granted with an `approve()` call.
#[derive(Clone, Copy, Debug, PartialEq, Eq, Structural)]
pub struct Approval(pub Allowance);

/// Spenders are ordered by address, then by token.
pub open spec fn spender_lt(a: Spender, b: Spender) -> bool {
    a.address.key() < b.address.key() || (a.address.key() == b.address.key()
        && a.token.0.key() < b.token.0.key())
}

pub fn spender_less(a: Spender, b: Spender) -> (r: bool)
    ensures
        r == spender_lt(a, b),
{
    a.address.less_than(b.address) || (a.address == b.address && a.token.0.less_than(b.token.0))
}

/// The approval that `required` calls for, given what `existing` grants.
pub open spec fn approval_spec(required: Required, existing: Existing) -> Option<Approval> {
    if required.0.spender != existing.0.spender || required.0.amount@ <= existing.0.amount@ {
        None
    } else {
        Some(Approval(required.0))
    }
}

impl Required {
    /// Check if this allowance needs to be approved, and if so, return the
    /// appropriate approval.
    pub fn approval(self, existing: &Existing) -> (r: Option<Approval>)
        ensures
            r == approval_spec(self, *existing),
    {
        if self.0.spender != existing.0.spender || self.0.amount.le(existing.0.amount) {
            None
        } else {
            Some(Approval(self.0))
        }
    }
}

impl Approval {
    /// The same approval for the largest amount possible. Approving the
    /// maximum saves later approvals, and with them gas, at the price of
    /// trusting the spender contract.
    pub fn max(self) -> (r: Approval)
        ensures
            r == Approval(Allowance { spender: self.0.spender, amount: u256_max_value() }),
            r.0.amount@ == u256_max(),
    {
        Approval(Allowance { spender: self.0.spender, amount: U256::max_value() })
    }
}

/// `n`, or the largest 256-bit value when `n` exceeds it.
pub open spec fn capped(n: nat) -> nat {
    if n <= u256_max() {
        n
    } else {
        u256_max()
    }
}

/// The sum of all amounts in `s` for the spender `sp`.
pub open spec fn total_for(s: Seq<Allowance>, sp: Spender) -> nat
    decreases s.len(),
{
    if s.len() == 0 {
        0
    } else {
        total_for(s.drop_last(), sp) + if s.last().spender == sp {
            s.last().amount@
        } else {
            0
        }
    }
}

pub open spec fn in_allowances(s: Seq<Allowance>, sp: Spender) -> bool {
    exists|k: int| 0 <= k < s.len() && #[trigger] s[k].spender == sp
}

pub open spec fn in_required(s: Seq<Required>, sp: Spender) -> bool {
    exists|i: int| 0 <= i < s.len() && #[trigger] s[i].0.spender == sp
}

/// `out` is `input` collapsed by spender: one entry per spender that occurs
/// in `input`, in strictly ascending spender order, each holding the
/// saturated sum of that spender's amounts.
pub open spec fn normalized(input: Seq<Allowance>, out: Seq<Required>) -> bool {
    &&& forall|i: int, j: int|
        0 <= i < j < out.len() ==> spender_lt(#[trigger] out[i].0.spender, #[trigger] out[j].0.spender)
    &&& forall|i: int|
        0 <= i < out.len() ==> in_allowances(input, #[trigger] out[i].0.spender) && out[i].0.amount@
            == capped(total_for(input, out[i].0.spender))
    &&& forall|k: int| 0 <= k < input.len() ==> in_required(out, #[trigger] input[k].spender)
}

proof fn lemma_spender_order(a: Spender, b: Spender)
    ensures
        !spender_lt(a, a),
        !spender_lt(a, b) && !spender_lt(b, a) ==> a == b,
{
    if !spender_lt(a, b) && !spender_lt(b, a) {
        lemma_address_key_injective(a.address, b.address);
        lemma_address_key_injective(a.token.0, b.token.0);
    }
}

/// Collapse allowances by spender with saturating addition, ordered by
/// spender.
pub fn normalize(allowances: &Vec<Allowance>) -> (r: Vec<Required>)
    ensures
        normalized(allowances@, r@),
{
    let mut out: Vec<Required> = Vec::new();
    let mut k: usize = 0;
    while k < allowances.len()
        invariant
            k <= allowances.len(),
            normalized(allowances@.take(k as int), out@),
        decreases allowances.len() - k,
    {
        let a = allowances[k];
        let ghost before = allowances@.take(k as int);
        let ghost after = allowances@.take(k + 1);
        assert(after.drop_last() =~= before);
        assert(after.last() == a);
        assert forall|j: int| 0 <= j < before.len() implies after[j] == before[j] by {}
        let mut i: usize = 0;
        while i < out.len() && spender_less(out[i].0.spender, a.spender)
            invariant
                i <= out.len(),
                forall|j: int| 0 <= j < i ==> spender_lt(#[trigger] out@[j].0.spender, a.spender),
            decreases out.len() - i,
        {
            i += 1;
        }
        let ghost old_out = out@;
        if i < out.len() && out[i].0.spender == a.spender {
            let cur = out[i];
            let amount = cur.0.amount.saturating_add(a.amount);
            out.set(i, Required(Allowance { spender: a.spender, amount }));
            assert forall|j: int| 0 <= j < out@.len() implies in_allowances(after, #[trigger] out@[j].0.spender)
                && out@[j].0.amount@ == capped(total_for(after, out@[j].0.spender)) by {
                assert(in_allowances(before, old_out[j].0.spender));
                let w = choose|w: int| 0 <= w < before.len() && #[trigger] before[w].spender == old_out[j].0.spender;
                assert(after[w] == before[w]);
                if j != i {
                    lemma_spender_order(old_out[j].0.spender, a.spender);
                }
            }
            assert forall|q: int| 0 <= q < after.len() implies in_required(out@, #[trigger] after[q].spender) by {
                if q < before.len() {
                    assert(before[q] == after[q]);
                    assert(in_required(old_out, before[q].spender));
                    let w = choose|w: int| 0 <= w < old_out.len() && #[trigger] old_out[w].0.spender == before[q].spender;
                    assert(out@[w].0.spender == old_out[w].0.spender);
                } else {
                    assert(out@[i as int].0.spender == a.spender);
                }
            }
        } else {
            proof {
                if i < out.len() {
                    lemma_spender_order(out@[i as int].0.spender, a.spender);
                }
            }
            out.insert(i, Required(a));
            assert forall|x: int, y: int| 0 <= x < y < out@.len() implies spender_lt(
                #[trigger] out@[x].0.spender, #[trigger] out@[y].0.spender) by {
                if y == i {
                } else if x == i {
                    assert(spender_lt(a.spender, old_out[i as int].0.spender));
                    if y - 1 > i {
                        assert(spender_lt(old_out[i as int].0.spender, old_out[y - 1].0.spender));
                    }
                } else if x < i && y > i {
                    assert(spender_lt(old_out[x].0.spender, old_out[y - 1].0.spender));
                } else if y < i {
                    assert(spender_lt(old_out[x].0.spender, old_out[y].0.spender));
                } else {
                    assert(spender_lt(old_out[x - 1].0.spender, old_out[y - 1].0.spender));
                }
            }
            assert forall|j: int| 0 <= j < out@.len() implies in_allowances(after, #[trigger] out@[j].0.spender)
                && out@[j].0.amount@ == capped(total_for(after, out@[j].0.spender)) by {
                if j == i {
                    assert(after[k as int].spender == a.spender);
                    assert(!in_allowances(before, a.spender)) by {
                        if in_allowances(before, a.spender) {
                            let w = choose|w: int| 0 <= w < before.len() && #[trigger] before[w].spender == a.spender;
                            assert(in_required(old_out, before[w].spender));
                            let v = choose|v: int| 0 <= v < old_out.len() && #[trigger] old_out[v].0.spender == a.spender;
                            if v < i {
                                lemma_spender_order(a.spender, a.spender);
                            } else {
                                if v > i {
                                    assert(spender_lt(old_out[i as int].0.spender, old_out[v].0.spender));
                                }
                                lemma_spender_order(old_out[i as int].0.spender, a.spender);
                            }
                        }
                    }
                    lemma_total_absent(before, a.spender);
                } else {
                    let oj = if j < i { j } else { j - 1 };
                    assert(out@[j] == old_out[oj]);
                    assert(in_allowances(before, old_out[oj].0.spender));
                    let w = choose|w: int| 0 <= w < before.len() && #[trigger] before[w].spender == old_out[oj].0.spender;
                    assert(after[w] == before[w]);
                    if oj < i {
                        lemma_spender_order(old_out[oj].0.spender, a.spender);
                    } else {
                        if oj > i {
                            assert(spender_lt(old_out[i as int].0.spender, old_out[oj].0.spender));
                        }
                        lemma_spender_order(old_out[oj].0.spender, a.spender);
                    }
                }
            }
            assert forall|q: int| 0 <= q < after.len() implies in_required(out@, #[trigger] after[q].spender) by {
                if q < before.len() {
                    assert(before[q] == after[q]);
                    assert(in_required(old_out, before[q].spender));
                    let w = choose|w: int| 0 <= w < old_out.len() && #[trigger] old_out[w].0.spender == before[q].spender;
                    if w < i {
                        assert(out@[w].0.spender == old_out[w].0.spender);
                    } else {
                        assert(out@[w + 1].0.spender == old_out[w].0.spender);
                    }
                } else {
                    assert(out@[i as int].0.spender == a.spender);
                }
            }
        }
        k += 1;
    }
    assert(allowances@.take(allowances.len() as int) =~= allowances@);
    out
}

/// A spender that does not occur has nothing to its name.
proof fn lemma_total_absent(s: Seq<Allowance>, sp: Spender)
    requires
        !in_allowances(s, sp),
    ensures
        total_for(s, sp) == 0,
    decreases s.len(),
{
    if s.len() > 0 {
        assert(!in_allowances(s.drop_last(), sp)) by {
            if in_allowances(s.drop_last(), sp) {
                let w = choose|w: int| 0 <= w < s.drop_last().len() && #[trigger] s.drop_last()[w].spender == sp;
                assert(s[w].spender == sp);
            }
        }
        assert(s[s.len() - 1].spender != sp);
        lemma_total_absent(s.drop_last(), sp);
    }
}

/// The approvals, each for the maximal amount, that the required allowances
/// call for given the existing ones read for them, in the same order.
pub open spec fn approvals_spec(required: Seq<Required>, existing: Seq<Existing>) -> Seq<Approval>
    decreases required.len(),
{
    if required.len() == 0 {
        seq![]
    } else {
        let n = required.len() - 1;
        let rest = approvals_spec(required.drop_last(), existing.take(n));
        match approval_spec(required[n], existing[n]) {
            Some(a) => rest.push(Approval(Allowance { spender: a.0.spender, amount: u256_max_value() })),
            None => rest,
        }
    }
}

/// The approvals needed on top of `existing`, where `existing[i]` is the
/// allowance in effect for the spender of `required[i]`.
pub fn approvals(required: &Vec<Required>, existing: &Vec<Existing>) -> (r: Vec<Approval>)
    requires
        existing.len() == required.len(),
    ensures
        r@ == approvals_spec(required@, existing@),
{
    let mut out: Vec<Approval> = Vec::new();
    let mut k: usize = 0;
    while k < required.len()
        invariant
            k <= required.len(),
            existing.len() == required.len(),
            out@ == approvals_spec(required@.take(k as int), existing@.take(k as int)),
        decreases required.len() - k,
    {
        assert(required@.take(k + 1).drop_last() =~= required@.take(k as int));
        assert(existing@.take(k + 1).take(k as int) =~= existing@.take(k as int));
        match required[k].approval(&existing[k]) {
            Some(a) => out.push(a.max()),
            None => {},
        }
        k += 1;
    }
    assert(required@.take(required.len() as int) =~= required@);
    assert(existing@.take(required.len() as int) =~= existing@);
    out
}

proof fn lemma_approvals_contain(required: Seq<Required>, existing: Seq<Existing>, i: int)
    requires
        existing.len() == required.len(),
        0 <= i < required.len(),
        approval_spec(required[i], existing[i]) is Some,
    ensures
        approvals_spec(required, existing).contains(
            Approval(Allowance { spender: required[i].0.spender, amount: u256_max_value() }),
        ),
    decreases required.len(),
{
    let n = required.len() - 1;
    let rest = approvals_spec(required.drop_last(), existing.take(n));
    let target = Approval(Allowance { spender: required[i].0.spender, amount: u256_max_value() });
    if i == n {
        assert(approvals_spec(required, existing).last() == target);
    } else {
        lemma_approvals_contain(required.drop_last(), existing.take(n), i);
        let w = choose|w: int| 0 <= w < rest.len() && rest[w] == target;
        assert(approvals_spec(required, existing)[w] == target);
    }
}

/// The spender of `input[k]` that `out[i]` matches: both normalisations of
/// one input agree up to position `i`.
proof fn lemma_normalized_prefix(input: Seq<Allowance>, a: Seq<Required>, b: Seq<Required>, i: int)
    requires
        normalized(input, a),
        normalized(input, b),
        0 <= i <= a.len(),
        i <= b.len(),
    ensures
        forall|j: int| 0 <= j < i ==> #[trigger] a[j].0.spender == b[j].0.spender,
    decreases i,
{
    if i > 0 {
        let n = i - 1;
        lemma_normalized_prefix(input, a, b, n);
        let x = a[n].0.spender;
        let y = b[n].0.spender;
        assert(in_allowances(input, x));
        let k0 = choose|k: int| 0 <= k < input.len() && #[trigger] input[k].spender == x;
        assert(in_required(b, input[k0].spender));
        let k = choose|k: int| 0 <= k < b.len() && #[trigger] b[k].0.spender == x;
        if k < n {
            assert(a[k].0.spender == b[k].0.spender);
            assert(spender_lt(a[k].0.spender, a[n].0.spender));
            lemma_spender_order(x, x);
        }
        assert(in_allowances(input, y));
        let m0 = choose|m: int| 0 <= m < input.len() && #[trigger] input[m].spender == y;
        assert(in_required(a, input[m0].spender));
        let m = choose|m: int| 0 <= m < a.len() && #[trigger] a[m].0.spender == y;
        if m < n {
            assert(a[m].0.spender == b[m].0.spender);
            assert(spender_lt(b[m].0.spender, b[n].0.spender));
            lemma_spender_order(y, y);
        }
        if k > n {
            assert(spender_lt(b[n].0.spender, b[k].0.spender));
        }
        if m > n {
            assert(spender_lt(a[n].0.spender, a[m].0.spender));
        }
        lemma_spender_order(x, y);
    }
}

/// One input has one normalisation, up to how amounts are written: the same
/// spenders in the same order, with the same amounts.
pub proof fn lemma_normalized_unique(input: Seq<Allowance>, a: Seq<Required>, b: Seq<Required>)
    requires
        normalized(input, a),
        normalized(input, b),
    ensures
        a.len() == b.len(),
        forall|j: int|
            0 <= j < a.len() ==> #[trigger] a[j].0.spender == b[j].0.spender && a[j].0.amount@
                == b[j].0.amount@,
{
    if a.len() > b.len() {
        lemma_normalized_prefix(input, a, b, b.len() as int);
        let n = b.len() as int;
        let x = a[n].0.spender;
        let k0 = choose|k: int| 0 <= k < input.len() && #[trigger] input[k].spender == x;
        assert(in_required(b, input[k0].spender));
        let k = choose|k: int| 0 <= k < b.len() && #[trigger] b[k].0.spender == x;
        assert(a[k].0.spender == b[k].0.spender);
        assert(spender_lt(a[k].0.spender, a[n].0.spender));
        lemma_spender_order(x, x);
    } else if b.len() > a.len() {
        lemma_normalized_prefix(input, b, a, a.len() as int);
        let n = a.len() as int;
        let x = b[n].0.spender;
        let k0 = choose|k: int| 0 <= k < input.len() && #[trigger] input[k].spender == x;
        assert(in_required(a, input[k0].spender));
        let k = choose|k: int| 0 <= k < a.len() && #[trigger] a[k].0.spender == x;
        assert(b[k].0.spender == a[k].0.spender);
        assert(spender_lt(b[k].0.spender, b[n].0.spender));
        lemma_spender_order(x, x);
    }
    lemma_normalized_prefix(input, a, b, a.len() as int);
}

/// Approvals depend only on the spenders and the amounts' values.
pub proof fn lemma_approvals_same(a: Seq<Required>, b: Seq<Required>, existing: Seq<Existing>)
    requires
        a.len() == b.len(),
        existing.len() == a.len(),
        forall|j: int|
            0 <= j < a.len() ==> #[trigger] a[j].0.spender == b[j].0.spender && a[j].0.amount@
                == b[j].0.amount@,
    ensures
        approvals_spec(a, existing) == approvals_spec(b, existing),
    decreases a.len(),
{
    if a.len() > 0 {
        let n = a.len() - 1;
        let a2 = a.drop_last();
        let b2 = b.drop_last();
        assert forall|j: int| 0 <= j < a2.len() implies #[trigger] a2[j].0.spender == b2[j].0.spender
            && a2[j].0.amount@ == b2[j].0.amount@ by {
            assert(a2[j] == a[j] && b2[j] == b[j]);
            assert(a[j].0.spender == b[j].0.spender);
        }
        lemma_approvals_same(a2, b2, existing.take(n));
        assert(a[n].0.spender == b[n].0.spender);
    }
}

/// Allowance sufficiency: for every normalised spender whose total need fits
/// in 256 bits, the allowance already in effect covers that need, or the
/// approvals grant the spender the maximal amount.
pub proof fn lemma_allowance_sufficiency(
    allowances: Seq<Allowance>,
    required: Seq<Required>,
    existing: Seq<Existing>,
    i: int,
)
    requires
        normalized(allowances, required),
        existing.len() == required.len(),
        0 <= i < required.len(),
        existing[i].0.spender == required[i].0.spender,
        total_for(allowances, required[i].0.spender) <= u256_max(),
    ensures
        total_for(allowances, required[i].0.spender) <= existing[i].0.amount@
            || approvals_spec(required, existing).contains(
            Approval(Allowance { spender: required[i].0.spender, amount: u256_max_value() }),
        ),
{
    if approval_spec(required[i], existing[i]) is Some {
        lemma_approvals_contain(required, existing, i);
    }
}

} // verus!
