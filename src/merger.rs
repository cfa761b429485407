//! The merge loop, as a state machine: it says which pair of settlements to
//! try to merge next, and is told whether the merge succeeded.

use vstd::prelude::*;

verus! {

/// Where an input now lives: in the working list, as the element being
/// placed, or in the results.
pub ghost enum Place {
    Pending(nat),
    Current,
    Done(nat),
}

/// `0 + 1 + ... + (m - 1)`.
pub open spec fn tri(m: nat) -> nat
    decreases m,
{
    if m == 0 {
        0
    } else {
        tri((m - 1) as nat) + (m - 1) as nat
    }
}

/// Some input lives at `place`.
pub open spec fn owned(owner: Seq<Place>, place: Place) -> bool {
    exists|i: int| 0 <= i < owner.len() && #[trigger] owner[i] == place
}

/// The inputs at `from` move to `to`.
pub open spec fn moved(owner: Seq<Place>, from: Place, to: Place) -> Seq<Place> {
    Seq::new(owner.len(), |i: int| if owner[i] == from { to } else { owner[i] })
}

proof fn lemma_moved(owner: Seq<Place>, from: Place, to: Place)
    ensures
        forall|place: Place|
            place != from && #[trigger] owned(owner, place) ==> owned(moved(owner, from, to), place),
        owned(owner, from) ==> owned(moved(owner, from, to), to),
{
    let m = moved(owner, from, to);
    assert forall|place: Place| place != from && #[trigger] owned(owner, place) implies owned(m, place) by {
        let i = choose|i: int| 0 <= i < owner.len() && #[trigger] owner[i] == place;
        assert(m[i] == place);
    }
    if owned(owner, from) {
        let i = choose|i: int| 0 <= i < owner.len() && #[trigger] owner[i] == from;
        assert(m[i] == to);
    }
}

pub proof fn lemma_tri_quadratic(m: nat)
    ensures
        tri(m) <= m * m,
    decreases m,
{
    if m > 0 {
        lemma_tri_quadratic((m - 1) as nat);
        assert((m - 1) * (m - 1) + (m - 1) <= m * m) by (nonlinear_arith)
            requires
                m > 0,
        ;
    }
}

/// Merges items pairwise until none can be merged further. The last
/// pending item is taken out and offered to each remaining pending item in
/// turn; the first that absorbs it is replaced by the merge, and when none
/// does the item is final.
pub struct Merger<T> {
    pending: Vec<T>,
    results: Vec<T>,
    current: Option<T>,
    next: usize,
    input: Ghost<Seq<T>>,
    owner: Ghost<Seq<Place>>,
    attempts: Ghost<nat>,
    merges: Ghost<nat>,
}

impl<T> Merger<T> {
    /// The items the merger started from.
    pub closed spec fn input(&self) -> Seq<T> {
        self.input@
    }

    /// Where each input now lives.
    pub closed spec fn owner(&self) -> Seq<Place> {
        self.owner@
    }

    /// The merges tried so far.
    pub closed spec fn attempts(&self) -> nat {
        self.attempts@
    }

    /// The merges that succeeded so far.
    pub closed spec fn merges(&self) -> nat {
        self.merges@
    }

    /// A merge attempt is waiting for its outcome.
    pub closed spec fn trying(&self) -> bool {
        self.current is Some && self.next < self.pending@.len()
    }

    /// All items are final.
    pub closed spec fn done(&self) -> bool {
        self.current is None && self.pending@.len() == 0
    }

    pub closed spec fn result_len(&self) -> nat {
        self.results@.len()
    }

    /// Attempts still possible from this state at most.
    closed spec fn budget(&self) -> nat {
        tri(self.pending@.len()) + if self.current is Some {
            (self.pending@.len() - self.next) as nat
        } else {
            0
        }
    }

    /// Some input lives at `place`.
    pub open spec fn owns(&self, place: Place) -> bool {
        owned(self.owner(), place)
    }

    pub closed spec fn wf(&self) -> bool {
        let n = self.input@.len();
        let p = self.pending@.len();
        let k = self.results@.len();
        &&& self.owner@.len() == n
        &&& self.next <= p
        &&& self.current is None ==> self.next == 0
        &&& forall|i: int|
            0 <= i < n ==> match #[trigger] self.owner@[i] {
                Place::Pending(q) => q < p,
                Place::Current => self.current is Some,
                Place::Done(q) => q < k,
            }
        &&& self.attempts@ + self.budget() <= tri(n)
        &&& forall|q: int| 0 <= q < p ==> #[trigger] owned(self.owner@, Place::Pending(q as nat))
        &&& forall|q: int| 0 <= q < k ==> #[trigger] owned(self.owner@, Place::Done(q as nat))
        &&& self.current is Some ==> owned(self.owner@, Place::Current)
        &&& self.merges@ == 0 ==> {
            let c: int = if self.current is Some {
                1
            } else {
                0
            };
            &&& p + c + k == n
            &&& forall|i: int| 0 <= i < p ==> #[trigger] self.pending@[i] == self.input@[i]
            &&& self.current is Some ==> self.current->Some_0 == self.input@[p as int]
            &&& forall|j: int| 0 <= j < k ==> #[trigger] self.results@[j] == self.input@[n - 1 - j]
        }
    }

    /// A merger over `items`, nothing tried yet.
    pub fn new(items: Vec<T>) -> (r: Merger<T>)
        ensures
            r.wf(),
            r.input() == items@,
            r.attempts() == 0,
            r.merges() == 0,
    {
        let ghost n = items@.len();
        let ghost owner = Seq::new(n, |i: int| Place::Pending(i as nat));
        let ghost input = items@;
        assert forall|q: int| 0 <= q < n implies #[trigger] owned(owner, Place::Pending(q as nat)) by {
            assert(owner[q] == Place::Pending(q as nat));
        }
        Merger {
            pending: items,
            results: Vec::new(),
            current: None,
            next: 0,
            input: Ghost(input),
            owner: Ghost(owner),
            attempts: Ghost(0),
            merges: Ghost(0),
        }
    }

    /// The pending item that the item being placed is offered to next.
    pub closed spec fn next_spec(&self) -> nat {
        self.next as nat
    }

    /// The next merge to try: `Some(j)` asks to merge the item being placed
    /// into pending item `j`; `None` means every item is final.
    pub fn next_attempt(&mut self) -> (r: Option<usize>)
        requires
            old(self).wf(),
        ensures
            old(self).trying() ==> r == Some(old(self).next_spec() as usize),
            final(self).wf(),
            final(self).input() == old(self).input(),
            final(self).attempts() == old(self).attempts(),
            final(self).merges() == old(self).merges(),
            r is Some <==> final(self).trying(),
            r is None <==> final(self).done(),
            r is Some ==> r->Some_0 == final(self).next_spec() && r->Some_0 < final(self).pending_len(),
    {
        if self.current.is_some() && self.next < self.pending.len() {
            return Some(self.next);
        }
        loop
            invariant
                self.wf(),
                self.input() == old(self).input(),
                self.attempts() == old(self).attempts(),
                self.merges() == old(self).merges(),
                !self.trying(),
                !old(self).trying(),
            decreases self.pending@.len() * 2 + if self.current is Some { 1nat } else { 0 },
        {
            if self.current.is_some() {
                // `next` reached the end: nothing absorbs the item, it is final.
                let ghost k = self.results@.len();
                let item = self.current.take().unwrap();
                self.results.push(item);
                self.next = 0;
                let ghost o1 = self.owner@;
                proof {
                    lemma_moved(self.owner@, Place::Current, Place::Done(k));
                }
                self.owner = Ghost(moved(self.owner@, Place::Current, Place::Done(k)));
                proof                 {
                    let o = o1;
                    assert(owned(o, Place::Current));
                    assert forall|q: int| 0 <= q < self.pending@.len() implies #[trigger] owned(
                        self.owner@,
                        Place::Pending(q as nat),
                    ) by {
                        assert(owned(o, Place::Pending(q as nat)));
                    }
                    assert forall|q: int| 0 <= q < self.results@.len() implies #[trigger] owned(
                        self.owner@,
                        Place::Done(q as nat),
                    ) by {
                        if q < k {
                            assert(owned(o, Place::Done(q as nat)));
                        }
                    }
                    assert(owned(o, Place::Current));
                }
            } else {
                match self.pending.pop() {
                    None => {
                        return None;
                    },
                    Some(item) => {
                        let ghost p = self.pending@.len();
                        self.current = Some(item);
                        self.next = 0;
                        let ghost o2 = self.owner@;
                        proof {
                            lemma_moved(self.owner@, Place::Pending(p), Place::Current);
                            assert(owned(o2, Place::Pending(p)));
                        }
                        self.owner = Ghost(moved(self.owner@, Place::Pending(p), Place::Current));
                        proof                 {
                    let o = o2;
                    assert forall|q: int| 0 <= q < self.pending@.len() implies #[trigger] owned(
                        self.owner@,
                        Place::Pending(q as nat),
                    ) by {
                        assert(owned(o, Place::Pending(q as nat)));
                    }
                    assert forall|q: int| 0 <= q < self.results@.len() implies #[trigger] owned(
                        self.owner@,
                        Place::Done(q as nat),
                    ) by {
                        assert(owned(o, Place::Done(q as nat)));
                    }
                    
                }
                        if self.pending.len() > 0 {
                            return Some(0);
                        }
                    },
                }
            }
        }
    }

    pub closed spec fn pending_len(&self) -> nat {
        self.pending@.len()
    }

    /// The items still open to merges.
    pub closed spec fn pending_spec(&self) -> Seq<T> {
        self.pending@
    }

    /// The item being placed, if any.
    pub closed spec fn current_spec(&self) -> Option<T> {
        self.current
    }

    /// The item being placed.
    pub fn current(&self) -> (r: &T)
        requires
            self.trying(),
        ensures
            self.current_spec() == Some(*r),
    {
        self.current.as_ref().unwrap()
    }

    /// Pending item `j`.
    pub fn candidate(&self, j: usize) -> (r: &T)
        requires
            j < self.pending_len(),
        ensures
            *r == self.pending_spec()[j as int],
    {
        &self.pending[j]
    }

    /// The item being placed was merged into pending item `next`; `merged`
    /// replaces that item.
    pub fn merged(&mut self, merged: T)
        requires
            old(self).wf(),
            old(self).trying(),
        ensures
            final(self).wf(),
            !final(self).trying(),
            final(self).input() == old(self).input(),
            final(self).attempts() == old(self).attempts() + 1,
            final(self).merges() == old(self).merges() + 1,
            final(self).pending_spec() == old(self).pending_spec().update(
                old(self).next_spec() as int,
                merged,
            ),
            final(self).current_spec() is None,
    {
        let j = self.next;
        let ghost p = self.pending@.len();
        self.pending.set(j, merged);
        self.current = None;
        self.next = 0;
        let ghost o3 = self.owner@;
        proof {
            lemma_moved(self.owner@, Place::Current, Place::Pending(j as nat));
            assert(owned(o3, Place::Current));
        }
        self.owner = Ghost(moved(self.owner@, Place::Current, Place::Pending(j as nat)));
        proof                 {
                    let o = o3;
                    assert forall|q: int| 0 <= q < self.pending@.len() implies #[trigger] owned(
                        self.owner@,
                        Place::Pending(q as nat),
                    ) by {
                        assert(owned(o, Place::Pending(q as nat)));
                    }
                    assert forall|q: int| 0 <= q < self.results@.len() implies #[trigger] owned(
                        self.owner@,
                        Place::Done(q as nat),
                    ) by {
                        assert(owned(o, Place::Done(q as nat)));
                    }
                    
                }
        self.attempts = Ghost(self.attempts@ + 1);
        self.merges = Ghost(self.merges@ + 1);
    }

    /// The item being placed could not be merged into pending item `next`.
    pub fn not_merged(&mut self)
        requires
            old(self).wf(),
            old(self).trying(),
        ensures
            final(self).wf(),
            final(self).input() == old(self).input(),
            final(self).attempts() == old(self).attempts() + 1,
            final(self).merges() == old(self).merges(),
            final(self).pending_spec() == old(self).pending_spec(),
            final(self).current_spec() == old(self).current_spec(),
            final(self).next_spec() == old(self).next_spec() + 1,
    {
        if self.next < self.pending.len() {
            self.next = self.next + 1;
        }
        self.attempts = Ghost(self.attempts@ + 1);
    }

    /// The index of the pending item to try next, when trying.
    pub fn next_index(&self) -> (r: usize)
        requires
            self.trying(),
        ensures
            r < self.pending_len(),
    {
        self.next
    }

    /// The final items. Each input has been absorbed into one of them, and
    /// each of them absorbed at least one input; when no merge succeeded
    /// they are the inputs, last first.
    pub fn finish(self) -> (r: Vec<T>)
        requires
            self.wf(),
            self.done(),
        ensures
            forall|i: int|
                0 <= i < self.input().len() ==> #[trigger] self.owner()[i] is Done
                    && self.owner()[i]->Done_0 < r@.len(),
            forall|j: int| 0 <= j < r@.len() ==> #[trigger] self.owns(Place::Done(j as nat)),
            self.merges() == 0 ==> r@.len() == self.input().len() && forall|j: int|
                0 <= j < r@.len() ==> #[trigger] r@[j] == self.input()[self.input().len() - 1 - j],
    {
        self.results
    }
}

/// The number of merges tried never exceeds `n * (n - 1) / 2`, so it stays
/// quadratic in the number of inputs.
pub proof fn lemma_attempts_quadratic<T>(m: &Merger<T>)
    requires
        m.wf(),
    ensures
        m.attempts() <= tri(m.input().len()),
        m.attempts() <= m.input().len() * m.input().len(),
{
    lemma_tri_quadratic(m.input().len());
}

} // verus!
