//! How far a reader may see, and the rule that keeps it honest.
//!
//! A reader snapshots by taking the watermark and is then promised every write below it. The
//! promise only holds if a write moves the watermark after its rows are readable, and only once
//! every lower-numbered write has landed too; otherwise a snapshot has a hole in it.
//!
//! [`VisibleSeqno`] is the state behind that rule: the watermark and the sequence numbers that
//! are taken and not yet finished. Its operations take `&mut self`: whoever shares a watermark
//! between threads holds one lock around it, so that two writers finishing at once cannot
//! interleave into a watermark that neither of them computed.
use crate::value::SeqNo;
use vstd::multiset::Multiset;
use vstd::prelude::*;

verus! {

broadcast use vstd::multiset::group_multiset_axioms, vstd::seq_lib::group_to_multiset_ensures;

/// `n` is the lowest of the numbers in `taken`.
pub open spec fn is_lowest(taken: Multiset<SeqNo>, n: SeqNo) -> bool {
    &&& taken.contains(n)
    &&& forall|m: SeqNo| #[trigger] taken.contains(m) ==> n <= m
}

/// The lowest of the numbers in `taken`, which is not empty.
pub open spec fn lowest(taken: Multiset<SeqNo>) -> SeqNo
    recommends
        !taken.is_empty(),
{
    choose|n: SeqNo| is_lowest(taken, n)
}

/// The larger of two integers.
pub open spec fn larger(a: int, b: int) -> int {
    if a < b {
        b
    } else {
        a
    }
}

/// What a watermark is, mathematically.
#[verifier::ext_equal]
pub struct Gate {
    /// How far a reader may see: strictly below this.
    pub visible: int,
    /// The sequence numbers taken and not yet finished, each as often as it was taken.
    pub taken: Multiset<SeqNo>,
    /// The highest number that has finished, 0 if none has.
    pub done: int,
}

impl Gate {
    /// A watermark recovered at `prev`, with nothing in flight.
    pub open spec fn recovered(prev: SeqNo) -> Gate {
        Gate { visible: prev as int, taken: Multiset::empty(), done: 0 }
    }

    /// `n` is taken out of circulation.
    pub open spec fn begin(self, n: SeqNo) -> Gate {
        Gate { taken: self.taken.insert(n), ..self }
    }

    /// How far a reader may see once `n` has finished: up to the lowest number still being
    /// applied or, with nothing in flight, past everything that has finished.
    pub open spec fn bound_after(self, n: SeqNo) -> int {
        let rest = self.taken.remove(n);
        if rest.is_empty() {
            larger(self.done, n as int) + 1
        } else {
            lowest(rest) as int
        }
    }

    /// `n` is given back once, and the watermark moves as far as the queue allows, never backwards.
    pub open spec fn finish(self, n: SeqNo) -> Gate {
        Gate {
            visible: larger(self.visible, self.bound_after(n)),
            taken: self.taken.remove(n),
            done: larger(self.done, n as int),
        }
    }

    /// Recovery raises the watermark to `n`.
    pub open spec fn restore(self, n: SeqNo) -> Gate {
        Gate { visible: larger(self.visible, n as int), ..self }
    }

    /// Whatever is in flight has a lowest number, and [`lowest`] is it.
    ///
    /// This is so of every gate ([`lemma_has_lowest`]). Where a contract repeats it, it spares
    /// callers that lemma.
    pub open spec fn is_queued(self) -> bool {
        self.taken.is_empty() || is_lowest(self.taken, lowest(self.taken))
    }

    /// Every number still being applied is at or above the watermark: a reader, who sees
    /// strictly below it, is promised nothing that has not landed.
    pub open spec fn has_no_hole(self) -> bool {
        forall|n: SeqNo| #[trigger] self.taken.contains(n) ==> self.visible <= n
    }
}

/// The writes that are under way.
#[derive(Debug)]
struct InFlight {
    /// Sequence numbers taken and not yet finished, in no order: one for each write that is under
    /// way, so there are only as many as there are writers.
    taken: Vec<SeqNo>,
    /// The highest that has finished, publishable or not.
    done: SeqNo,
}

/// The visible sequence number: one watermark, and who is allowed to move it.
///
/// A writer [`begin`](VisibleSeqno::begin)s, which hands back a [`Pending`] carrying its sequence
/// number, and the watermark cannot reach that number until the `Pending` is finished. Nothing
/// moves the watermark past the queue.
#[derive(Debug)]
pub struct VisibleSeqno {
    visible: SeqNo,
    in_flight: InFlight,
}

/// A sequence number taken and not yet finished: see [`VisibleSeqno`].
///
/// A write that fails has to give its number back like any other: one taken and never returned
/// holds the watermark where it is for good. Publishing a number that nothing was written at is
/// harmless by comparison, so [`publish`](Pending::publish) and [`drop`](Pending::drop) do the
/// same thing.
#[derive(Debug)]
pub struct Pending {
    seqno: SeqNo,
}

impl View for VisibleSeqno {
    type V = Gate;

    closed spec fn view(&self) -> Gate {
        Gate {
            visible: self.visible as int,
            taken: self.in_flight.taken@.to_multiset(),
            done: self.in_flight.done as int,
        }
    }
}

impl View for Pending {
    type V = SeqNo;

    closed spec fn view(&self) -> SeqNo {
        self.seqno
    }
}

/// Where `n` stands in `taken`, if it does.
fn position_of(taken: &Vec<SeqNo>, n: SeqNo) -> (found: Option<usize>)
    ensures
        match found {
            Some(at) => at < taken@.len() && taken@[at as int] == n,
            None => !taken@.contains(n),
        },
{
    let mut at: usize = 0;
    while at < taken.len()
        invariant
            at <= taken@.len(),
            forall|i: int| 0 <= i < at ==> taken@[i] != n,
        decreases taken@.len() - at,
    {
        if taken[at] == n {
            return Some(at);
        }
        at = at + 1;
    }
    None
}

/// The lowest number in `taken`, if there is one.
fn lowest_of(taken: &Vec<SeqNo>) -> (found: Option<SeqNo>)
    ensures
        match found {
            Some(n) => is_lowest(taken@.to_multiset(), n),
            None => taken@.len() == 0,
        },
{
    if taken.len() == 0 {
        return None;
    }
    let mut low: SeqNo = taken[0];
    let mut at: usize = 1;
    while at < taken.len()
        invariant
            1 <= at <= taken@.len(),
            taken@.contains(low),
            forall|i: int| 0 <= i < at ==> low <= taken@[i],
        decreases taken@.len() - at,
    {
        if taken[at] < low {
            low = taken[at];
        }
        at = at + 1;
    }
    Some(low)
}

impl Default for VisibleSeqno {
    /// A watermark at 0, with nothing in flight.
    fn default() -> (gate: VisibleSeqno)
        ensures
            gate@ == Gate::recovered(0),
            gate@.has_no_hole(),
    {
        VisibleSeqno { visible: 0, in_flight: InFlight { taken: Vec::new(), done: 0 } }
    }
}

impl VisibleSeqno {
    /// A watermark recovered at `prev`.
    #[must_use]
    pub fn new(prev: SeqNo) -> (gate: VisibleSeqno)
        ensures
            gate@ == Gate::recovered(prev),
            gate@.has_no_hole(),
    {
        let mut gate = VisibleSeqno::default();
        gate.visible = prev;
        gate
    }

    /// How far a reader may currently see.
    #[must_use]
    pub fn get(&self) -> (seqno: SeqNo)
        ensures
            seqno == self@.visible,
    {
        self.visible
    }

    /// Takes `seqno` out of circulation until the returned [`Pending`] is finished.
    ///
    /// Call this before anything can observe the write missing, before the rows go anywhere, or
    /// there is a window in which a later writer can publish past it.
    #[must_use]
    pub fn begin(&mut self, seqno: SeqNo) -> (pending: Pending)
        ensures
            final(self)@ == old(self)@.begin(seqno),
            pending@ == seqno,
    {
        self.in_flight.taken.push(seqno);
        Pending { seqno }
    }

    /// Recovery only. Raises the watermark with nothing in flight.
    pub fn restore(&mut self, seqno: SeqNo)
        ensures
            final(self)@ == old(self)@.restore(seqno),
    {
        if self.visible < seqno {
            self.visible = seqno;
        }
    }

    /// Gives `seqno` back once, and moves the watermark as far as the numbers still in flight
    /// allow.
    fn finish(&mut self, seqno: SeqNo)
        requires
            old(self)@.taken.contains(seqno),
            old(self)@.bound_after(seqno) <= SeqNo::MAX,
        ensures
            final(self)@ == old(self)@.finish(seqno),
            final(self)@.is_queued(),
    {
        let ghost before = self@;
        if let Some(at) = position_of(&self.in_flight.taken, seqno) {
            let ghost all = self.in_flight.taken@;
            self.in_flight.taken.swap_remove(at);
            proof {
                lemma_swap_remove(all, at as int);
            }
        }
        if self.in_flight.done < seqno {
            self.in_flight.done = seqno;
        }
        // Everything below the lowest number still being applied has landed, so that is how far
        // a reader may see. With nothing in flight, everything finished has.
        let visible: SeqNo = match lowest_of(&self.in_flight.taken) {
            Some(lowest_taken) => {
                proof {
                    lemma_lowest(before.taken.remove(seqno), lowest_taken);
                }
                lowest_taken
            },
            None => self.in_flight.done + 1,
        };
        if self.visible < visible {
            self.visible = visible;
        }
    }
}

impl Pending {
    /// The sequence number this write is carrying.
    #[must_use]
    pub fn seqno(&self) -> (seqno: SeqNo)
        ensures
            seqno == self@,
    {
        self.seqno
    }

    /// Whether `gate` can finish this write: its number is in flight there, and the watermark that
    /// comes of it is a sequence number. It is not only when nothing else is in flight and the
    /// highest number there is has finished.
    #[must_use]
    pub fn can_publish(&self, gate: &VisibleSeqno) -> (fits: bool)
        ensures
            fits <==> {
                &&& gate@.taken.contains(self@)
                &&& gate@.bound_after(self@) <= SeqNo::MAX
            },
            fits <==> {
                &&& gate@.taken.count(self@) > 0
                &&& gate@.taken.len() > 1 || (gate@.done < SeqNo::MAX && self@ < SeqNo::MAX)
            },
    {
        if position_of(&gate.in_flight.taken, self.seqno).is_none() {
            return false;
        }
        let ghost all = gate.in_flight.taken@.to_multiset();
        assert(Multiset::singleton(self.seqno).subset_of(all));
        assert(all.remove(self.seqno).len() == all.len() - 1);
        gate.in_flight.taken.len() > 1 || (gate.in_flight.done < SeqNo::MAX && self.seqno
            < SeqNo::MAX)
    }

    /// The rows are readable; lets the watermark of `gate`, where the write began, reach them
    /// when the queue allows.
    pub fn publish(self, gate: &mut VisibleSeqno)
        requires
            old(gate)@.taken.contains(self@),
            old(gate)@.bound_after(self@) <= SeqNo::MAX,
        ensures
            final(gate)@ == old(gate)@.finish(self@),
            final(gate)@.is_queued(),
    {
        self.drop(gate);
    }

    /// The write is over, whether its rows landed or not: gives its number back to `gate`, where
    /// it began.
    pub fn drop(self, gate: &mut VisibleSeqno)
        requires
            old(gate)@.taken.contains(self@),
            old(gate)@.bound_after(self@) <= SeqNo::MAX,
        ensures
            final(gate)@ == old(gate)@.finish(self@),
            final(gate)@.is_queued(),
    {
        gate.finish(self.seqno);
    }
}

/// Taking out one number and putting the last in its place gives back that number once.
proof fn lemma_swap_remove(all: Seq<SeqNo>, at: int)
    requires
        0 <= at < all.len(),
    ensures
        all.update(at, all.last()).drop_last().to_multiset() == all.to_multiset().remove(all[at]),
{
    let swapped = all.update(at, all.last());
    vstd::seq_lib::to_multiset_update(all, at, all.last());
    assert(swapped.drop_last() =~= swapped.remove(all.len() - 1));
    vstd::seq_lib::to_multiset_remove(swapped, all.len() - 1);
    assert(all.contains(all[at]) && all.contains(all.last()));
    assert(all.to_multiset().insert(all.last()).remove(all[at]).remove(all.last())
        =~= all.to_multiset().remove(all[at]));
}

/// A number that is the lowest in flight is what [`lowest`] gives.
pub proof fn lemma_lowest(taken: Multiset<SeqNo>, n: SeqNo)
    requires
        is_lowest(taken, n),
    ensures
        lowest(taken) == n,
        !taken.is_empty(),
{
    let m = lowest(taken);
    assert(is_lowest(taken, m));
    assert(taken.contains(m) && taken.contains(n));
}

/// Numbers in flight have a lowest one, and [`lowest`] gives it.
pub proof fn lemma_has_lowest(taken: Multiset<SeqNo>, n: SeqNo)
    requires
        taken.contains(n),
    ensures
        is_lowest(taken, lowest(taken)),
    decreases n,
{
    if exists|m: SeqNo| #[trigger] taken.contains(m) && m < n {
        let m = choose|m: SeqNo| #[trigger] taken.contains(m) && m < n;
        lemma_has_lowest(taken, m);
    } else {
        assert(is_lowest(taken, n));
        lemma_lowest(taken, n);
    }
}

} // verus!
