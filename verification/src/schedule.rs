//! What holds of a watermark over any schedule of writers.
//!
//! A schedule is a sequence of the things that can happen to a [`VisibleSeqno`], in any order and
//! over any numbers. The laws below hold after every step of it, because every beginning of a
//! schedule is a schedule.
//!
//! [`VisibleSeqno`]: crate::visible_seqno::VisibleSeqno
use crate::value::SeqNo;
use crate::visible_seqno;
use crate::visible_seqno::Gate;
use vstd::multiset::Multiset;
use vstd::prelude::*;

verus! {

/// One thing that can happen to a watermark.
pub enum Step {
    Begin(SeqNo),
    Finish(SeqNo),
    Restore(SeqNo),
}

impl Gate {
    /// The watermark after one step.
    pub open spec fn step(self, step: Step) -> Gate {
        match step {
            Step::Begin(n) => self.begin(n),
            Step::Finish(n) => self.finish(n),
            Step::Restore(n) => self.restore(n),
        }
    }

    /// The watermark after a whole schedule of steps.
    pub open spec fn run(self, schedule: Seq<Step>) -> Gate
        decreases schedule.len(),
    {
        if schedule.len() == 0 {
            self
        } else {
            self.run(schedule.drop_last()).step(schedule.last())
        }
    }

    /// A step that can be taken here: a number is given back only where it is in flight.
    pub open spec fn admits(self, step: Step) -> bool {
        match step {
            Step::Finish(n) => self.taken.contains(n),
            _ => true,
        }
    }

    /// Every step of the schedule can be taken where it is taken.
    pub open spec fn admits_all(self, schedule: Seq<Step>) -> bool
        decreases schedule.len(),
    {
        schedule.len() == 0 || {
            &&& self.admits_all(schedule.drop_last())
            &&& self.run(schedule.drop_last()).admits(schedule.last())
        }
    }

    /// A step that the rules of use allow here: a number is taken before a reader can have been
    /// promised it and given back where it is in flight, and recovery happens with nothing in
    /// flight.
    pub open spec fn allows(self, step: Step) -> bool {
        match step {
            Step::Begin(n) => self.visible <= n,
            Step::Finish(n) => self.taken.contains(n),
            Step::Restore(_) => self.taken.is_empty(),
        }
    }

    /// Every step of the schedule is allowed where it is taken.
    pub open spec fn allows_all(self, schedule: Seq<Step>) -> bool
        decreases schedule.len(),
    {
        schedule.len() == 0 || {
            &&& self.allows_all(schedule.drop_last())
            &&& self.run(schedule.drop_last()).allows(schedule.last())
        }
    }
}

/// How often a schedule takes `n`.
pub open spec fn times_begun(schedule: Seq<Step>, n: SeqNo) -> int
    decreases schedule.len(),
{
    if schedule.len() == 0 {
        0
    } else {
        times_begun(schedule.drop_last(), n) + if schedule.last() == Step::Begin(n) {
            1int
        } else {
            0
        }
    }
}

/// How often a schedule gives `n` back.
pub open spec fn times_finished(schedule: Seq<Step>, n: SeqNo) -> int
    decreases schedule.len(),
{
    if schedule.len() == 0 {
        0
    } else {
        times_finished(schedule.drop_last(), n) + if schedule.last() == Step::Finish(n) {
            1int
        } else {
            0
        }
    }
}

/// The highest of `start` and what the recoveries of a schedule raise the watermark to.
pub open spec fn highest_restored(start: int, schedule: Seq<Step>) -> int
    decreases schedule.len(),
{
    if schedule.len() == 0 {
        start
    } else {
        let before = highest_restored(start, schedule.drop_last());
        match schedule.last() {
            Step::Restore(n) => visible_seqno::larger(before, n as int),
            _ => before,
        }
    }
}

/// Just past the highest number that a schedule takes, or 0 if it takes none.
pub open spec fn past_begun(schedule: Seq<Step>) -> int
    decreases schedule.len(),
{
    if schedule.len() == 0 {
        0
    } else {
        let before = past_begun(schedule.drop_last());
        match schedule.last() {
            Step::Begin(n) => visible_seqno::larger(before, n + 1),
            _ => before,
        }
    }
}

/// What is in flight after a number is taken or given back.
proof fn lemma_members(taken: Multiset<SeqNo>, n: SeqNo)
    ensures
        forall|m: SeqNo| #[trigger]
            taken.insert(n).contains(m) <==> taken.contains(m) || m == n,
        forall|m: SeqNo| #[trigger] taken.remove(n).contains(m) ==> taken.contains(m),
        forall|m: SeqNo| m != n && #[trigger] taken.contains(m) ==> taken.remove(n).contains(m),
        taken.is_empty() ==> forall|m: SeqNo| !#[trigger] taken.contains(m),
{
    assert(taken.is_empty() ==> taken =~= Multiset::empty());
}

/// One step never moves the watermark backwards, and a step that the rules of use allow opens no
/// hole.
pub proof fn step_keeps_promises(gate: Gate, step: Step)
    ensures
        gate.step(step).visible >= gate.visible,
        gate.has_no_hole() && gate.allows(step) ==> gate.step(step).has_no_hole(),
{
    let after = gate.step(step);
    match step {
        Step::Begin(n) | Step::Restore(n) => {
            lemma_members(gate.taken, n);
        },
        Step::Finish(n) => {
            lemma_members(gate.taken, n);
            if !after.taken.is_empty() {
                visible_seqno::lemma_has_lowest(after.taken, after.taken.choose());
            }
        },
    }
}

/// The watermark only ever moves forward, whatever the schedule.
pub proof fn watermark_never_retreats(gate: Gate, schedule: Seq<Step>)
    ensures
        gate.run(schedule).visible >= gate.visible,
    decreases schedule.len(),
{
    if schedule.len() > 0 {
        watermark_never_retreats(gate, schedule.drop_last());
        step_keeps_promises(gate.run(schedule.drop_last()), schedule.last());
    }
}

/// No schedule of writers exposes a write that has not landed: a watermark without a hole has none
/// after any schedule that keeps to the rules of use.
pub proof fn no_schedule_opens_a_hole(gate: Gate, schedule: Seq<Step>)
    requires
        gate.has_no_hole(),
        gate.allows_all(schedule),
    ensures
        gate.run(schedule).has_no_hole(),
    decreases schedule.len(),
{
    if schedule.len() > 0 {
        no_schedule_opens_a_hole(gate, schedule.drop_last());
        step_keeps_promises(gate.run(schedule.drop_last()), schedule.last());
    }
}

/// A number is in flight as often as it was taken and not given back, if nothing was given back
/// that was not in flight. In any case it is in flight at least that often.
pub proof fn in_flight_is_begun_less_finished(gate: Gate, schedule: Seq<Step>, n: SeqNo)
    ensures
        gate.run(schedule).taken.count(n) >= gate.taken.count(n) + times_begun(schedule, n)
            - times_finished(schedule, n),
        gate.admits_all(schedule) ==> gate.run(schedule).taken.count(n) == gate.taken.count(n)
            + times_begun(schedule, n) - times_finished(schedule, n),
    decreases schedule.len(),
{
    if schedule.len() > 0 {
        in_flight_is_begun_less_finished(gate, schedule.drop_last(), n);
    }
}

/// A number that was taken more often than it was given back is still in flight.
pub proof fn unfinished_is_in_flight(gate: Gate, schedule: Seq<Step>, n: SeqNo)
    requires
        gate.taken.count(n) + times_begun(schedule, n) > times_finished(schedule, n),
    ensures
        gate.run(schedule).taken.contains(n),
{
    in_flight_is_begun_less_finished(gate, schedule, n);
}

/// The watermark cannot pass a number until every write that took it is finished.
pub proof fn unfinished_holds_the_watermark(gate: Gate, schedule: Seq<Step>, n: SeqNo)
    requires
        gate.has_no_hole(),
        gate.allows_all(schedule),
        gate.taken.count(n) + times_begun(schedule, n) > times_finished(schedule, n),
    ensures
        gate.run(schedule).visible <= n,
{
    no_schedule_opens_a_hole(gate, schedule);
    unfinished_is_in_flight(gate, schedule, n);
}

/// Every number that was finished counts as done.
pub proof fn finished_is_done(gate: Gate, schedule: Seq<Step>, at: int, n: SeqNo)
    requires
        0 <= at < schedule.len(),
        schedule[at] == Step::Finish(n),
    ensures
        gate.run(schedule).done >= n,
    decreases schedule.len(),
{
    if at < schedule.len() - 1 {
        finished_is_done(gate, schedule.drop_last(), at, n);
    }
}

/// Once nothing is in flight, every write that was finished is visible, in whatever order the
/// writes finished.
pub proof fn everything_finished_becomes_visible(gate: Gate, schedule: Seq<Step>, at: int, n: SeqNo)
    requires
        0 <= at < schedule.len(),
        schedule[at] == Step::Finish(n),
        gate.run(schedule).taken.is_empty(),
    ensures
        n < gate.run(schedule).visible,
    decreases schedule.len(),
{
    let before = gate.run(schedule.drop_last());
    match schedule.last() {
        Step::Begin(m) => {
            assert(before.begin(m).taken.contains(m));
        },
        Step::Finish(_) => {
            finished_is_done(gate, schedule, at, n);
        },
        Step::Restore(_) => {
            everything_finished_becomes_visible(gate, schedule.drop_last(), at, n);
        },
    }
}

/// How the parts of a watermark that was recovered at `prev` hang together after `schedule`.
spec fn is_accounted_for(prev: SeqNo, schedule: Seq<Step>) -> bool {
    let gate = Gate::recovered(prev).run(schedule);
    let past = past_begun(schedule);
    &&& gate.visible >= highest_restored(prev as int, schedule)
    &&& gate.visible <= visible_seqno::larger(highest_restored(prev as int, schedule), past)
    &&& forall|n: SeqNo| #[trigger] gate.taken.contains(n) ==> n < past
    &&& gate.done == 0 || gate.done < past
    &&& past == 0 || past == gate.done + 1 || (0 < past <= SeqNo::MAX + 1 && gate.taken.contains(
        (past - 1) as SeqNo,
    ))
    &&& gate.taken.is_empty() && past > 0 ==> gate.visible > gate.done
}

proof fn lemma_accounted_for(prev: SeqNo, schedule: Seq<Step>)
    requires
        Gate::recovered(prev).admits_all(schedule),
    ensures
        is_accounted_for(prev, schedule),
    decreases schedule.len(),
{
    if schedule.len() > 0 {
        let before = Gate::recovered(prev).run(schedule.drop_last());
        let after = Gate::recovered(prev).run(schedule);
        lemma_accounted_for(prev, schedule.drop_last());
        match schedule.last() {
            Step::Begin(n) => {
                lemma_members(before.taken, n);
                assert(after.taken.contains(n));
            },
            Step::Finish(n) => {
                lemma_members(before.taken, n);
                assert(before.taken.contains(n));
                if !after.taken.is_empty() {
                    visible_seqno::lemma_has_lowest(after.taken, after.taken.choose());
                    assert(before.taken.contains(visible_seqno::lowest(after.taken)));
                }
            },
            Step::Restore(_) => {},
        }
    }
}

/// The watermark is never above what it was recovered to and just past the highest number taken.
pub proof fn watermark_is_never_ahead(prev: SeqNo, schedule: Seq<Step>)
    requires
        Gate::recovered(prev).admits_all(schedule),
    ensures
        Gate::recovered(prev).run(schedule).visible <= visible_seqno::larger(
            highest_restored(prev as int, schedule),
            past_begun(schedule),
        ),
{
    lemma_accounted_for(prev, schedule);
}

/// The whole run becomes visible at once, and no more than that: when no writer is left, the
/// watermark stands just past the highest number taken, unless it was recovered to a higher one.
pub proof fn quiet_watermark_is_exact(prev: SeqNo, schedule: Seq<Step>)
    requires
        Gate::recovered(prev).admits_all(schedule),
        Gate::recovered(prev).run(schedule).taken.is_empty(),
    ensures
        Gate::recovered(prev).run(schedule).visible == visible_seqno::larger(
            highest_restored(prev as int, schedule),
            past_begun(schedule),
        ),
{
    lemma_accounted_for(prev, schedule);
}

/// A watermark that was recovered stands where it was recovered to, with nothing in flight and
/// nothing finished.
pub proof fn recovery_starts_afresh(prev: SeqNo, m: SeqNo)
    ensures
        Gate::recovered(prev).visible == prev,
        Gate::recovered(prev).taken.count(m) == 0,
        Gate::recovered(prev).taken.len() == 0,
        Gate::recovered(prev).done == 0,
{
}

/// Beginning a write makes nothing visible. All it does is to take one more of its number.
pub proof fn beginning_makes_nothing_visible(gate: Gate, n: SeqNo, m: SeqNo)
    ensures
        gate.begin(n).visible == gate.visible,
        gate.begin(n).done == gate.done,
        m == n ==> gate.begin(n).taken.count(m) == gate.taken.count(m) + 1,
        m != n ==> gate.begin(n).taken.count(m) == gate.taken.count(m),
        gate.step(Step::Begin(n)) == gate.begin(n),
{
}

/// Writers that only begin leave the watermark where it is, however many they are.
pub proof fn beginners_leave_the_watermark_alone(gate: Gate, schedule: Seq<Step>)
    requires
        forall|i: int| 0 <= i < schedule.len() ==> #[trigger] schedule[i] is Begin,
    ensures
        gate.run(schedule).visible == gate.visible,
    decreases schedule.len(),
{
    if schedule.len() > 0 {
        let shorter = schedule.drop_last();
        assert forall|i: int| 0 <= i < shorter.len() implies #[trigger] shorter[i] is Begin by {
            assert(shorter[i] == schedule[i]);
        }
        beginners_leave_the_watermark_alone(gate, shorter);
        assert(schedule[schedule.len() - 1] is Begin);
    }
}

/// Recovery raises the watermark to a number or leaves it, and touches no write.
pub proof fn restoring_raises_the_watermark_alone(gate: Gate, n: SeqNo)
    ensures
        gate.restore(n).visible >= n,
        gate.restore(n).visible >= gate.visible,
        gate.restore(n).visible == n || gate.restore(n).visible == gate.visible,
        gate.restore(n).taken == gate.taken,
        gate.restore(n).done == gate.done,
        gate.step(Step::Restore(n)) == gate.restore(n),
{
}

/// Finishing a write gives its number back once, and no other; the highest number finished is
/// the higher of the one before and this one.
pub proof fn finishing_gives_back_one_number(gate: Gate, n: SeqNo, m: SeqNo)
    ensures
        m == n && gate.taken.count(m) > 0 ==> gate.finish(n).taken.count(m) + 1
            == gate.taken.count(m),
        m == n && gate.taken.count(m) == 0 ==> gate.finish(n).taken.count(m) == 0,
        m != n ==> gate.finish(n).taken.count(m) == gate.taken.count(m),
        gate.finish(n).done >= n,
        gate.finish(n).done >= gate.done,
        gate.finish(n).done == n || gate.finish(n).done == gate.done,
        gate.step(Step::Finish(n)) == gate.finish(n),
{
}

/// Finishing a write never moves the watermark backwards.
pub proof fn finishing_never_retreats(gate: Gate, n: SeqNo)
    ensures
        gate.finish(n).visible >= gate.visible,
{
}

/// Finishing a write moves the watermark as far as the writes still in flight allow: whatever lies
/// at or below all of them, the watermark reaches.
pub proof fn finishing_makes_progress(gate: Gate, n: SeqNo, left: SeqNo, m: int)
    requires
        gate.finish(n).taken.count(left) > 0,
        forall|k: SeqNo| #[trigger] gate.finish(n).taken.count(k) > 0 ==> m <= k,
    ensures
        gate.finish(n).visible >= m,
{
    let rest = gate.taken.remove(n);
    assert(rest.contains(left));
    visible_seqno::lemma_has_lowest(rest, left);
    assert(gate.finish(n).taken.count(visible_seqno::lowest(rest)) > 0);
    assert(!rest.is_empty());
}

/// Finishing a write exposes none that is still being applied: where the watermark moves, it stays
/// at or below every number in flight. This holds of every watermark, also of one that a straggler
/// began beneath.
pub proof fn finishing_exposes_no_write_in_flight(gate: Gate, n: SeqNo, m: SeqNo)
    requires
        gate.finish(n).visible > gate.visible,
        gate.finish(n).taken.count(m) > 0,
    ensures
        gate.finish(n).visible <= m,
{
    let rest = gate.taken.remove(n);
    assert(rest.contains(m));
    visible_seqno::lemma_has_lowest(rest, m);
    assert(!rest.is_empty());
}

/// The last write to finish makes everything that has finished visible, and no more than that.
pub proof fn last_finish_shows_all_that_finished(gate: Gate, n: SeqNo)
    requires
        forall|k: SeqNo| #[trigger] gate.finish(n).taken.count(k) == 0,
    ensures
        gate.finish(n).visible > n,
        gate.finish(n).visible > gate.done,
        gate.finish(n).visible == gate.visible || gate.finish(n).visible == n + 1
            || gate.finish(n).visible == gate.done + 1,
{
    let rest = gate.taken.remove(n);
    if !rest.is_empty() {
        assert(gate.finish(n).taken.count(rest.choose()) == 0);
    }
}

/// A write can be finished wherever the watermark that comes of it is a sequence number: always,
/// while another write is in flight, and otherwise unless the highest number there is has finished.
pub proof fn only_the_highest_number_is_stuck(gate: Gate, n: SeqNo)
    requires
        gate.taken.count(n) > 0,
    ensures
        gate.taken.len() > 1 ==> gate.bound_after(n) <= SeqNo::MAX,
        n < SeqNo::MAX && gate.done < SeqNo::MAX ==> gate.bound_after(n) <= SeqNo::MAX,
        gate.taken.len() == 1 && (n == SeqNo::MAX || gate.done >= SeqNo::MAX)
            ==> gate.bound_after(n) > SeqNo::MAX,
{
    assert(Multiset::singleton(n).subset_of(gate.taken));
    assert(gate.taken.remove(n).len() == gate.taken.len() - 1);
}

/// Right after a write finishes, every number below all of those in flight is visible.
pub proof fn all_below_the_queue_is_visible(
    gate: Gate,
    schedule: Seq<Step>,
    n: SeqNo,
    left: SeqNo,
    landed: int,
)
    requires
        gate.run(schedule.push(Step::Finish(n))).taken.count(left) > 0,
        forall|k: SeqNo| #[trigger]
            gate.run(schedule.push(Step::Finish(n))).taken.count(k) > 0 ==> landed < k,
    ensures
        landed < gate.run(schedule.push(Step::Finish(n))).visible,
{
    assert(schedule.push(Step::Finish(n)).drop_last() =~= schedule);
    finishing_makes_progress(gate.run(schedule), n, left, landed + 1);
}

/// No step but a recovery ever moves the watermark past a write in flight, whatever happened
/// before it.
pub proof fn no_step_exposes_a_write_in_flight(gate: Gate, schedule: Seq<Step>, step: Step, m: SeqNo)
    requires
        !(step is Restore),
        gate.run(schedule.push(step)).visible > gate.run(schedule).visible,
        gate.run(schedule.push(step)).taken.count(m) > 0,
    ensures
        gate.run(schedule.push(step)).visible <= m,
        step is Finish,
{
    assert(schedule.push(step).drop_last() =~= schedule);
    match step {
        Step::Finish(n) => {
            finishing_exposes_no_write_in_flight(gate.run(schedule), n, m);
        },
        _ => {},
    }
}

} // verus!
