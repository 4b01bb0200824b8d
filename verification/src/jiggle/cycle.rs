//! The decisions of the jiggle loop: whether to jiggle or to wait, what to
//! send, and how long to rest.

use vstd::prelude::*;

use crate::buffer::{as_slice, empty, held, room_after, StepBuffer, CAPACITY};
use crate::jiggle::movement::{
    lemma_forward_len, lemma_magnitude_within_limits, lemma_round_trip, lemma_total_concat,
    strides_for, total, Movement,
};

verus! {

/// How many runs make up the motion of one cycle.
pub const REVERBERATIONS: usize = 2;

/// How long the loop waits before it looks at the flag again while jiggling
/// is off, in milliseconds.
pub const IDLE_POLL_MILLIS: u64 = 1_000;

/// How long the loop rests after a cycle, in milliseconds: a second short of
/// five minutes, the usual idle time after which a host goes to sleep.
pub const REST_MILLIS: u64 = 299_000;

/// How long the loop rests after a cycle on a diagnostic build, in
/// milliseconds.
pub const DIAGNOSTIC_REST_MILLIS: u64 = 2_000;

/// What the loop does in one iteration.
#[derive(Clone, Copy, Debug, PartialEq, Eq, Structural)]
pub enum Phase {
    /// Jiggling is off: wait a moment and look again.
    IdlePoll,
    /// Jiggling is on: send one cycle's motion, then rest.
    ActiveCycle,
}

impl Phase {
    /// The phase for a value of the flag.
    pub open spec fn given(enabled: bool) -> Phase {
        if enabled {
            Phase::ActiveCycle
        } else {
            Phase::IdlePoll
        }
    }

    /// How long the phase ends with a pause, in milliseconds.
    pub open spec fn pause(self, diagnostic: bool) -> u64 {
        match self {
            Phase::IdlePoll => IDLE_POLL_MILLIS,
            Phase::ActiveCycle => if diagnostic {
                DIAGNOSTIC_REST_MILLIS
            } else {
                REST_MILLIS
            },
        }
    }

    /// The phase that the loop enters when it has read `enabled` from the
    /// flag.
    pub fn of(enabled: bool) -> (phase: Phase)
        ensures
            phase == Phase::given(enabled),
    {
        if enabled {
            Phase::ActiveCycle
        } else {
            Phase::IdlePoll
        }
    }

    /// The pause that ends the phase, in milliseconds: the poll interval
    /// while jiggling is off, the rest after a cycle while it is on.
    pub fn pause_millis(self, diagnostic: bool) -> (millis: u64)
        ensures
            millis == self.pause(diagnostic),
    {
        match self {
            Phase::IdlePoll => IDLE_POLL_MILLIS,
            Phase::ActiveCycle => if diagnostic {
                DIAGNOSTIC_REST_MILLIS
            } else {
                REST_MILLIS
            },
        }
    }
}

/// A mouse input report: a button mask, the relative displacement on both
/// axes, and the two scroll axes.
#[derive(Clone, Copy, Debug, PartialEq, Eq, Structural)]
pub struct Report {
    pub buttons: u8,
    pub x: i8,
    pub y: i8,
    pub wheel: i8,
    pub pan: i8,
}

impl Report {
    /// The report that moves the cursor by `step` to the side and does
    /// nothing else.
    pub open spec fn sideways(step: i8) -> Report {
        Report { buttons: 0, x: step, y: 0, wheel: 0, pan: 0 }
    }

    /// The report for one displacement step.
    pub fn horizontal(step: i8) -> (report: Report)
        ensures
            report == Report::sideways(step),
    {
        Report { buttons: 0, x: step, y: 0, wheel: 0, pan: 0 }
    }
}

/// What an empty buffer holds after one run for each seed, in turn.
pub open spec fn composite(movement: Movement, seeds: Seq<u32>) -> Seq<i8>
    decreases seeds.len(),
{
    if seeds.len() == 0 {
        Seq::empty()
    } else {
        let earlier = composite(movement, seeds.drop_last());
        earlier + movement.steps(seeds.last(), room_after(earlier.len()))
    }
}

/// The room that the longest run of a movement takes: the strides that
/// cover its upper limit, and their mirror.
pub open spec fn longest_run(movement: Movement) -> int {
    2 * strides_for(movement.upper(), movement.stride())
}

/// The motion of one cycle: a fresh buffer with one run appended for each
/// seed, in the order of the seeds.
pub fn compose(movement: &Movement, seeds: &[u32]) -> (buf: StepBuffer)
    requires
        movement.wf(),
    ensures
        held(buf) == composite(*movement, seeds@),
{
    let mut buf: StepBuffer = empty();
    let mut done: usize = 0;
    while done < seeds.len()
        invariant
            movement.wf(),
            done <= seeds.len(),
            held(buf) == composite(*movement, seeds@.take(done as int)),
        decreases seeds.len() - done,
    {
        proof {
            assert(seeds@.take(done + 1).drop_last() =~= seeds@.take(done as int));
        }
        movement.generate_vector(seeds[done], &mut buf);
        done += 1;
    }
    proof {
        assert(seeds@.take(done as int) =~= seeds@);
    }
    buf
}

/// One report for each step that the buffer holds, in the same order.
pub fn reports(buf: &StepBuffer) -> (out: Vec<Report>)
    ensures
        out@ == held(*buf).map_values(|step: i8| Report::sideways(step)),
{
    let steps: &[i8] = as_slice(buf);
    let mut out: Vec<Report> = Vec::new();
    let mut next: usize = 0;
    while next < steps.len()
        invariant
            next <= steps.len(),
            out@ == steps@.take(next as int).map_values(|step: i8| Report::sideways(step)),
        decreases steps.len() - next,
    {
        out.push(Report::horizontal(steps[next]));
        next += 1;
        proof {
            assert(out@ =~= steps@.take(next as int).map_values(
                |step: i8| Report::sideways(step),
            ));
        }
    }
    proof {
        assert(steps@.take(next as int) =~= steps@);
    }
    out
}

/// While the buffer has room for the longest run of every seed, the motion
/// of a cycle leads back to where it began, whatever the seeds.
pub proof fn lemma_cycle_round_trip(movement: Movement, seeds: Seq<u32>)
    requires
        movement.wf(),
        seeds.len() * longest_run(movement) <= CAPACITY,
    ensures
        composite(movement, seeds).len() <= seeds.len() * longest_run(movement),
        total(composite(movement, seeds)) == 0,
    decreases seeds.len(),
{
    if seeds.len() > 0 {
        let run: int = longest_run(movement);
        let earlier: Seq<u32> = seeds.drop_last();
        let seed: u32 = seeds.last();
        assert(run >= 0) by (nonlinear_arith)
            requires
                run == 2 * ((movement.upper() + movement.stride() - 1) / movement.stride()),
                movement.upper() > 0,
                movement.stride() > 0,
        ;
        assert(earlier.len() * run + run == seeds.len() * run) by (nonlinear_arith)
            requires
                earlier.len() + 1 == seeds.len(),
        ;
        lemma_cycle_round_trip(movement, earlier);
        lemma_magnitude_within_limits(movement, seed);
        lemma_forward_len(movement.magnitude(seed), movement.stride());
        assert(strides_for(movement.magnitude(seed), movement.stride()) <= strides_for(
            movement.upper(),
            movement.stride(),
        )) by (nonlinear_arith)
            requires
                0 < movement.stride(),
                movement.magnitude(seed) <= movement.upper(),
        ;
        let room: nat = room_after(composite(movement, earlier).len());
        lemma_round_trip(movement, seed, room);
        lemma_total_concat(composite(movement, earlier), movement.steps(seed, room));
    }
}

/// With the limits the device ships with, the motion of a cycle of two runs
/// fits the buffer and leads back to where it began, whatever the seeds.
pub proof fn lemma_shipped_cycle_round_trip(movement: Movement, first: u32, second: u32)
    requires
        movement.wf(),
        movement.upper() == 32,
        movement.stride() == 6,
    ensures
        composite(movement, seq![first, second]).len() <= 24,
        total(composite(movement, seq![first, second])) == 0,
{
    let seeds: Seq<u32> = seq![first, second];
    assert(longest_run(movement) == 12);
    assert(seeds.len() * longest_run(movement) == 24);
    lemma_cycle_round_trip(movement, seeds);
}

} // verus!
