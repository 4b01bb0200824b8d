//! Turning a 32-bit seed into a bounded run of displacement steps that leads
//! the cursor out and back.

use vstd::prelude::*;

use crate::buffer::{as_slice, held, is_full, push, room_after, StepBuffer, CAPACITY};

verus! {

/// The limits of a movement: how far out a run may lead, how far at least,
/// and the largest single step.
pub struct Movement {
    upper_limit: u8,
    lower_limit: u8,
    step: i8,
}

/// The forward steps that cover `magnitude` in strides of `stride`: full
/// strides while they fit, then the remainder, if any.
pub open spec fn forward(magnitude: int, stride: int) -> Seq<i8>
    decreases magnitude,
{
    if magnitude <= 0 || stride <= 0 {
        Seq::empty()
    } else if magnitude <= stride {
        seq![magnitude as i8]
    } else {
        seq![stride as i8] + forward(magnitude - stride, stride)
    }
}

/// The way back: the same steps negated, last one first.
pub open spec fn mirror(steps: Seq<i8>) -> Seq<i8> {
    Seq::new(steps.len(), |i: int| (-steps[steps.len() - 1 - i]) as i8)
}

/// As much of `steps` as fits into `room` places.
pub open spec fn truncated(steps: Seq<i8>, room: nat) -> Seq<i8> {
    if room >= steps.len() {
        steps
    } else {
        steps.take(room as int)
    }
}

/// Where the cursor ends up after `steps`, relative to where it started.
pub open spec fn total(steps: Seq<i8>) -> int
    decreases steps.len(),
{
    if steps.len() == 0 {
        0
    } else {
        total(steps.drop_last()) + steps.last()
    }
}

impl Movement {
    /// The largest distance a run leads out.
    pub closed spec fn upper(&self) -> int {
        self.upper_limit as int
    }

    /// The smallest distance a run leads out.
    pub closed spec fn lower(&self) -> int {
        self.lower_limit as int
    }

    /// The largest single step.
    pub closed spec fn stride(&self) -> int {
        self.step as int
    }

    /// The limits make sense: a positive stride, and distances that are
    /// positive, ordered and small enough for a signed byte.
    pub open spec fn wf(&self) -> bool {
        &&& 0 < self.stride()
        &&& 0 < self.lower() <= self.upper() <= i8::MAX
    }

    /// The distance that `seed` stands for: the seeds from 0 to `u32::MAX`
    /// are spread evenly, rounding down, over the distances from `lower` to
    /// `upper`.
    pub open spec fn magnitude(&self, seed: u32) -> int {
        self.lower() + (seed as int * (self.upper() - self.lower())) / (u32::MAX as int)
    }

    /// What one call appends to a buffer with `room` free places: the
    /// forward steps for `seed` as far as they fit, then their mirror as far
    /// as that still fits.
    pub open spec fn steps(&self, seed: u32, room: nat) -> Seq<i8> {
        self.outward(seed, room) + self.homeward(seed, room)
    }

    /// The forward steps for `seed` that fit into `room` places.
    pub open spec fn outward(&self, seed: u32, room: nat) -> Seq<i8> {
        truncated(forward(self.magnitude(seed), self.stride()), room)
    }

    /// The mirror of the forward steps written, as far as it fits into the
    /// places that they left.
    pub open spec fn homeward(&self, seed: u32, room: nat) -> Seq<i8> {
        let out = self.outward(seed, room);
        truncated(mirror(out), (room - out.len()) as nat)
    }

    /// The number of forward steps that `seed` asks for.
    pub open spec fn strides(&self, seed: u32) -> nat {
        forward(self.magnitude(seed), self.stride()).len()
    }

    /// The limits the device ships with: out by 6 to 32, in strides of 6.
    pub fn new() -> (movement: Self)
        ensures
            movement.wf(),
            movement.upper() == 32,
            movement.lower() == 6,
            movement.stride() == 6,
    {
        Self { upper_limit: 32, lower_limit: 6, step: 6 }
    }

    /// Limits of one's own choosing, where they make sense: a positive
    /// stride, and distances that are positive, ordered and no larger than
    /// 127. Other limits give `None`.
    pub fn with_limits(lower: u8, upper: u8, step: i8) -> (movement: Option<Self>)
        ensures
            movement.is_some() <==> 0 < step && 0 < lower <= upper <= i8::MAX,
            movement matches Some(m) ==> m.wf() && m.lower() == lower && m.upper() == upper
                && m.stride() == step,
    {
        if step > 0 && lower > 0 && lower <= upper && upper <= 127 {
            Some(Self { upper_limit: upper, lower_limit: lower, step })
        } else {
            None
        }
    }

    /// The largest distance a run leads out.
    pub fn upper_limit(&self) -> (upper: u8)
        ensures
            upper == self.upper(),
    {
        self.upper_limit
    }

    /// The smallest distance a run leads out.
    pub fn lower_limit(&self) -> (lower: u8)
        ensures
            lower == self.lower(),
    {
        self.lower_limit
    }

    /// The largest single step.
    pub fn step(&self) -> (step: i8)
        ensures
            step == self.stride(),
    {
        self.step
    }

    /// The distance that `seed` stands for.
    pub fn magnitude_of(&self, seed: u32) -> (magnitude: i8)
        requires
            self.wf(),
        ensures
            magnitude == self.magnitude(seed),
            self.lower() <= magnitude <= self.upper(),
    {
        let range: u32 = (self.upper_limit - self.lower_limit) as u32;
        proof {
            lemma_scaled_in_range(seed, range as int);
            assert(seed as int * range as int <= u32::MAX as int * 127) by (nonlinear_arith)
                requires
                    0 <= seed as int <= u32::MAX as int,
                    0 <= range as int <= 127,
            ;
        }
        let scaled: u32 = if seed == u32::MAX {
            range
        } else {
            ((seed as u64 * range as u64) / (u32::MAX as u64)) as u32
        };
        let reached: u8 = (self.lower_limit as u32 + scaled) as u8;
        reached as i8
    }

    /// Appends to `vec` one run for `seed`: forward steps of one stride each,
    /// the last one shorter where the distance asks for it, and then the same
    /// steps negated in reverse order, so that the run ends where it began.
    /// Steps that do not fit are dropped: what `vec` held stays, and the run
    /// is cut where `vec` is full.
    pub fn generate_vector(&self, seed: u32, vec: &mut StepBuffer)
        requires
            self.wf(),
        ensures
            held(*final(vec)) == held(*old(vec)) + self.steps(
                seed,
                room_after(held(*old(vec)).len()),
            ),
    {
        let ghost before: Seq<i8> = held(*vec);
        let ghost room: nat = room_after(before.len());
        let ghost whole: Seq<i8> = forward(self.magnitude(seed), self.stride());
        let start: usize = as_slice(vec).len();
        let mut remaining: i8 = self.magnitude_of(seed);

        while remaining > 0 && !is_full(vec)
            invariant
                self.wf(),
                0 <= remaining <= i8::MAX,
                start == before.len(),
                start <= held(*vec).len() <= CAPACITY,
                held(*vec).take(start as int) == before,
                whole == held(*vec).skip(start as int) + forward(
                    remaining as int,
                    self.stride(),
                ),
            decreases remaining,
        {
            let to_push: i8 = if remaining >= self.step {
                self.step
            } else {
                remaining
            };
            let ghost prior: Seq<i8> = held(*vec);
            let _ = push(vec, to_push);
            remaining -= to_push;
            proof {
                assert(held(*vec).take(start as int) =~= prior.take(start as int));
                assert(held(*vec).skip(start as int) =~= prior.skip(start as int).push(to_push));
                assert(whole =~= held(*vec).skip(start as int) + forward(
                    remaining as int,
                    self.stride(),
                ));
            }
        }

        let end: usize = as_slice(vec).len();
        let ghost out: Seq<i8> = held(*vec).skip(start as int);
        proof {
            lemma_forward_steps(self.magnitude(seed), self.stride());
            assert(held(*vec) =~= before + out);
            if remaining == 0 {
                assert(whole =~= out);
            } else {
                assert(out =~= whole.take(room as int));
            }
            assert(out == truncated(whole, room));
        }
        let mut i: usize = end;

        while i > start && !is_full(vec)
            invariant
                start <= i <= end <= CAPACITY,
                start == before.len(),
                end == start + out.len(),
                end <= held(*vec).len() <= CAPACITY,
                held(*vec).len() == end + (end - i),
                held(*vec).take(end as int) == before + out,
                held(*vec).skip(end as int) == mirror(out).take(end - i),
                forall|k: int| 0 <= k < out.len() ==> 0 < #[trigger] out[k],
            decreases i,
        {
            i -= 1;
            let v: i8 = as_slice(vec)[i];
            let ghost prior: Seq<i8> = held(*vec);
            proof {
                assert(prior[i as int] == prior.take(end as int)[i as int]);
                assert((before + out)[i as int] == out[i - start]);
            }
            let _ = push(vec, -v);
            proof {
                assert(held(*vec).take(end as int) =~= prior.take(end as int));
                assert(held(*vec).skip(end as int) =~= mirror(out).take(end - i));
            }
        }

        proof {
            let back: Seq<i8> = held(*vec).skip(end as int);
            assert(held(*vec) =~= before + out + back);
            assert(back == truncated(mirror(out), (room - out.len()) as nat)) by {
                if i == start {
                    assert(back =~= mirror(out));
                }
            }
            assert(before + out + back =~= before + (out + back));
        }
    }
}

/// The least number of strides that cover `distance`: the quotient, rounded
/// up.
pub open spec fn strides_for(distance: int, stride: int) -> int {
    (distance + stride - 1) / stride
}

/// Every seed stands for a distance within the limits; seed 0 stands for
/// the lower limit and the largest seed for the upper limit, exactly.
pub proof fn lemma_magnitude_within_limits(movement: Movement, seed: u32)
    requires
        movement.wf(),
    ensures
        movement.lower() <= movement.magnitude(seed) <= movement.upper(),
        movement.magnitude(0) == movement.lower(),
        movement.magnitude(u32::MAX) == movement.upper(),
{
    let range: int = movement.upper() - movement.lower();
    lemma_scaled_in_range(seed, range);
    lemma_scaled_in_range(0, range);
    lemma_scaled_in_range(u32::MAX, range);
}

/// With room for every forward step, the forward steps written cover the
/// distance that the seed stands for: the lower limit for seed 0, the upper
/// limit for the largest seed.
pub proof fn lemma_outward_covers_magnitude(movement: Movement, seed: u32, room: nat)
    requires
        movement.wf(),
        room >= movement.strides(seed),
    ensures
        total(movement.outward(seed, room)) == movement.magnitude(seed),
        seed == 0 ==> total(movement.outward(seed, room)) == movement.lower(),
        seed == u32::MAX ==> total(movement.outward(seed, room)) == movement.upper(),
{
    lemma_magnitude_within_limits(movement, seed);
    lemma_forward_steps(movement.magnitude(seed), movement.stride());
}

/// Where there is any room, the first step appended is a forward step of one
/// stride, or of the whole distance where that is shorter.
pub proof fn lemma_first_step(movement: Movement, seed: u32, room: nat)
    requires
        movement.wf(),
        room >= 1,
    ensures
        movement.steps(seed, room).len() >= 1,
        movement.steps(seed, room)[0] == if movement.stride() <= movement.magnitude(seed) {
            movement.stride()
        } else {
            movement.magnitude(seed)
        },
        movement.lower() <= movement.magnitude(seed) <= movement.upper(),
{
    lemma_magnitude_within_limits(movement, seed);
    lemma_forward_steps(movement.magnitude(seed), movement.stride());
}

/// With a single free place, exactly one step is appended: a forward one,
/// and nothing of the way back.
pub proof fn lemma_single_place(movement: Movement, seed: u32)
    requires
        movement.wf(),
    ensures
        movement.steps(seed, 1).len() == 1,
        movement.steps(seed, 1)[0] > 0,
        movement.homeward(seed, 1).len() == 0,
{
    lemma_magnitude_within_limits(movement, seed);
    lemma_forward_steps(movement.magnitude(seed), movement.stride());
    let out: Seq<i8> = movement.outward(seed, 1);
    assert(out[0] == forward(movement.magnitude(seed), movement.stride())[0]);
}

/// With room for every forward step and its mirror, the run that is
/// appended leads back to where it began.
pub proof fn lemma_round_trip(movement: Movement, seed: u32, room: nat)
    requires
        movement.wf(),
        room >= 2 * movement.strides(seed),
    ensures
        movement.steps(seed, room).len() == 2 * movement.strides(seed),
        total(movement.steps(seed, room)) == 0,
{
    lemma_magnitude_within_limits(movement, seed);
    lemma_forward_steps(movement.magnitude(seed), movement.stride());
    let out: Seq<i8> = movement.outward(seed, room);
    lemma_total_mirror(out);
    lemma_total_concat(out, mirror(out));
}

/// Without room for every forward step and its mirror, the run that is
/// appended fills the room and ends short of where it began.
pub proof fn lemma_cut_short(movement: Movement, seed: u32, room: nat)
    requires
        movement.wf(),
        0 < room < 2 * movement.strides(seed),
    ensures
        movement.steps(seed, room).len() == room,
        total(movement.steps(seed, room)) > 0,
{
    lemma_magnitude_within_limits(movement, seed);
    lemma_forward_steps(movement.magnitude(seed), movement.stride());
    let out: Seq<i8> = movement.outward(seed, room);
    let back: Seq<i8> = movement.homeward(seed, room);
    lemma_total_concat(out, back);
    if back.len() == 0 {
        assert(out[0] > 0);
        lemma_total_positive(out);
        assert(back =~= Seq::<i8>::empty());
    } else {
        // The way back is cut: it undoes the last forward steps only.
        let kept: int = out.len() - back.len();
        assert(kept > 0);
        let tail: Seq<i8> = out.skip(kept);
        assert(back =~= mirror(tail));
        assert(out =~= out.take(kept) + tail);
        lemma_total_concat(out.take(kept), tail);
        lemma_total_mirror(tail);
        assert(out.take(kept)[0] > 0);
        lemma_total_positive(out.take(kept));
    }
}

/// The forward steps for a distance are as many as the strides that cover
/// it.
pub proof fn lemma_forward_len(magnitude: int, stride: int)
    requires
        0 <= magnitude,
        0 < stride,
    ensures
        forward(magnitude, stride).len() == strides_for(magnitude, stride),
    decreases magnitude,
{
    if magnitude <= 0 {
        assert((stride - 1) / stride == 0) by (nonlinear_arith)
            requires
                0 < stride,
        ;
    } else if magnitude <= stride {
        assert((magnitude + stride - 1) / stride == 1) by (nonlinear_arith)
            requires
                0 < magnitude <= stride,
        ;
    } else {
        lemma_forward_len(magnitude - stride, stride);
        assert((magnitude + stride - 1) / stride == (magnitude - stride + stride - 1) / stride
            + 1) by (nonlinear_arith)
            requires
                0 < stride,
        ;
    }
}

/// A buffer with `2 * ceil((upper - lower) / stride) + 2` free places has
/// room for the whole run of any seed, so that the run leads back to where
/// it began, as long as the lower limit is no longer than a stride. With a
/// longer lower limit that many places may be too few, and the run leads
/// back where the room covers its forward steps twice.
pub proof fn lemma_sufficient_room(movement: Movement, seed: u32, room: nat)
    requires
        movement.wf(),
        room >= 2 * strides_for(movement.upper() - movement.lower(), movement.stride()) + 2,
        movement.lower() <= movement.stride() || room >= 2 * movement.strides(seed),
    ensures
        room >= 2 * movement.strides(seed),
        total(movement.steps(seed, room)) == 0,
{
    let stride: int = movement.stride();
    let magnitude: int = movement.magnitude(seed);
    let span: int = movement.upper() - movement.lower();
    lemma_magnitude_within_limits(movement, seed);
    lemma_forward_len(magnitude, stride);
    if movement.lower() <= stride {
        assert((magnitude + stride - 1) / stride <= (span + stride - 1) / stride + 1)
            by (nonlinear_arith)
            requires
                0 < stride,
                0 <= magnitude <= span + stride,
        ;
    }
    lemma_round_trip(movement, seed, room);
}

/// Steps that are all positive, at least one of them, lead forward.
proof fn lemma_total_positive(steps: Seq<i8>)
    requires
        steps.len() > 0,
        forall|k: int| 0 <= k < steps.len() ==> 0 < #[trigger] steps[k],
    ensures
        total(steps) > 0,
    decreases steps.len(),
{
    if steps.len() > 1 {
        lemma_total_positive(steps.drop_last());
    } else {
        assert(steps.drop_last() =~= Seq::<i8>::empty());
        assert(total(steps.drop_last()) == 0);
    }
}

/// The way back undoes the way out.
proof fn lemma_total_mirror(steps: Seq<i8>)
    requires
        forall|k: int| 0 <= k < steps.len() ==> i8::MIN < #[trigger] steps[k],
    ensures
        total(mirror(steps)) == -total(steps),
    decreases steps.len(),
{
    if steps.len() == 0 {
    } else {
        let first: Seq<i8> = seq![(-steps.last()) as i8];
        lemma_total_mirror(steps.drop_last());
        assert(mirror(steps) =~= first + mirror(steps.drop_last()));
        lemma_total_concat(first, mirror(steps.drop_last()));
        assert(first.drop_last() =~= Seq::<i8>::empty());
        assert(total(first.drop_last()) == 0);
    }
}

/// Adding up a run made of two parts adds up the parts.
pub proof fn lemma_total_concat(a: Seq<i8>, b: Seq<i8>)
    ensures
        total(a + b) == total(a) + total(b),
    decreases b.len(),
{
    if b.len() == 0 {
        assert(a + b =~= a);
    } else {
        lemma_total_concat(a, b.drop_last());
        assert((a + b).drop_last() =~= a + b.drop_last());
    }
}

/// The forward steps for a distance that fits a signed byte are all
/// positive, none is longer than a stride or than the distance, and together
/// they cover the distance exactly.
pub proof fn lemma_forward_steps(magnitude: int, stride: int)
    requires
        0 <= magnitude <= i8::MAX,
        0 < stride,
    ensures
        total(forward(magnitude, stride)) == magnitude,
        forward(magnitude, stride).len() <= magnitude,
        magnitude > 0 ==> forward(magnitude, stride).len() > 0,
        forall|k: int|
            0 <= k < forward(magnitude, stride).len() ==> 0 < #[trigger] forward(
                magnitude,
                stride,
            )[k] <= stride && forward(magnitude, stride)[k] <= magnitude,
    decreases magnitude,
{
    if magnitude <= 0 {
    } else if magnitude <= stride {
        let only: Seq<i8> = seq![magnitude as i8];
        assert(only.drop_last() =~= Seq::<i8>::empty());
        assert(total(only.drop_last()) == 0);
    } else {
        lemma_forward_steps(magnitude - stride, stride);
        lemma_total_concat(seq![stride as i8], forward(magnitude - stride, stride));
        let first: Seq<i8> = seq![stride as i8];
        assert(first.drop_last() =~= Seq::<i8>::empty());
        assert(total(first.drop_last()) == 0);
    }
}

/// Scaling a seed over `range` stays within `range`, and the largest seed
/// reaches it exactly.
proof fn lemma_scaled_in_range(seed: u32, range: int)
    requires
        0 <= range,
    ensures
        0 <= (seed as int * range) / (u32::MAX as int) <= range,
        seed == u32::MAX ==> (seed as int * range) / (u32::MAX as int) == range,
        seed == 0 ==> (seed as int * range) / (u32::MAX as int) == 0,
{
    let max: int = u32::MAX as int;
    assert(0 <= seed as int * range <= max * range) by (nonlinear_arith)
        requires
            0 <= seed as int <= max,
            0 <= range,
    ;
    assert((max * range) / max == range) by (nonlinear_arith)
        requires
            max > 0,
    ;
    assert(0 <= (seed as int * range) / max <= (max * range) / max) by (nonlinear_arith)
        requires
            0 <= seed as int * range <= max * range,
            max > 0,
    ;
}

} // verus!
