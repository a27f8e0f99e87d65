//! Brings an observer's view of a game onto the simulation's.
use crate::recording::records::{CarRecord, TickRecord};
use crate::single::{Single, ONE_BITS};
use crate::single_laws::{law_small_factors_shrink, law_sum_follows_sign, law_sum_of_numbers};
use vstd::prelude::*;

verus! {

/// Ticks per second, 120.
pub const TICK_RATE: u32 = 0x42f0_0000;

/// Seconds per tick, 1 / 120.
pub const TICK_TIME: u32 = 0x3c08_8889;

/// How fast the handbrake value rises while the button is held, 5 per second.
pub const POWERSLIDE_RISE_RATE: u32 = 0x40a0_0000;

/// How fast the handbrake value falls while the button is not held, 2 per second.
pub const POWERSLIDE_FALL_RATE: u32 = 0x4000_0000;

/// A gap between the travelled and the expected way that no step from frame to frame leaves,
/// 1/4 unit.
pub const SUBFRAME_POS_RESIDUAL: u32 = 0x3e80_0000;

/// Two cars touch only when their centres are closer than this, 240 units.
pub const BUMP_PROXIMITY: u32 = 0x4370_0000;

/// A longer way in one step is a teleport, 40 units.
pub const MAX_STEP_DISPLACEMENT: u32 = 0x4220_0000;

/// Ticks that a jump lasts at least.
pub const JUMP_MIN_TICKS: u32 = 3;

/// Ticks that a jump lasts at most.
pub const JUMP_MAX_TICKS: u32 = 24;

/// The record of a car in a tick, if the tick has one.
pub open spec fn record_of(ticks: Seq<TickRecord>, t: int, car: int) -> Option<CarRecord> {
    if 0 <= t < ticks.len() && 0 <= car < ticks[t].car_records@.len() {
        Some(ticks[t].car_records@[car])
    } else {
        None
    }
}

/// How many ticks the jump of a record has lasted.
pub open spec fn jump_ticks(rec: CarRecord) -> int {
    rec.jump_time.times(Single { bits: TICK_RATE }).to_closest()
}

/// A running jump ends with this record: its time is up, or the button is no longer held and
/// the shortest jump is over.
pub open spec fn jump_ends(rec: CarRecord) -> bool {
    jump_ticks(rec) >= JUMP_MAX_TICKS || jump_ticks(rec) >= JUMP_MIN_TICKS && !rec.prev_controls.jump
}

/// Whether a jump of the car produces thrust at tick `t`: one begins with a pulse on the ground
/// and goes on until it ends.
pub open spec fn jump_active(ticks: Seq<TickRecord>, car: int, t: int) -> bool
    decreases t + 1,
{
    if t < 0 {
        false
    } else {
        match record_of(ticks, t, car) {
            None => false,
            Some(rec) => rec.is_jumping && rec.is_on_ground || jump_active(ticks, car, t - 1) && !jump_ends(rec),
        }
    }
}

/// The record with another jump flag.
pub open spec fn with_jump(rec: CarRecord, is_jumping: bool) -> CarRecord {
    CarRecord { is_jumping, ..rec }
}

/// How many of the first `cars` cars of tick `t` change their jump flag.
pub open spec fn jump_changes_in(ticks: Seq<TickRecord>, t: int, cars: int) -> nat
    decreases cars,
{
    if cars <= 0 {
        0
    } else {
        let rest = jump_changes_in(ticks, t, cars - 1);
        match record_of(ticks, t, cars - 1) {
            Some(rec) if rec.is_jumping != jump_active(ticks, cars - 1, t) => rest + 1,
            _ => rest,
        }
    }
}

/// How many jump flags change in the first `n` ticks.
pub open spec fn jump_changes(ticks: Seq<TickRecord>, n: int, cars: int) -> nat
    decreases n,
{
    if n <= 0 {
        0
    } else {
        jump_changes(ticks, n - 1, cars) + jump_changes_in(ticks, n - 1, cars)
    }
}

/// `after` is `before` with the jump flag of each of the first `cars` cars of tick `t`
/// sustained.
pub open spec fn jump_sustained(before: Seq<TickRecord>, after: TickRecord, t: int, cars: int) -> bool {
    &&& after.ball_record == before[t].ball_record
    &&& after.car_records@.len() == before[t].car_records@.len()
    &&& forall|car: int|
        0 <= car < after.car_records@.len() ==> #[trigger] after.car_records@[car] == if car < cars {
            with_jump(before[t].car_records@[car], jump_active(before, car, t))
        } else {
            before[t].car_records@[car]
        }
}

proof fn lemma_jump_changes_bound(ticks: Seq<TickRecord>, n: int, cars: int)
    requires
        0 <= n,
        0 <= cars,
    ensures
        jump_changes(ticks, n, cars) <= n * cars,
    decreases n,
{
    if n > 0 {
        lemma_jump_changes_bound(ticks, n - 1, cars);
        lemma_jump_changes_in_bound(ticks, n - 1, cars);
        assert((n - 1) * cars + cars == n * cars) by (nonlinear_arith);
    }
}

proof fn lemma_jump_changes_in_bound(ticks: Seq<TickRecord>, t: int, cars: int)
    requires
        0 <= cars,
    ensures
        jump_changes_in(ticks, t, cars) <= cars,
    decreases cars,
{
    if cars > 0 {
        lemma_jump_changes_in_bound(ticks, t, cars - 1);
    }
}

/// Turns the jump flag, a pulse on the tick of the press, into one that stays set for as long
/// as the jump produces thrust. Returns how many flags changed.
pub fn normalize_jump_active(ticks: &mut Vec<TickRecord>, num_cars: usize) -> (changed: usize)
    requires
        old(ticks)@.len() * num_cars <= usize::MAX,
    ensures
        final(ticks)@.len() == old(ticks)@.len(),
        forall|t: int|
            0 <= t < final(ticks)@.len() ==> jump_sustained(old(ticks)@, #[trigger] final(ticks)@[t], t, num_cars as int),
        changed == jump_changes(old(ticks)@, old(ticks)@.len() as int, num_cars as int),
{
    let ghost before = ticks@;
    let mut active: Vec<bool> = Vec::new();
    let mut i: usize = 0;
    while i < num_cars
        invariant
            i <= num_cars,
            active@.len() == i,
            forall|c: int| 0 <= c < i ==> !#[trigger] active@[c],
        decreases num_cars - i,
    {
        active.push(false);
        i = i + 1;
    }
    let mut changed: usize = 0;
    let mut t: usize = 0;
    while t < ticks.len()
        invariant
            t <= ticks@.len(),
            ticks@.len() == before.len(),
            active@.len() == num_cars,
            before.len() * num_cars <= usize::MAX,
            forall|c: int| 0 <= c < num_cars ==> #[trigger] active@[c] == jump_active(before, c, t - 1),
            forall|s: int| 0 <= s < t ==> jump_sustained(before, #[trigger] ticks@[s], s, num_cars as int),
            forall|s: int| t <= s < before.len() ==> #[trigger] ticks@[s] == before[s],
            changed == jump_changes(before, t as int, num_cars as int),
        decreases before.len() - t,
    {
        let mut car: usize = 0;
        let ghost so_far = changed;
        while car < num_cars
            invariant
                t < ticks@.len(),
                ticks@.len() == before.len(),
                car <= num_cars,
                active@.len() == num_cars,
                before.len() * num_cars <= usize::MAX,
                so_far == jump_changes(before, t as int, num_cars as int),
                changed == so_far + jump_changes_in(before, t as int, car as int),
                forall|c: int| 0 <= c < car ==> #[trigger] active@[c] == jump_active(before, c, t as int),
                forall|c: int| car <= c < num_cars ==> #[trigger] active@[c] == jump_active(before, c, t - 1),
                forall|s: int| 0 <= s < t ==> jump_sustained(before, #[trigger] ticks@[s], s, num_cars as int),
                jump_sustained(before, ticks@[t as int], t as int, car as int),
                forall|s: int| t < s < before.len() ==> #[trigger] ticks@[s] == before[s],
            decreases num_cars - car,
        {
            proof {
                lemma_jump_changes_bound(before, t as int, num_cars as int);
                lemma_jump_changes_in_bound(before, t as int, car as int);
                assert(t * num_cars + num_cars <= before.len() * num_cars) by (nonlinear_arith)
                    requires
                        t + 1 <= before.len(),
                        num_cars >= 0,
                ;
            }
            if car < ticks[t].car_records.len() {
                let mut rec: CarRecord = ticks[t].car_records[car];
                let mut is_active: bool = active[car];
                if rec.is_jumping && rec.is_on_ground {
                    is_active = true;
                } else if is_active {
                    let ticks_in: u32 = rec.jump_time.times(Single::of(TICK_RATE)).round();
                    if ticks_in >= JUMP_MAX_TICKS || ticks_in >= JUMP_MIN_TICKS && !rec.prev_controls.jump {
                        is_active = false;
                    }
                }
                active.set(car, is_active);
                assert(is_active == jump_active(before, car as int, t as int));
                if is_active != rec.is_jumping {
                    rec.is_jumping = is_active;
                    changed = changed + 1;
                }
                ticks[t].car_records[car] = rec;
            } else {
                active.set(car, false);
            }
            car = car + 1;
        }
        t = t + 1;
    }
    changed
}

/// What one step adds to the handbrake value.
pub open spec fn handbrake_step(held: bool) -> Single {
    let rate = if held {
        Single { bits: POWERSLIDE_RISE_RATE }
    } else {
        Single { bits: POWERSLIDE_FALL_RATE }.negate()
    };
    rate.times(Single { bits: TICK_TIME })
}

/// The handbrake value of a car at tick `t`: it starts with the logged value, or 0, and each
/// later record of the car moves it by one step, between 0 and 1.
pub open spec fn handbrake_at(ticks: Seq<TickRecord>, car: int, t: int) -> Single
    decreases t,
{
    if t <= 0 {
        match record_of(ticks, 0, car) {
            Some(rec) => rec.handbrake_val,
            None => Single { bits: 0 },
        }
    } else {
        let before = handbrake_at(ticks, car, t - 1);
        match record_of(ticks, t, car) {
            Some(rec) => before.plus(handbrake_step(rec.prev_controls.handbrake)).within(
                Single { bits: 0 },
                Single { bits: ONE_BITS },
            ),
            None => before,
        }
    }
}

/// The record with another handbrake value, unless it has that number already.
pub open spec fn with_handbrake(rec: CarRecord, value: Single) -> CarRecord {
    if value.same(rec.handbrake_val) {
        rec
    } else {
        CarRecord { handbrake_val: value, ..rec }
    }
}

/// How many of the first `cars` cars of tick `t` change their handbrake value.
pub open spec fn handbrake_changes_in(ticks: Seq<TickRecord>, t: int, cars: int) -> nat
    decreases cars,
{
    if cars <= 0 {
        0
    } else {
        let rest = handbrake_changes_in(ticks, t, cars - 1);
        match record_of(ticks, t, cars - 1) {
            Some(rec) if !handbrake_at(ticks, cars - 1, t).same(rec.handbrake_val) => rest + 1,
            _ => rest,
        }
    }
}

/// How many handbrake values change in the first `n` ticks.
pub open spec fn handbrake_changes(ticks: Seq<TickRecord>, n: int, cars: int) -> nat
    decreases n,
{
    if n <= 0 {
        0
    } else {
        handbrake_changes(ticks, n - 1, cars) + handbrake_changes_in(ticks, n - 1, cars)
    }
}

/// `after` is tick `t` of `before` with the handbrake value of each of the first `cars` cars
/// rebuilt.
pub open spec fn handbrake_rebuilt(before: Seq<TickRecord>, after: TickRecord, t: int, cars: int) -> bool {
    &&& after.ball_record == before[t].ball_record
    &&& after.car_records@.len() == before[t].car_records@.len()
    &&& forall|car: int|
        0 <= car < after.car_records@.len() ==> #[trigger] after.car_records@[car] == if car < cars {
            with_handbrake(before[t].car_records@[car], handbrake_at(before, car, t))
        } else {
            before[t].car_records@[car]
        }
}

proof fn lemma_handbrake_changes_bound(ticks: Seq<TickRecord>, n: int, cars: int)
    requires
        0 <= n,
        0 <= cars,
    ensures
        handbrake_changes(ticks, n, cars) <= n * cars,
    decreases n,
{
    if n > 0 {
        lemma_handbrake_changes_bound(ticks, n - 1, cars);
        lemma_handbrake_changes_in_bound(ticks, n - 1, cars);
        assert((n - 1) * cars + cars == n * cars) by (nonlinear_arith);
    }
}

proof fn lemma_handbrake_changes_in_bound(ticks: Seq<TickRecord>, t: int, cars: int)
    requires
        0 <= cars,
    ensures
        handbrake_changes_in(ticks, t, cars) <= cars,
    decreases cars,
{
    if cars > 0 {
        lemma_handbrake_changes_in_bound(ticks, t, cars - 1);
    }
}

/// Rebuilds the handbrake value, which the log snaps to 0 or 1, from the button. Returns how
/// many values changed.
pub fn normalize_handbrake_val(ticks: &mut Vec<TickRecord>, num_cars: usize) -> (changed: usize)
    requires
        old(ticks)@.len() * num_cars <= usize::MAX,
    ensures
        final(ticks)@.len() == old(ticks)@.len(),
        forall|t: int|
            0 <= t < final(ticks)@.len() ==> handbrake_rebuilt(
                old(ticks)@,
                #[trigger] final(ticks)@[t],
                t,
                num_cars as int,
            ),
        changed == handbrake_changes(old(ticks)@, old(ticks)@.len() as int, num_cars as int),
{
    let ghost before = ticks@;
    let mut val: Vec<Single> = Vec::new();
    let mut i: usize = 0;
    while i < num_cars
        invariant
            i <= num_cars,
            ticks@ == before,
            val@.len() == i,
            forall|c: int| 0 <= c < i ==> #[trigger] val@[c] == handbrake_at(before, c, 0),
        decreases num_cars - i,
    {
        let seed: Single = if ticks.len() > 0 && i < ticks[0].car_records.len() {
            ticks[0].car_records[i].handbrake_val
        } else {
            Single::zero()
        };
        val.push(seed);
        i = i + 1;
    }
    let rise: Single = Single::of(POWERSLIDE_RISE_RATE).times(Single::of(TICK_TIME));
    let fall: Single = Single::of(POWERSLIDE_FALL_RATE).negate().times(Single::of(TICK_TIME));
    let mut changed: usize = 0;
    let mut t: usize = 0;
    while t < ticks.len()
        invariant
            t <= ticks@.len(),
            ticks@.len() == before.len(),
            val@.len() == num_cars,
            rise == handbrake_step(true),
            fall == handbrake_step(false),
            before.len() * num_cars <= usize::MAX,
            forall|c: int| 0 <= c < num_cars ==> #[trigger] val@[c] == handbrake_at(before, c, t - 1),
            forall|s: int| 0 <= s < t ==> handbrake_rebuilt(before, #[trigger] ticks@[s], s, num_cars as int),
            forall|s: int| t <= s < before.len() ==> #[trigger] ticks@[s] == before[s],
            changed == handbrake_changes(before, t as int, num_cars as int),
        decreases before.len() - t,
    {
        let mut car: usize = 0;
        let ghost so_far = changed;
        while car < num_cars
            invariant
                t < ticks@.len(),
                ticks@.len() == before.len(),
                car <= num_cars,
                val@.len() == num_cars,
                rise == handbrake_step(true),
                fall == handbrake_step(false),
                before.len() * num_cars <= usize::MAX,
                so_far == handbrake_changes(before, t as int, num_cars as int),
                changed == so_far + handbrake_changes_in(before, t as int, car as int),
                forall|c: int| 0 <= c < car ==> #[trigger] val@[c] == handbrake_at(before, c, t as int),
                forall|c: int| car <= c < num_cars ==> #[trigger] val@[c] == handbrake_at(before, c, t - 1),
                forall|s: int| 0 <= s < t ==> handbrake_rebuilt(before, #[trigger] ticks@[s], s, num_cars as int),
                handbrake_rebuilt(before, ticks@[t as int], t as int, car as int),
                forall|s: int| t < s < before.len() ==> #[trigger] ticks@[s] == before[s],
            decreases num_cars - car,
        {
            proof {
                lemma_handbrake_changes_bound(before, t as int, num_cars as int);
                lemma_handbrake_changes_in_bound(before, t as int, car as int);
                assert(t * num_cars + num_cars <= before.len() * num_cars) by (nonlinear_arith)
                    requires
                        t + 1 <= before.len(),
                        num_cars >= 0,
                ;
            }
            if car < ticks[t].car_records.len() {
                let mut rec: CarRecord = ticks[t].car_records[car];
                let mut value: Single = val[car];
                if t > 0 {
                    let step: Single = if rec.prev_controls.handbrake { rise } else { fall };
                    value = value.plus(step).clamp(Single::zero(), Single::one());
                    val.set(car, value);
                }
                assert(value == handbrake_at(before, car as int, t as int));
                if !value.equals(rec.handbrake_val) {
                    rec.handbrake_val = value;
                    changed = changed + 1;
                }
                ticks[t].car_records[car] = rec;
            }
            car = car + 1;
        }
        t = t + 1;
    }
    changed
}

/// The car begins an impulse that a button triggers, a jump, a double jump or a flip, at tick
/// `t`.
pub open spec fn impulse_onset(ticks: Seq<TickRecord>, t: int, car: int) -> bool {
    match record_of(ticks, t, car) {
        Some(rec) => rec.is_jumping || rec.is_flipping,
        None => false,
    }
}

/// Marks, for each tick and each of the first `num_cars` cars, whether a button triggers an
/// impulse there. Reads the pulses as logged, so it comes before [`normalize_jump_active`].
pub fn detect_impulse_onsets(ticks: &Vec<TickRecord>, num_cars: usize) -> (onsets: Vec<Vec<bool>>)
    ensures
        onsets@.len() == ticks@.len(),
        forall|t: int| 0 <= t < ticks@.len() ==> (#[trigger] onsets@[t])@.len() == num_cars,
        forall|t: int, car: int|
            0 <= t < ticks@.len() && 0 <= car < num_cars ==> #[trigger] onsets@[t]@[car] == impulse_onset(
                ticks@,
                t,
                car,
            ),
{
    let mut onsets: Vec<Vec<bool>> = Vec::new();
    let mut t: usize = 0;
    while t < ticks.len()
        invariant
            t <= ticks@.len(),
            onsets@.len() == t,
            forall|s: int| 0 <= s < t ==> (#[trigger] onsets@[s])@.len() == num_cars,
            forall|s: int, car: int|
                0 <= s < t && 0 <= car < num_cars ==> #[trigger] onsets@[s]@[car] == impulse_onset(ticks@, s, car),
        decreases ticks@.len() - t,
    {
        let mut row: Vec<bool> = Vec::new();
        let mut car: usize = 0;
        while car < num_cars
            invariant
                t < ticks@.len(),
                car <= num_cars,
                row@.len() == car,
                forall|c: int| 0 <= c < car ==> #[trigger] row@[c] == impulse_onset(ticks@, t as int, c),
            decreases num_cars - car,
        {
            let records: &Vec<CarRecord> = &ticks[t].car_records;
            let mark: bool = car < records.len() && (records[car].is_jumping || records[car].is_flipping);
            row.push(mark);
            car = car + 1;
        }
        onsets.push(row);
        t = t + 1;
    }
    onsets
}

/// Another of the first `cars` cars was close to `car` at tick `t`, and not demolished.
pub open spec fn near_other_car(ticks: Seq<TickRecord>, cars: int, t: int, car: int) -> bool {
    exists|other: int|
        0 <= other < cars && other != car && #[trigger] is_near(ticks, t, car, other)
}

/// The car `other` was close to `car` at tick `t`, and not demolished.
pub open spec fn is_near(ticks: Seq<TickRecord>, t: int, car: int, other: int) -> bool {
    match (record_of(ticks, t, car), record_of(ticks, t, other)) {
        (Some(a), Some(b)) => !b.is_demoed && b.phys.pos.minus(a.phys.pos).length().less(
            Single { bits: BUMP_PROXIMITY },
        ),
        _ => false,
    }
}

/// The step from one record to another is `stride` frames of ordinary motion that no whole
/// number of frames at the final velocity explains.
pub open spec fn off_the_frames(from: CarRecord, to: CarRecord, stride: usize) -> bool {
    let step = to.phys.pos.minus(from.phys.pos);
    let time = Single { bits: TICK_TIME }.times(Single::of_integer(stride as int));
    &&& !from.is_demoed
    &&& !to.is_demoed
    &&& to.phys.physics_frame == from.phys.physics_frame + (stride as u32)
    &&& !(Single { bits: MAX_STEP_DISPLACEMENT }).less(step.length())
    &&& !step.minus(to.phys.lin_vel.scale(time)).length().at_most(Single { bits: SUBFRAME_POS_RESIDUAL })
}

/// Wherever two records of one of the first `cars` cars are `stride` ticks apart, and the car is there
/// in both, the frame that should follow the first one is a number.
pub open spec fn frames_fit(ticks: Seq<TickRecord>, cars: int, stride: usize) -> bool {
    forall|t: int, car: int| #[trigger]
        record_of(ticks, t, car) is Some && car < cars && record_of(ticks, t - stride, car) is Some && !record_of(
            ticks,
            t,
            car,
        )->Some_0.is_demoed && !record_of(ticks, t - stride, car)->Some_0.is_demoed ==> record_of(
            ticks,
            t - stride,
            car,
        )->Some_0.phys.physics_frame + (stride as u32) <= u32::MAX
}

/// A car bumped into another one between two frames, on the way into tick `t`.
pub open spec fn bump_onset(ticks: Seq<TickRecord>, cars: int, stride: usize, t: int, car: int) -> bool {
    match (record_of(ticks, t - stride, car), record_of(ticks, t, car)) {
        (Some(from), Some(to)) => off_the_frames(from, to, stride) && near_other_car(ticks, cars, t, car),
        _ => false,
    }
}

/// Marks, for each tick and each of the first `num_cars` cars, whether the car bumped into
/// another one between two frames there.
pub fn detect_bump_onsets(ticks: &Vec<TickRecord>, num_cars: usize, stride: usize) -> (onsets: Vec<Vec<bool>>)
    requires
        frames_fit(ticks@, num_cars as int, stride),
    ensures
        onsets@.len() == ticks@.len(),
        forall|t: int| 0 <= t < ticks@.len() ==> (#[trigger] onsets@[t])@.len() == num_cars,
        forall|t: int, car: int|
            0 <= t < ticks@.len() && 0 <= car < num_cars ==> #[trigger] onsets@[t]@[car] == bump_onset(
                ticks@,
                num_cars as int,
                stride,
                t,
                car,
            ),
{
    let time: Single = Single::of(TICK_TIME).times(Single::from_u64(stride as u64));
    let mut onsets: Vec<Vec<bool>> = Vec::new();
    let mut t: usize = 0;
    while t < ticks.len()
        invariant
            t <= ticks@.len(),
            onsets@.len() == t,
            time == (Single { bits: TICK_TIME }).times(Single::of_integer(stride as int)),
            frames_fit(ticks@, num_cars as int, stride),
            forall|s: int| 0 <= s < t ==> (#[trigger] onsets@[s])@.len() == num_cars,
            forall|s: int, car: int|
                0 <= s < t && 0 <= car < num_cars ==> #[trigger] onsets@[s]@[car] == bump_onset(
                    ticks@,
                    num_cars as int,
                    stride,
                    s,
                    car,
                ),
        decreases ticks@.len() - t,
    {
        let mut row: Vec<bool> = Vec::new();
        let mut car: usize = 0;
        while car < num_cars
            invariant
                t < ticks@.len(),
                car <= num_cars,
                row@.len() == car,
                time == (Single { bits: TICK_TIME }).times(Single::of_integer(stride as int)),
                frames_fit(ticks@, num_cars as int, stride),
                forall|c: int|
                    0 <= c < car ==> #[trigger] row@[c] == bump_onset(ticks@, num_cars as int, stride, t as int, c),
            decreases num_cars - car,
        {
            let mut mark: bool = false;
            if t >= stride && car < ticks[t - stride].car_records.len() && car < ticks[t].car_records.len() {
                let from: CarRecord = ticks[t - stride].car_records[car];
                let to: CarRecord = ticks[t].car_records[car];
                proof {
                    assert(record_of(ticks@, t - stride, car as int) == Some(from));
                    assert(record_of(ticks@, t as int, car as int) == Some(to));
                }
                if !from.is_demoed && !to.is_demoed && to.phys.physics_frame == from.phys.physics_frame + (
                stride as u32) {
                    let step = to.phys.pos.minus(from.phys.pos);
                    if !step.length().gt(Single::of(MAX_STEP_DISPLACEMENT)) && !step.minus(
                        to.phys.lin_vel.scale(time),
                    ).length().le(Single::of(SUBFRAME_POS_RESIDUAL)) {
                        mark = has_near_car(&ticks[t], num_cars, car, Ghost(ticks@), Ghost(t as int));
                    }
                }
            }
            row.push(mark);
            car = car + 1;
        }
        onsets.push(row);
        t = t + 1;
    }
    onsets
}

fn has_near_car(tick: &TickRecord, num_cars: usize, car: usize, Ghost(ticks): Ghost<Seq<TickRecord>>, Ghost(t): Ghost<
    int,
>) -> (r: bool)
    requires
        0 <= t < ticks.len(),
        ticks[t] == *tick,
        car < tick.car_records@.len(),
    ensures
        r == near_other_car(ticks, num_cars as int, t, car as int),
{
    let here = tick.car_records[car].phys.pos;
    let mut other: usize = 0;
    while other < num_cars
        invariant
            other <= num_cars,
            0 <= t < ticks.len(),
            ticks[t] == *tick,
            car < tick.car_records@.len(),
            here == tick.car_records@[car as int].phys.pos,
            forall|o: int| 0 <= o < other && o != car ==> !#[trigger] is_near(ticks, t, car as int, o),
        decreases num_cars - other,
    {
        if other != car && other < tick.car_records.len() {
            let there: CarRecord = tick.car_records[other];
            if !there.is_demoed && there.phys.pos.minus(here).length().lt(Single::of(BUMP_PROXIMITY)) {
                assert(is_near(ticks, t, car as int, other as int));
                return true;
            }
        }
        other = other + 1;
    }
    false
}

/// Only a pulse on the ground arms a jump.
pub proof fn law_only_a_grounded_pulse_arms(ticks: Seq<TickRecord>, car: int, t: int)
    requires
        jump_active(ticks, car, t),
        !jump_active(ticks, car, t - 1),
    ensures
        ({
            let rec = record_of(ticks, t, car);
            rec is Some && rec->Some_0.is_jumping && rec->Some_0.is_on_ground
        }),
{
}

/// Every tick of a jump goes back to a pulse on the ground, and the jump has not ended since.
pub proof fn law_a_jump_has_a_beginning(ticks: Seq<TickRecord>, car: int, t: int) -> (start: int)
    requires
        jump_active(ticks, car, t),
    ensures
        0 <= start <= t,
        ({
            let rec = record_of(ticks, start, car);
            rec is Some && rec->Some_0.is_jumping && rec->Some_0.is_on_ground
        }),
        forall|s: int|
            start < s <= t ==> (#[trigger] record_of(ticks, s, car)) is Some && !jump_ends(
                record_of(ticks, s, car)->Some_0,
            ),
    decreases t + 1,
{
    let rec = record_of(ticks, t, car)->Some_0;
    if rec.is_jumping && rec.is_on_ground {
        t
    } else {
        law_a_jump_has_a_beginning(ticks, car, t - 1)
    }
}

/// A jump goes on while the button is held, up to its longest time, and in any case through its
/// shortest time. Otherwise it ends, unless a new one begins on the ground.
pub proof fn law_a_jump_goes_on_or_ends(ticks: Seq<TickRecord>, car: int, t: int)
    requires
        0 <= t,
        jump_active(ticks, car, t - 1),
        record_of(ticks, t, car) is Some,
    ensures
        ({
            let rec = record_of(ticks, t, car)->Some_0;
            &&& rec.prev_controls.jump && jump_ticks(rec) < JUMP_MAX_TICKS ==> jump_active(ticks, car, t)
            &&& jump_ticks(rec) < JUMP_MIN_TICKS ==> jump_active(ticks, car, t)
            &&& !(rec.is_jumping && rec.is_on_ground) && (jump_ticks(rec) >= JUMP_MAX_TICKS || jump_ticks(rec)
                >= JUMP_MIN_TICKS && !rec.prev_controls.jump) ==> !jump_active(ticks, car, t)
        }),
{
}

/// What becomes of a car depends on its own records alone.
pub proof fn law_cars_are_independent(a: Seq<TickRecord>, b: Seq<TickRecord>, car: int, t: int)
    requires
        forall|s: int| 0 <= s <= t ==> #[trigger] record_of(a, s, car) == record_of(b, s, car),
        0 <= t,
    ensures
        jump_active(a, car, t) == jump_active(b, car, t),
        handbrake_at(a, car, t) == handbrake_at(b, car, t),
    decreases t,
{
    assert(record_of(a, t, car) == record_of(b, t, car));
    if t > 0 {
        law_cars_are_independent(a, b, car, t - 1);
    } else {
        assert(!jump_active(a, car, -1) && !jump_active(b, car, -1));
    }
}

/// A number between 0 and 1.
pub open spec fn in_range(value: Single) -> bool {
    (Single { bits: 0 }).at_most(value) && value.at_most(Single { bits: ONE_BITS })
}

/// The steps are numbers, up with the button held and down without.
proof fn lemma_steps()
    ensures
        handbrake_step(true).finite(),
        !handbrake_step(true).negative(),
        handbrake_step(false).finite(),
        handbrake_step(false).negative(),
{
    law_small_factors_shrink(Single { bits: POWERSLIDE_RISE_RATE }, Single { bits: TICK_TIME });
    law_small_factors_shrink((Single { bits: POWERSLIDE_FALL_RATE }).negate(), Single { bits: TICK_TIME });
}

/// A handbrake value that starts between 0 and 1 stays there. It does not fall while the button is
/// held, and does not rise while it is not.
pub proof fn law_handbrake_stays_in_range(ticks: Seq<TickRecord>, car: int, t: int)
    requires
        in_range(handbrake_at(ticks, car, 0)),
    ensures
        in_range(handbrake_at(ticks, car, t)),
        t > 0 ==> match record_of(ticks, t, car) {
            None => handbrake_at(ticks, car, t) == handbrake_at(ticks, car, t - 1),
            Some(rec) => if rec.prev_controls.handbrake {
                handbrake_at(ticks, car, t - 1).at_most(handbrake_at(ticks, car, t))
            } else {
                handbrake_at(ticks, car, t).at_most(handbrake_at(ticks, car, t - 1))
            },
        },
    decreases t,
{
    if t > 0 {
        law_handbrake_stays_in_range(ticks, car, t - 1);
        let before = handbrake_at(ticks, car, t - 1);
        lemma_steps();
        law_sum_of_numbers(before, handbrake_step(true));
        law_sum_of_numbers(before, handbrake_step(false));
        law_sum_follows_sign(before, handbrake_step(true));
        law_sum_follows_sign(before, handbrake_step(false));
    }
}

/// A second pass over the jump flags changes nothing.
pub proof fn law_jump_pass_is_stable(before: Seq<TickRecord>, after: Seq<TickRecord>, cars: int, car: int, t: int)
    requires
        after.len() == before.len(),
        forall|s: int| 0 <= s < after.len() ==> jump_sustained(before, #[trigger] after[s], s, cars),
        0 <= car < cars,
    ensures
        jump_active(after, car, t) == jump_active(before, car, t),
        record_of(after, t, car) is Some ==> record_of(after, t, car)->Some_0.is_jumping == jump_active(after, car, t),
    decreases t + 1,
{
    if t >= 0 {
        law_jump_pass_is_stable(before, after, cars, car, t - 1);
        if t < after.len() {
            assert(jump_sustained(before, after[t], t, cars));
        }
    }
}

/// A second pass over the jump flags counts no change.
pub proof fn law_second_jump_pass_counts_nothing(before: Seq<TickRecord>, after: Seq<TickRecord>, cars: int, n: int)
    requires
        after.len() == before.len(),
        forall|s: int| 0 <= s < after.len() ==> jump_sustained(before, #[trigger] after[s], s, cars),
    ensures
        jump_changes(after, n, cars) == 0,
    decreases n,
{
    if n > 0 {
        law_second_jump_pass_counts_nothing(before, after, cars, n - 1);
        lemma_no_jump_changes_in(before, after, cars, n - 1, cars);
    }
}

proof fn lemma_no_jump_changes_in(before: Seq<TickRecord>, after: Seq<TickRecord>, cars: int, t: int, k: int)
    requires
        after.len() == before.len(),
        forall|s: int| 0 <= s < after.len() ==> jump_sustained(before, #[trigger] after[s], s, cars),
        k <= cars,
    ensures
        jump_changes_in(after, t, k) == 0,
    decreases k,
{
    if k > 0 {
        lemma_no_jump_changes_in(before, after, cars, t, k - 1);
        law_jump_pass_is_stable(before, after, cars, k - 1, t);
    }
}

/// A second pass over the handbrake values changes nothing.
pub proof fn law_handbrake_pass_is_stable(before: Seq<TickRecord>, after: Seq<TickRecord>, cars: int, car: int, t: int)
    requires
        after.len() == before.len(),
        forall|s: int| 0 <= s < after.len() ==> handbrake_rebuilt(before, #[trigger] after[s], s, cars),
        0 <= car < cars,
        0 <= t,
    ensures
        handbrake_at(after, car, t) == handbrake_at(before, car, t),
        record_of(after, t, car) is Some ==> with_handbrake(
            record_of(after, t, car)->Some_0,
            handbrake_at(after, car, t),
        ) == record_of(after, t, car)->Some_0,
    decreases t,
{
    if after.len() > 0 {
        assert(handbrake_rebuilt(before, after[0], 0, cars));
    }
    if t < after.len() {
        assert(handbrake_rebuilt(before, after[t], t, cars));
    }
    if t > 0 {
        law_handbrake_pass_is_stable(before, after, cars, car, t - 1);
    }
}

} // verus!
