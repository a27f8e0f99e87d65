//! What holds of normalized recordings.
use crate::bounds::{
    inner, lemma_any_length, lemma_count, lemma_times, lemma_vector_minus, lemma_vector_scale, near, point, sized, slack, stretched, taken,
    within,
};
use crate::math::Vec3A;
use crate::reals::{lemma_bounded, lemma_scaled, lemma_spread, lemma_square_of_sum, lemma_swap};
use crate::recording::normalize::{
    handbrake_at, handbrake_rebuilt, handbrake_step, impulse_onset, in_range, is_near, jump_active, jump_sustained, jump_ticks,
    law_handbrake_stays_in_range, off_the_frames, record_of, BUMP_PROXIMITY, MAX_STEP_DISPLACEMENT, POWERSLIDE_FALL_RATE,
    POWERSLIDE_RISE_RATE, SUBFRAME_POS_RESIDUAL, TICK_RATE, TICK_TIME,
};
use crate::recording::records::{CarRecord, TickRecord};
use crate::single::{Single, ONE_BITS};
use crate::single_errors::{
    lemma_constant, lemma_order, lemma_product_close, lemma_speck, lemma_sum_close, lemma_two, lemma_units, real_value, units,
};
use crate::single_laws::{law_difference_mirrors, law_order_is_that_of_values, law_product_sign, lemma_value};
use vstd::arithmetic::power2::{lemma2_to64, pow2};
use vstd::prelude::*;

verus! {

/// By so much a step of the handbrake value may be off.
pub open spec fn hair() -> real {
    1real / 4000000real
}

/// The steps of the handbrake value: 5/120 up and 2/120 down.
proof fn lemma_step_values()
    ensures
        handbrake_step(true).finite(),
        handbrake_step(false).finite(),
        -hair() <= 2real * (real_value(handbrake_step(true)) - 5real / 120real) <= hair(),
        -hair() <= 2real * (real_value(handbrake_step(false)) + 2real / 120real) <= hair(),
{
    lemma2_to64();
    lemma_constant(TICK_TIME, 0x88_8889, 30, 0x4000_0000);
    lemma_constant(POWERSLIDE_RISE_RATE, 0xa0_0000, 21, 0x20_0000);
    lemma_two();
    lemma_speck();
    let (tick, rise) = (Single { bits: TICK_TIME }, Single { bits: POWERSLIDE_RISE_RATE });
    let two = Single { bits: POWERSLIDE_FALL_RATE };
    let fall = two.negate();
    lemma_value(two);
    lemma_value(fall);
    assert(real_value(fall) == -2real) by {
        assert(fall.value() == -two.value());
    }
    let t = real_value(tick);
    assert(t == 8947849real / 1073741824real);
    assert(real_value(rise) == 5real);
    let (r, f) = (real_value(rise), real_value(fall));
    assert(r * t == 5real * t && f * t == -2real * t);
    lemma_product_close(rise, tick);
    lemma_product_close(fall, tick);
}

/// While the button is held the handbrake value of a car rises by 5/120 from one tick to the next, up to
/// 1; while it is not, it falls by 2/120, down to 0. So a value below 1 grows while the button is held,
/// and one above 0 shrinks while it is not. Nothing else in a record has a say in it, and nothing else
/// in a record changes.
pub proof fn law_rebuilt_values_ramp(before: Seq<TickRecord>, after: Seq<TickRecord>, cars: int, car: int, t: int)
    requires
        after.len() == before.len(),
        forall|s: int| 0 <= s < after.len() ==> handbrake_rebuilt(before, #[trigger] after[s], s, cars),
        0 <= car < cars,
        0 < t,
        record_of(before, t, car) is Some,
        record_of(before, t - 1, car) is Some,
        record_of(before, 0, car) is Some ==> in_range(record_of(before, 0, car)->Some_0.handbrake_val),
    ensures
        record_of(after, t - 1, car) is Some,
        record_of(after, t, car) is Some,
        ({
            let logged = record_of(before, t, car)->Some_0;
            let was = record_of(after, t - 1, car)->Some_0.handbrake_val;
            let now = record_of(after, t, car)->Some_0.handbrake_val;
            let (x, y) = (real_value(was), real_value(now));
            &&& was.finite() && now.finite()
            &&& 0real <= x <= 1real && 0real <= y <= 1real
            &&& logged.prev_controls.handbrake ==> {
                &&& y == 1real || -hair() <= y - (x + 5real / 120real) <= hair()
                &&& x < 1real ==> x < y
            }
            &&& !logged.prev_controls.handbrake ==> {
                &&& y == 0real || -hair() <= y - (x - 2real / 120real) <= hair()
                &&& x > 0real ==> y < x
            }
            &&& record_of(after, t, car)->Some_0 == (CarRecord { handbrake_val: now, ..logged })
        }),
{
    assert(handbrake_rebuilt(before, after[t], t, cars));
    assert(handbrake_rebuilt(before, after[t - 1], t - 1, cars));
    let (zero, one) = (Single { bits: 0 }, Single { bits: ONE_BITS });
    lemma_two();
    lemma_value(zero);
    assert(in_range(zero));
    let (v, w) = (handbrake_at(before, car, t - 1), handbrake_at(before, car, t));
    law_handbrake_stays_in_range(before, car, t - 1);
    law_handbrake_stays_in_range(before, car, t);
    assert(v.finite() && w.finite());
    let logged = record_of(before, t, car)->Some_0;
    let step = handbrake_step(logged.prev_controls.handbrake);
    lemma_step_values();
    lemma_speck();
    lemma_order(zero, v);
    lemma_order(v, one);
    lemma_order(zero, w);
    lemma_order(w, one);
    lemma_sum_close(v, step);
    let s = v.plus(step);
    lemma_order(s, zero);
    lemma_order(one, s);
    lemma_order(zero, s);
    lemma_order(s, one);
    let was = record_of(after, t - 1, car)->Some_0.handbrake_val;
    let now = record_of(after, t, car)->Some_0.handbrake_val;
    law_order_is_that_of_values(v, was);
    law_order_is_that_of_values(w, now);
    assert(real_value(was) == real_value(v) && real_value(now) == real_value(w));
}

/// The first record of a car stays as it was logged.
pub proof fn law_the_first_value_is_kept(before: Seq<TickRecord>, after: Seq<TickRecord>, cars: int, car: int)
    requires
        after.len() == before.len(),
        forall|s: int| 0 <= s < after.len() ==> handbrake_rebuilt(before, #[trigger] after[s], s, cars),
    ensures
        record_of(after, 0, car) == record_of(before, 0, car),
{
    if after.len() > 0 {
        assert(handbrake_rebuilt(before, after[0], 0, cars));
    }
}

/// The closest whole number.
proof fn lemma_closest(a: Single)
    requires
        a.finite(),
        !a.negative(),
        real_value(a) <= 1000000real,
    ensures
        ({
            let n = a.to_closest() as real;
            n <= real_value(a) + 1real / 2real && real_value(a) + 1real / 2real < n + 1real
        }),
        0 <= a.to_closest() <= 1000001,
{
    lemma_units();
    lemma_value(a);
    let one = 0x20_0000_0000_0000_0000_0000_0000_0000_0000_0000int;
    assert(pow2(149) as int == one);
    let (v, w) = (a.value(), 2 * one);
    let q = (v * 2 + one) / w;
    assert(q * w <= v * 2 + one < q * w + w) by (nonlinear_arith)
        requires
            q == (v * 2 + one) / w,
            w > 0,
    ;
    assert(q * (2 * one) <= v * 2 + one < q * (2 * one) + 2 * one);
    assert(q as real <= v as real / units() + 1real / 2real && v as real / units() + 1real / 2real < q as real + 1real);
}

/// A jump has lasted as many ticks as there are in its time, at 120 a second, to the closest.
proof fn lemma_jump_ticks(rec: CarRecord)
    requires
        rec.jump_time.finite(),
        0real <= real_value(rec.jump_time) <= 1000real,
    ensures
        ({
            let (n, x) = (jump_ticks(rec) as real, 120real * real_value(rec.jump_time));
            -51real <= 100real * (n - x) <= 51real
        }),
{
    lemma2_to64();
    lemma_speck();
    let rate = Single { bits: TICK_RATE };
    lemma_constant(TICK_RATE, 0xf0_0000, 17, 0x2_0000);
    assert(real_value(rate) == 120real);
    let t = real_value(rec.jump_time);
    assert(slack(1000real, 0real, 120real, 0real) <= 1real / 100real && (1000real + 0real) * (120real + 0real) == 120000real)
        by (nonlinear_arith);
    lemma_times(rec.jump_time, t, 0real, rate, 120real, 0real, 1000real, 120real, 1real / 100real);
    lemma_swap(t, 120real);
    let p = rec.jump_time.times(rate);
    lemma_value(p);
    lemma_value(rec.jump_time);
    lemma_value(rate);
    law_product_sign(rec.jump_time, rate);
    if p.negative() {
        assert(rec.jump_time.negative());
        assert(t == 0real);
        assert(jump_ticks(rec) == 0);
    } else {
        lemma_closest(p);
    }
}

/// The jump flag, once sustained, goes by this alone: a pulse on the ground sets it; set, it stays set through the first two ticks of the
/// jump whatever the button, and until the 24th while the button is held; without a pulse on the ground it is not set after that, nor if
/// it was not set the tick before. Nothing else in a record has a say in it, and nothing else in a record changes.
pub proof fn law_sustained_flags_follow_the_jump(before: Seq<TickRecord>, after: Seq<TickRecord>, cars: int, car: int, t: int)
    requires
        after.len() == before.len(),
        forall|s: int| 0 <= s < after.len() ==> jump_sustained(before, #[trigger] after[s], s, cars),
        0 <= car < cars,
        0 <= t,
        record_of(before, t, car) is Some,
        record_of(before, t, car)->Some_0.jump_time.finite(),
        0real <= real_value(record_of(before, t, car)->Some_0.jump_time) <= 1000real,
    ensures
        record_of(after, t, car) is Some,
        ({
            let logged = record_of(before, t, car)->Some_0;
            let now = record_of(after, t, car)->Some_0;
            let was = t > 0 && record_of(after, t - 1, car) is Some && record_of(after, t - 1, car)->Some_0.is_jumping;
            let pulse = logged.is_jumping && logged.is_on_ground;
            let ticks = 120real * real_value(logged.jump_time);
            &&& pulse ==> now.is_jumping
            &&& was && 100real * ticks < 249real ==> now.is_jumping
            &&& was && logged.prev_controls.jump && 100real * ticks < 2349real ==> now.is_jumping
            &&& !pulse && !was ==> !now.is_jumping
            &&& !pulse && 100real * ticks > 2351real ==> !now.is_jumping
            &&& !pulse && !logged.prev_controls.jump && 100real * ticks > 251real ==> !now.is_jumping
            &&& now == (CarRecord { is_jumping: now.is_jumping, ..logged })
        }),
{
    assert(jump_sustained(before, after[t], t, cars));
    let logged = record_of(before, t, car)->Some_0;
    lemma_jump_ticks(logged);
    if t > 0 {
        assert(jump_sustained(before, after[t - 1], t - 1, cars));
        assert(record_of(before, t - 1, car) is Some == record_of(after, t - 1, car) is Some);
        if record_of(after, t - 1, car) is Some {
            assert(after[t - 1].car_records@[car].is_jumping == jump_active(before, car, t - 1));
        } else {
            assert(!jump_active(before, car, t - 1));
        }
    } else {
        assert(!jump_active(before, car, -1));
    }
    assert(after[t].car_records@[car].is_jumping == jump_active(before, car, t));
    let (n, x) = (jump_ticks(logged), 120real * real_value(logged.jump_time));
    assert(100real * x < 249real ==> n < 3);
    assert(100real * x < 2349real ==> n < 24);
    assert(100real * x > 2351real ==> n >= 24);
    assert(100real * x > 251real ==> n >= 3);
}

/// A button triggers an impulse where a record shows a jump or a flip, whatever else it shows.
pub proof fn law_jumps_and_flips_are_impulses(a: Seq<TickRecord>, b: Seq<TickRecord>, t: int, car: int)
    requires
        record_of(a, t, car) is Some,
        record_of(b, t, car) is Some,
        record_of(a, t, car)->Some_0.is_jumping == record_of(b, t, car)->Some_0.is_jumping,
        record_of(a, t, car)->Some_0.is_flipping == record_of(b, t, car)->Some_0.is_flipping,
    ensures
        impulse_onset(a, t, car) == impulse_onset(b, t, car),
        record_of(a, t, car)->Some_0.is_jumping ==> impulse_onset(a, t, car),
        record_of(a, t, car)->Some_0.is_flipping ==> impulse_onset(a, t, car),
        !record_of(a, t, car)->Some_0.is_jumping && !record_of(a, t, car)->Some_0.is_flipping ==> !impulse_onset(a, t, car),
{
}

/// Two cars that are both there are near each other mutually.
pub proof fn law_nearness_is_mutual(ticks: Seq<TickRecord>, t: int, a: int, b: int)
    requires
        record_of(ticks, t, a) is Some,
        record_of(ticks, t, b) is Some,
        !record_of(ticks, t, a)->Some_0.is_demoed,
        !record_of(ticks, t, b)->Some_0.is_demoed,
    ensures
        is_near(ticks, t, a, b) == is_near(ticks, t, b, a),
{
    let p = record_of(ticks, t, a)->Some_0.phys.pos;
    let q = record_of(ticks, t, b)->Some_0.phys.pos;
    law_difference_mirrors(p.x, q.x);
    law_difference_mirrors(p.y, q.y);
    law_difference_mirrors(p.z, q.z);
}

/// How a length compares with a mark.
proof fn lemma_length_order(v: Vec3A, mark: Single, m: real)
    requires
        v.finite(),
        sized(point(v), 30000real),
        within(mark, m, 0real),
        1real <= 10real * m,
        m <= 1000real,
    ensures
        v.length().finite(),
        v.length().less(mark) ==> inner(point(v), point(v)) < (m + 1real / 100real) * (m + 1real / 100real),
        v.length().at_most(mark) ==> inner(point(v), point(v)) < (m + 1real / 100real) * (m + 1real / 100real),
        inner(point(v), point(v)) < (m - 1real / 100real) * (m - 1real / 100real) ==> v.length().less(mark)
            && v.length().at_most(mark) && !mark.less(v.length()),
        mark.less(v.length()) ==> inner(point(v), point(v)) > (m - 1real / 100real) * (m - 1real / 100real),
        inner(point(v), point(v)) > (m + 1real / 100real) * (m + 1real / 100real) ==> mark.less(v.length()) && !v.length().at_most(
            mark,
        ),
{
    lemma_any_length(v);
    let (r, x) = (real_value(v.length()), inner(point(v), point(v)));
    lemma_order(v.length(), mark);
    lemma_order(mark, v.length());
    let h = 1real / 100real;
    let (low, high) = (m - h, m + h);
    lemma_square_of_sum(m, h);
    lemma_square_of_sum(m, -h);
    lemma_spread(m, h, h);
    assert(m * h == m / 100real && h * h == 1real / 10000real && (-h) * (-h) == h * h) by (nonlinear_arith)
        requires
            h == 1real / 100real,
    ;
    if r <= m {
        lemma_scaled(r, r, m);
        lemma_scaled(m, r, m);
        lemma_swap(r, m);
        assert(r * r <= m * m);
        lemma_bounded(m, m, 1000real, 1000real);
        assert(1000real * 1000real == 1000000real) by (nonlinear_arith);
        assert(m * m <= 1000real * m) by {
            lemma_scaled(m, m, 1000real);
            lemma_swap(m, 1000real);
        }
        assert(x < high * high);
    }
    if r >= m {
        lemma_scaled(r, m, r);
        lemma_scaled(m, m, r);
        lemma_swap(r, m);
        assert(r * r >= m * m);
        assert(m * m <= 1000real * m) by {
            lemma_scaled(m, m, 1000real);
            lemma_swap(m, 1000real);
        }
        assert(x > low * low);
    }
}

/// Two cars are near each other where their centres are less than 240 apart, and the other one is not demolished.
pub proof fn law_near_is_less_than_the_proximity(ticks: Seq<TickRecord>, t: int, car: int, other: int)
    requires
        record_of(ticks, t, car) is Some,
        record_of(ticks, t, other) is Some,
        record_of(ticks, t, car)->Some_0.phys.pos.finite() && sized(point(record_of(ticks, t, car)->Some_0.phys.pos), 10000real),
        record_of(ticks, t, other)->Some_0.phys.pos.finite() && sized(
            point(record_of(ticks, t, other)->Some_0.phys.pos),
            10000real,
        ),
    ensures
        ({
            let (a, b) = (record_of(ticks, t, car)->Some_0, record_of(ticks, t, other)->Some_0);
            let way = point(b.phys.pos.minus(a.phys.pos));
            &&& near(b.phys.pos.minus(a.phys.pos), taken(point(b.phys.pos), point(a.phys.pos)), 1real / 500real)
            &&& is_near(ticks, t, car, other) ==> !b.is_demoed && inner(way, way) < 24001real / 100real * (24001real / 100real)
            &&& !b.is_demoed && inner(way, way) < 23999real / 100real * (23999real / 100real) ==> is_near(ticks, t, car, other)
        }),
{
    lemma2_to64();
    let mark = Single { bits: BUMP_PROXIMITY };
    lemma_constant(BUMP_PROXIMITY, 0xf0_0000, 16, 0x1_0000);
    assert(within(mark, 240real, 0real));
    let (a, b) = (record_of(ticks, t, car)->Some_0.phys.pos, record_of(ticks, t, other)->Some_0.phys.pos);
    lemma_vector_minus(b, point(b), 0real, a, point(a), 0real, 20000real);
    lemma_length_order(b.minus(a), mark, 240real);
}

/// The time of some ticks, 120 of which are a second.
proof fn lemma_stride(stride: usize)
    requires
        1 <= stride <= 64,
    ensures
        within(
            (Single { bits: TICK_TIME }).times(Single::of_integer(stride as int)),
            stride as real / 120real,
            1real / 2000000real,
        ),
{
    lemma2_to64();
    let tick = Single { bits: TICK_TIME };
    lemma_constant(TICK_TIME, 0x88_8889, 30, 0x4000_0000);
    lemma_count(stride as int);
    let n = stride as real;
    let (x, y, ex, ey) = (1real / 120real, 64real, 1real / 1000000000real, 64real / 16000000real);
    assert(within(tick, 1real / 120real, 1real / 1000000000real));
    assert(slack(x, ex, y, ey) <= 1real / 2000000real && (x + ex) * (y + ey) <= 1real && (x + ex) * (y + ey) >= 1real / 2real)
        by (nonlinear_arith)
        requires
            x == 1real / 120real,
            y == 64real,
            ex == 1real / 1000000000real,
            ey == 64real / 16000000real,
    ;
    lemma_times(
        tick,
        1real / 120real,
        1real / 1000000000real,
        Single::of_integer(stride as int),
        n,
        64real / 16000000real,
        1real / 120real,
        64real,
        1real / 2000000real,
    );
    assert(1real / 120real * n == n / 120real) by (nonlinear_arith);
}

/// A step from one record to another is off the frames where the car is there in both, the frames follow each other at the stride, the step
/// is no longer than 40, and it is off the way at the final velocity, for as many ticks as the stride, by more than a quarter; and only
/// there.
pub proof fn law_off_the_frames_is_off_the_way(from: CarRecord, to: CarRecord, stride: usize)
    requires
        1 <= stride <= 64,
        to.phys.pos.minus(from.phys.pos).finite() && sized(point(to.phys.pos.minus(from.phys.pos)), 100real),
        to.phys.lin_vel.finite() && sized(point(to.phys.lin_vel), 10000real),
    ensures
        ({
            let step = point(to.phys.pos.minus(from.phys.pos));
            let way = stretched(point(to.phys.lin_vel), stride as real / 120real);
            let off = taken(step, way);
            let follows = to.phys.physics_frame == from.phys.physics_frame + stride;
            &&& off_the_frames(from, to, stride) ==> {
                &&& !from.is_demoed && !to.is_demoed && follows
                &&& inner(step, step) < 4001real / 100real * (4001real / 100real)
                &&& !sized(off, 1real / 10real)
            }
            &&& {
                &&& !from.is_demoed && !to.is_demoed && follows
                &&& inner(step, step) < 3999real / 100real * (3999real / 100real)
                &&& off.0 > 3real / 10real || off.0 < -(3real / 10real) || off.1 > 3real / 10real || off.1 < -(3real / 10real) || off.2
                    > 3real / 10real || off.2 < -(3real / 10real)
            } ==> off_the_frames(from, to, stride)
        }),
{
    lemma2_to64();
    let (teleport, quarter) = (Single { bits: MAX_STEP_DISPLACEMENT }, Single { bits: SUBFRAME_POS_RESIDUAL });
    lemma_constant(MAX_STEP_DISPLACEMENT, 0xa0_0000, 18, 0x4_0000);
    lemma_constant(SUBFRAME_POS_RESIDUAL, 0x80_0000, 25, 0x200_0000);
    assert(within(teleport, 40real, 0real) && within(quarter, 1real / 4real, 0real));
    let step = to.phys.pos.minus(from.phys.pos);
    lemma_length_order(step, teleport, 40real);
    let time = (Single { bits: TICK_TIME }).times(Single::of_integer(stride as int));
    lemma_stride(stride);
    let (v, s, t) = (point(to.phys.lin_vel), point(step), stride as real / 120real);
    let e = 1real / 2000000real;
    assert(slack(10000real, 0real, 1real, e) <= 6real / 1000real && (10000real + 0real) * (1real + e) <= 10001real && (10000real
        + 0real) * (1real + e) >= 10000real) by (nonlinear_arith)
        requires
            e == 1real / 2000000real,
    ;
    lemma_vector_scale(to.phys.lin_vel, v, 0real, time, t, e, 10000real, 1real, 6real / 1000real);
    lemma_bounded(v.0, t, 10000real, 1real);
    lemma_bounded(v.1, t, 10000real, 1real);
    lemma_bounded(v.2, t, 10000real, 1real);
    let way = stretched(v, t);
    lemma_vector_minus(step, s, 0real, to.phys.lin_vel.scale(time), way, 6real / 1000real, 10100real);
    let residual = step.minus(to.phys.lin_vel.scale(time));
    lemma_length_order(residual, quarter, 1real / 4real);
    let (r, off) = (point(residual), taken(s, way));
    assert(26real / 100real * (26real / 100real) == 676real / 10000real && 24real / 100real * (24real / 100real) == 576real
        / 10000real) by (nonlinear_arith);
    lemma_square_of_sum(r.0, 0real);
    lemma_square_of_sum(r.1, 0real);
    lemma_square_of_sum(r.2, 0real);
    if sized(off, 1real / 10real) {
        let m = 11real / 100real;
        lemma_bounded(r.0, r.0, m, m);
        lemma_bounded(r.1, r.1, m, m);
        lemma_bounded(r.2, r.2, m, m);
        assert(m * m == 121real / 10000real) by (nonlinear_arith)
            requires
                m == 11real / 100real,
        ;
    }
    lemma_big_square(r.0);
    lemma_big_square(r.1);
    lemma_big_square(r.2);
}

proof fn lemma_big_square(x: real)
    ensures
        x > 28real / 100real || x < -(28real / 100real) ==> x * x > 784real / 10000real,
{
    assert(x > 28real / 100real || x < -(28real / 100real) ==> x * x > 784real / 10000real) by (nonlinear_arith);
}

} // verus!
