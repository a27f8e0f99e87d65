//! What the rows of the ball's contact with the world ask for.
use crate::bounds::{
    added, inner, lemma_inner, lemma_minus, lemma_opposite, lemma_outer, lemma_plus, lemma_times, lemma_times_scale, lemma_vector_plus, near, outer, point,
    sized, slack, within,
};
use crate::bullet::body::RigidBody;
use crate::bullet::contact_solver_info::{ERP_2, SOR, SPLIT_IMPULSE_PENETRATION_THRESHOLD};
use crate::bullet::solver_body::SolverBody;
use crate::bullet::solver_constraint::Row;
use crate::bullet::special_contact::{
    closing_speed, leverage, max_recover, recoverable, special_contact_row, special_friction_row, SpecialAverage,
};
use crate::math::Vec3A;
use crate::reals::{lemma_bounded, lemma_scaled, lemma_spread, lemma_swap, lemma_triple_part};
use crate::single::{Single, ONE_BITS};
use crate::single_errors::{lemma_constant, lemma_order, lemma_quotient_close, lemma_speck, lemma_two, real_value};
use crate::single_laws::{law_nan_spreads, law_product_grows, law_sum_commutes, law_sum_grows, lemma_value};
use vstd::arithmetic::power2::lemma2_to64;
use vstd::prelude::*;

verus! {

/// How fast a point of a body moves that is at `rel_pos` from its centre.
pub open spec fn point_velocity(body: SolverBody, rel_pos: (real, real, real)) -> (real, real, real) {
    let straight = added(point(body.lin_vel), point(body.external_force_impulse));
    let spin = added(point(body.ang_vel), point(body.external_torque_impulse));
    added(straight, outer(spin, rel_pos))
}

/// The body moves and spins no faster than a game allows.
pub open spec fn moderate(body: SolverBody) -> bool {
    &&& body.lin_vel.finite() && sized(point(body.lin_vel), 1000real)
    &&& body.ang_vel.finite() && sized(point(body.ang_vel), 100real)
    &&& body.external_force_impulse.finite() && sized(point(body.external_force_impulse), 1000real)
    &&& body.external_torque_impulse.finite() && sized(point(body.external_torque_impulse), 100real)
}

/// `(r x d) . w` is `d . (w x r)`.
proof fn lemma_triple(r: (real, real, real), d: (real, real, real), w: (real, real, real))
    ensures
        inner(outer(r, d), w) == inner(d, outer(w, r)),
{
    lemma_triple_part(r.1, d.2, d.1, r.2, w.0);
    lemma_triple_part(r.2, d.0, d.2, r.0, w.1);
    lemma_triple_part(r.0, d.1, d.0, r.1, w.2);
    lemma_spread(d.0, w.1 * r.2, r.1 * w.2);
    lemma_spread(d.1, w.2 * r.0, r.2 * w.0);
    lemma_spread(d.2, w.0 * r.1, r.0 * w.1);
    lemma_swap(r.1, w.2);
    lemma_swap(r.2, w.0);
    lemma_swap(r.0, w.1);
}

proof fn lemma_inner_spreads(d: (real, real, real), p: (real, real, real), q: (real, real, real))
    ensures
        inner(d, added(p, q)) == inner(d, p) + inner(d, q),
{
    lemma_spread(d.0, p.0, q.0);
    lemma_spread(d.1, p.1, q.1);
    lemma_spread(d.2, p.2, q.2);
}

/// The closing speed along a direction is how fast the point of the body moves along it.
pub proof fn law_closing_speed_is_that_of_the_point(body: SolverBody, rel_pos: Vec3A, dir: Vec3A)
    requires
        moderate(body),
        rel_pos.finite(),
        sized(point(rel_pos), 16real),
        dir.finite(),
        sized(point(dir), 2real),
    ensures
        within(
            closing_speed(body, dir, rel_pos.cross(dir)),
            inner(point(dir), point_velocity(body, point(rel_pos))),
            1real / 25real,
        ),
        ({
            let x = inner(point(dir), point_velocity(body, point(rel_pos)));
            -51000real <= x <= 51000real
        }),
{
    let (r, d) = (point(rel_pos), point(dir));
    let (p, q) = (point(body.lin_vel), point(body.external_force_impulse));
    let (a, b) = (point(body.ang_vel), point(body.external_torque_impulse));
    lemma_vector_plus(body.lin_vel, p, 0real, body.external_force_impulse, q, 0real, 2000real);
    let (v, w) = (added(p, q), added(a, b));
    let vel = body.lin_vel.plus(body.external_force_impulse);
    let ev = 2000real / 16000000real;
    assert(slack(2real, 0real, 2000real, ev) <= 6real / 10000real && (2real + 0real) * (2000real + ev) <= 4001real && (2real
        + 0real) * (2000real + ev) >= 4000real && 2real * 2000real == 4000real) by (nonlinear_arith)
        requires
            ev == 2000real / 16000000real,
    ;
    lemma_inner(dir, d, 0real, vel, v, ev, 2real, 2000real, 4000real, 6real / 10000real);
    assert(slack(16real, 0real, 2real, 0real) <= 3real / 1000000real && (16real + 0real) * (2real + 0real) == 32real && 16real
        * 2real == 32real) by (nonlinear_arith);
    lemma_outer(rel_pos, r, 0real, dir, d, 0real, 16real, 2real, 32real, 3real / 1000000real);
    let (torque, t) = (rel_pos.cross(dir), outer(r, d));
    lemma_vector_plus(body.ang_vel, a, 0real, body.external_torque_impulse, b, 0real, 200real);
    let spin = body.ang_vel.plus(body.external_torque_impulse);
    let (et, ew) = (14real / 1000000real, 200real / 16000000real);
    assert(slack(64real, et, 200real, ew) <= 5real / 1000real && (64real + et) * (200real + ew) <= 12801real && (64real + et) * (
    200real + ew) >= 12800real && 64real * 200real == 12800real) by (nonlinear_arith)
        requires
            et == 14real / 1000000real,
            ew == 200real / 16000000real,
    ;
    lemma_inner(torque, t, et, spin, w, ew, 64real, 200real, 12800real, 5real / 1000real);
    lemma_plus(
        dir.dot(vel),
        inner(d, v),
        5real / 1000real,
        torque.dot(spin),
        inner(t, w),
        24real / 1000real,
        50400real,
    );
    lemma_triple(r, d, w);
    lemma_inner_spreads(d, v, outer(w, r));
}

/// The row of the contact asks for the impulse that leaves the point moving along the normal with the
/// restitution: the change of speed that is missing, times the scale of the row. It only ever pushes.
pub proof fn law_contact_row_brings_the_restitution(
    average: SpecialAverage,
    friction: Single,
    body: RigidBody,
    solver_body: SolverBody,
    time_step: Single,
    restitution: Single,
)
    requires
        moderate(solver_body),
        average.rel_pos.finite(),
        sized(point(average.rel_pos), 16real),
        average.normal.finite(),
        sized(point(average.normal), 2real),
        restitution.finite(),
        -1000real <= real_value(restitution) <= 1000real,
        leverage(body, average.rel_pos, average.normal).2.finite(),
        1real <= 1000000real * real_value(leverage(body, average.rel_pos, average.normal).2),
        real_value(leverage(body, average.rel_pos, average.normal).2) <= 1000000real,
        !(Single { bits: SPLIT_IMPULSE_PENETRATION_THRESHOLD }).less(recoverable(average.penetration, body, time_step)),
    ensures
        ({
            let row = special_contact_row(average, friction, body, solver_body, time_step, restitution);
            let speed = inner(point(average.normal), point_velocity(solver_body, point(average.rel_pos)));
            let scale = real_value(row.jac_diag_ab_inv);
            &&& within(row.rhs, (real_value(restitution) - speed) * scale, 1real / 20real * scale)
            &&& row.contact_normal_1 == average.normal
            &&& row.friction == friction
            &&& real_value(row.lower_limit) == 0real
        }),
{
    let (angular, torque, scale) = leverage(body, average.rel_pos, average.normal);
    let speed = inner(point(average.normal), point_velocity(solver_body, point(average.rel_pos)));
    law_closing_speed_is_that_of_the_point(solver_body, average.rel_pos, average.normal);
    let closing = closing_speed(solver_body, average.normal, torque);
    let r = real_value(restitution);
    lemma_minus(restitution, r, 0real, closing, speed, 1real / 25real, 52000real);
    lemma_times_scale(
        restitution.minus(closing),
        r - speed,
        1real / 25real + (52000real + 1real / 25real) / 16000000real,
        52000real,
        scale,
        1real / 20real,
    );
    lemma_value(Single { bits: 0 });
}

/// A larger restitution asks for no smaller impulse, and leaves everything else in the row as it is.
pub proof fn law_more_restitution_asks_for_more(
    average: SpecialAverage,
    friction: Single,
    body: RigidBody,
    solver_body: SolverBody,
    time_step: Single,
    low: Single,
    high: Single,
)
    requires
        low.at_most(high),
        !leverage(body, average.rel_pos, average.normal).2.negative(),
        !special_contact_row(average, friction, body, solver_body, time_step, low).rhs.is_a_nan(),
        !special_contact_row(average, friction, body, solver_body, time_step, high).rhs.is_a_nan(),
    ensures
        ({
            let less = special_contact_row(average, friction, body, solver_body, time_step, low);
            let more = special_contact_row(average, friction, body, solver_body, time_step, high);
            &&& less.rhs.at_most(more.rhs)
            &&& less == (Row { rhs: less.rhs, ..more })
        }),
{
    let (angular, torque, scale) = leverage(body, average.rel_pos, average.normal);
    let closing = closing_speed(solver_body, average.normal, torque);
    let (a, b) = (low.minus(closing), high.minus(closing));
    let penetration = recoverable(average.penetration, body, time_step);
    let positional_error = if (Single { bits: 0 }).less(penetration) {
        Single { bits: 0 }
    } else {
        penetration.negate().times(Single { bits: ERP_2 }).times((Single { bits: ONE_BITS }).over(time_step))
    };
    let push = positional_error.times(scale);
    let together = (Single { bits: SPLIT_IMPULSE_PENETRATION_THRESHOLD }).less(penetration);
    if together {
        law_sum_commutes(push, a.times(scale));
        law_sum_commutes(push, b.times(scale));
        if a.times(scale).is_a_nan() {
            law_nan_spreads(a.times(scale), push);
        }
        if b.times(scale).is_a_nan() {
            law_nan_spreads(b.times(scale), push);
        }
    }
    if a.is_a_nan() {
        law_nan_spreads(a, scale);
    }
    if b.is_a_nan() {
        law_nan_spreads(b, scale);
    }
    law_sum_grows(low, high, closing.opposite());
    law_product_grows(a, b, scale);
    if together {
        law_sum_grows(a.times(scale), b.times(scale), push);
    }
}

/// The value of the part of a penetration that is pushed apart in a step, 0.8.
proof fn lemma_erp()
    ensures
        within(Single { bits: ERP_2 }, 4real / 5real, 1real / 10000000real),
{
    lemma2_to64();
    lemma_constant(ERP_2, 0xcc_cccd, 24, 0x100_0000);
}

/// How deep a body is in that a step brings out: no deeper than `most`.
pub open spec fn depth(penetration: real, most: real) -> real {
    if penetration >= 0real {
        0real
    } else if -penetration <= most {
        -penetration
    } else {
        most
    }
}

/// The row pushes a penetration apart on its own: four fifths of it in a step, and none where the body does not
/// overlap. It asks for no velocity on that account.
pub proof fn law_contact_row_pushes_a_penetration_apart(
    average: SpecialAverage,
    friction: Single,
    body: RigidBody,
    solver_body: SolverBody,
    time_step: Single,
    restitution: Single,
)
    requires
        average.penetration.finite(),
        -10real <= real_value(average.penetration) <= 1000000real,
        max_recover(body, time_step).finite(),
        0real <= real_value(max_recover(body, time_step)),
        time_step.finite(),
        1real <= 1000real * real_value(time_step),
        real_value(time_step) <= 1real,
        leverage(body, average.rel_pos, average.normal).2.finite(),
        1real <= 1000000real * real_value(leverage(body, average.rel_pos, average.normal).2),
        real_value(leverage(body, average.rel_pos, average.normal).2) <= 1000000real,
    ensures
        ({
            let row = special_contact_row(average, friction, body, solver_body, time_step, restitution);
            let deep = depth(real_value(average.penetration), real_value(max_recover(body, time_step)));
            let scale = real_value(row.jac_diag_ab_inv);
            &&& within(
                row.rhs_penetration,
                4real / 5real * (deep * (1real / real_value(time_step))) * scale,
                1real / 50real * scale,
            )
            &&& forall|gap: Single| #![trigger recoverable(gap, body, time_step)]
                gap.finite() && -10real <= real_value(gap) <= 1000000real ==> row.rhs == special_contact_row(
                    SpecialAverage { penetration: gap, ..average },
                    friction,
                    body,
                    solver_body,
                    time_step,
                    restitution,
                ).rhs
        }),
{
    lemma_speck();
    let most = max_recover(body, time_step);
    let m = real_value(most);
    lemma_opposite(most, m, 0real);
    assert forall|gap: Single| #![trigger recoverable(gap, body, time_step)]
        gap.finite() && -10real <= real_value(gap) <= 1000000real implies !(Single {
        bits: SPLIT_IMPULSE_PENETRATION_THRESHOLD,
    }).less(recoverable(gap, body, time_step)) by {
        lemma_split();
        let rec = recoverable(gap, body, time_step);
        lemma_order(Single { bits: SPLIT_IMPULSE_PENETRATION_THRESHOLD }, rec);
    }
    let gap = average.penetration;
    let rec = recoverable(gap, body, time_step);
    assert(!(Single { bits: SPLIT_IMPULSE_PENETRATION_THRESHOLD }).less(rec));
    let (g, x) = (real_value(gap), real_value(rec));
    lemma_order(gap, most.negate());
    assert(x == if g < -m {
        -m
    } else {
        g
    });
    let (angular, torque, scale) = leverage(body, average.rel_pos, average.normal);
    let k = real_value(scale);
    let zero = Single { bits: 0 };
    lemma_value(zero);
    lemma_order(zero, rec);
    let deep = depth(g, m);
    let dt = real_value(time_step);
    let inv = 1real / dt;
    let one = Single { bits: ONE_BITS };
    lemma_two();
    lemma_quotient_close(one, time_step);
    assert(0real <= inv <= 1000real && inv * dt == 1real) by (nonlinear_arith)
        requires
            inv == 1real / dt,
            1real <= 1000real * dt,
    ;
    let err = if x > 0real {
        zero
    } else {
        rec.negate().times(Single { bits: ERP_2 }).times(one.over(time_step))
    };
    let want = 4real / 5real * (deep * inv);
    if x > 0real {
        assert(deep == 0real);
        assert(want == 0real) by {
            lemma_swap(0real, inv);
            lemma_spread(inv, 0real, 0real);
        }
    } else {
        assert(-x == deep);
        lemma_erp();
        lemma_opposite(rec, x, 0real);
        let (e1, e2) = (1real / 10000000real, 1000real / 16000000real);
        assert(slack(10real, 0real, 4real / 5real, e1) <= 2real / 1000000real && (10real + 0real) * (4real / 5real + e1) <= 9real
            && (10real + 0real) * (4real / 5real + e1) >= 8real) by (nonlinear_arith)
            requires
                e1 == 1real / 10000000real,
        ;
        lemma_times(
            rec.negate(),
            deep,
            0real,
            Single { bits: ERP_2 },
            4real / 5real,
            e1,
            10real,
            4real / 5real,
            2real / 1000000real,
        );
        let f = 2real / 1000000real;
        lemma_bounded(deep, 4real / 5real, 10real, 4real / 5real);
        assert(10real * (4real / 5real) == 8real) by (nonlinear_arith);
        assert(slack(8real, f, 1000real, e2) <= 1real / 200real && (8real + f) * (1000real + e2) <= 8100real && (8real + f) * (
        1000real + e2) >= 8000real) by (nonlinear_arith)
            requires
                f == 2real / 1000000real,
                e2 == 1000real / 16000000real,
        ;
        lemma_times(
            rec.negate().times(Single { bits: ERP_2 }),
            deep * (4real / 5real),
            f,
            one.over(time_step),
            inv,
            e2,
            8real,
            1000real,
            1real / 200real,
        );
        assert((deep * (4real / 5real)) * inv == 4real / 5real * (deep * inv)) by (nonlinear_arith);
    }
    lemma_bounded(deep, inv, 10real, 1000real);
    assert(10real * 1000real == 10000real) by (nonlinear_arith);
    assert(within(err, want, 1real / 200real));
    lemma_times_scale(err, want, 1real / 200real, 8000real, scale, 1real / 50real);
}

/// The threshold beyond which a push is part of the velocity is far off.
proof fn lemma_split()
    ensures
        (Single { bits: SPLIT_IMPULSE_PENETRATION_THRESHOLD }).finite(),
        real_value(Single { bits: SPLIT_IMPULSE_PENETRATION_THRESHOLD }) > 1000000real,
{
    let far = Single { bits: SPLIT_IMPULSE_PENETRATION_THRESHOLD };
    let near = Single { bits: 0x4980_0000 };
    lemma2_to64();
    lemma_constant(0x4980_0000, 0x80_0000, 3, 8);
    lemma_order(near, far);
}

/// The scale of a row turns a change of speed into an impulse: what one unit of impulse along the direction, at
/// the point, changes the speed of the point by, times the scale, is 1. That change is the part of the mass, and the
/// part of the spin that the torque of the impulse makes.
pub proof fn law_scale_undoes_the_effect_of_an_impulse(body: RigidBody, rel_pos: Vec3A, dir: Vec3A)
    requires
        rel_pos.finite(),
        sized(point(rel_pos), 4real),
        dir.finite(),
        sized(point(dir), 2real),
        body.inv_mass.finite(),
        0real <= real_value(body.inv_mass) <= 10real,
        body.inv_inertia_tensor_world.x_axis.finite(),
        body.inv_inertia_tensor_world.y_axis.finite(),
        body.inv_inertia_tensor_world.z_axis.finite(),
        sized(point(body.inv_inertia_tensor_world.x_axis), 1real),
        sized(point(body.inv_inertia_tensor_world.y_axis), 1real),
        sized(point(body.inv_inertia_tensor_world.z_axis), 1real),
        1real <= 100real * effect(body, point(rel_pos), point(dir)),
    ensures
        leverage(body, rel_pos, dir).2.finite(),
        0real < real_value(leverage(body, rel_pos, dir).2),
        ({
            let scale = real_value(leverage(body, rel_pos, dir).2);
            let whole = scale * effect(body, point(rel_pos), point(dir));
            -(scale / 250real + 1real / 1000000real) <= whole - 1real <= scale / 250real + 1real / 1000000real
        }),
        near(leverage(body, rel_pos, dir).0, spun(body, outer(point(rel_pos), point(dir))), 3real / 100000real),
        near(leverage(body, rel_pos, dir).1, outer(point(rel_pos), point(dir)), 4real / 1000000real),
{
    let (r, d) = (point(rel_pos), point(dir));
    assert(slack(4real, 0real, 2real, 0real) <= 1real / 1000000real && (4real + 0real) * (2real + 0real) == 8real && 4real * 2real
        == 8real) by (nonlinear_arith);
    lemma_outer(rel_pos, r, 0real, dir, d, 0real, 4real, 2real, 8real, 1real / 1000000real);
    let (torque, t) = (rel_pos.cross(dir), outer(r, d));
    let et = 4real / 1000000real;
    let i = body.inv_inertia_tensor_world;
    assert(slack(1real, 0real, 16real, et) <= 6real / 1000000real && (1real + 0real) * (16real + et) <= 17real && (1real + 0real)
        * (16real + et) >= 16real && 1real * 16real == 16real) by (nonlinear_arith)
        requires
            et == 4real / 1000000real,
    ;
    lemma_inner(i.x_axis, point(i.x_axis), 0real, torque, t, et, 1real, 16real, 16real, 6real / 1000000real);
    lemma_inner(i.y_axis, point(i.y_axis), 0real, torque, t, et, 1real, 16real, 16real, 6real / 1000000real);
    lemma_inner(i.z_axis, point(i.z_axis), 0real, torque, t, et, 1real, 16real, 16real, 6real / 1000000real);
    let (angular, a) = (i.mul_transpose_vec3a(torque), spun(body, t));
    let ea = 3real / 100000real;
    assert(near(angular, a, ea) && sized(a, 48real));
    assert(slack(48real, ea, 4real, 0real) <= 2real / 10000real && (48real + ea) * (4real + 0real) <= 193real && (48real + ea) * (
    4real + 0real) >= 192real && 48real * 4real == 192real) by (nonlinear_arith)
        requires
            ea == 3real / 100000real,
    ;
    lemma_outer(angular, a, ea, rel_pos, r, 0real, 48real, 4real, 192real, 2real / 10000real);
    let (moved, v) = (angular.cross(rel_pos), outer(a, r));
    let ev = 45real / 100000real;
    assert(slack(2real, 0real, 384real, ev) <= 1real / 1000real && (2real + 0real) * (384real + ev) <= 769real && (2real + 0real)
        * (384real + ev) >= 768real && 2real * 384real == 768real) by (nonlinear_arith)
        requires
            ev == 45real / 100000real,
    ;
    lemma_inner(dir, d, 0real, moved, v, ev, 2real, 384real, 768real, 1real / 1000real);
    lemma_triple(r, d, a);
    let mass = real_value(body.inv_mass);
    lemma_plus(body.inv_mass, mass, 0real, dir.dot(moved), inner(d, v), 36real / 10000real, 2400real);
    let denom = body.inv_mass.plus(dir.dot(moved));
    let (x, y) = (effect(body, r, d), real_value(denom));
    assert(x == mass + inner(d, v));
    let sor = Single { bits: SOR };
    lemma_two();
    lemma_quotient_close(sor, denom);
    lemma_speck();
    let k = real_value(sor.over(denom));
    let w = 1real / y;
    assert(w * y == 1real && w > 0real) by (nonlinear_arith)
        requires
            w == 1real / y,
            y > 0real,
    ;
    assert(w >= 1real / 10000real) by (nonlinear_arith)
        requires
            w * y == 1real,
            0real < y <= 10000real,
    ;
    let h = w / 16000000real;
    assert(-h <= k - w <= h);
    lemma_bounded(k - w, y, h, y);
    lemma_swap(k - w, y);
    lemma_spread(y, k, w);
    lemma_swap(y, w);
    assert(h * y == 1real / 16000000real) by (nonlinear_arith)
        requires
            h == w / 16000000real,
            w * y == 1real,
    ;
    let b = 1real / 250real;
    lemma_scaled(k, x - y, b);
    lemma_scaled(k, -b, x - y);
    lemma_spread(k, x, y);
    lemma_spread(k, b, b);
    lemma_swap(k, y);
    assert(k * b == k / 250real) by (nonlinear_arith)
        requires
            b == 1real / 250real,
    ;
}

/// What a torque adds to the spin of a body.
pub open spec fn spun(body: RigidBody, torque: (real, real, real)) -> (real, real, real) {
    let i = body.inv_inertia_tensor_world;
    (inner(point(i.x_axis), torque), inner(point(i.y_axis), torque), inner(point(i.z_axis), torque))
}

/// By so much an impulse of 1 along `dir`, at `rel_pos` from the centre of a body, changes the speed of the point
/// there along `dir`.
pub open spec fn effect(body: RigidBody, rel_pos: (real, real, real), dir: (real, real, real)) -> real {
    real_value(body.inv_mass) + inner(outer(rel_pos, dir), spun(body, outer(rel_pos, dir)))
}

/// The row of the friction asks for the impulse that stops the point along its direction, and it may use up to the
/// friction either way.
pub proof fn law_friction_row_stops_the_slide(
    average: SpecialAverage,
    friction: Single,
    body: RigidBody,
    solver_body: SolverBody,
    dir: Vec3A,
)
    requires
        moderate(solver_body),
        average.rel_pos.finite(),
        sized(point(average.rel_pos), 16real),
        dir.finite(),
        sized(point(dir), 2real),
        friction.finite(),
        leverage(body, average.rel_pos, dir).2.finite(),
        1real <= 1000000real * real_value(leverage(body, average.rel_pos, dir).2),
        real_value(leverage(body, average.rel_pos, dir).2) <= 1000000real,
    ensures
        ({
            let row = special_friction_row(average, friction, body, solver_body, dir);
            let speed = inner(point(dir), point_velocity(solver_body, point(average.rel_pos)));
            let scale = real_value(row.jac_diag_ab_inv);
            &&& within(row.rhs, -speed * scale, 1real / 20real * scale)
            &&& row.contact_normal_1 == dir
            &&& real_value(row.lower_limit) == -real_value(friction)
            &&& real_value(row.upper_limit) == real_value(friction)
            &&& row.rhs_penetration == (Single { bits: 0 })
        }),
{
    let (angular, torque, scale) = leverage(body, average.rel_pos, dir);
    let speed = inner(point(dir), point_velocity(solver_body, point(average.rel_pos)));
    law_closing_speed_is_that_of_the_point(solver_body, average.rel_pos, dir);
    let closing = closing_speed(solver_body, dir, torque);
    lemma_opposite(closing, speed, 1real / 25real);
    lemma_opposite(friction, real_value(friction), 0real);
    lemma_times_scale(closing.negate(), -speed, 1real / 25real, 51000real, scale, 1real / 20real);
}

} // verus!
