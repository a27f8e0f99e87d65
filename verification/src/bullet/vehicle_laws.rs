//! What the wheels of a vehicle do to its body.
use crate::bounds::{added, inner, lemma_unit, lemma_vector_plus, near, point, sized, stretched};
use crate::bullet::body::RigidBody;
use crate::bullet::discrete_dynamics_world::DiscreteDynamicsWorld;
use crate::bullet::raycaster::{ClosestRays, VehicleRaycasterResult};
use crate::bullet::vehicle_rl::{
    drives, grips, normal_sum, pushed, springs, upwards, Suspension, VehicleRL, Velocities, WheelInfo, NUM_WHEELS,
};
use crate::math::Vec3A;
use crate::math_errors::lemma_has_unit;
use crate::reals::lemma_bounded;
use crate::single::{Single, ONE_BITS};
use crate::single_laws::{law_zero_stays_zero, lemma_signed, lemma_value};
use vstd::prelude::*;

verus! {

/// The same body, however it moves.
pub open spec fn only_velocities(a: RigidBody, b: RigidBody) -> bool {
    b == (RigidBody {
        lin_vel: b.lin_vel,
        ang_vel: b.ang_vel,
        accum_lin_vel: b.accum_lin_vel,
        accum_ang_vel: b.accum_ang_vel,
        ..a
    })
}

/// A body moves as `v` says.
pub open spec fn moves_by(body: RigidBody, v: Velocities) -> bool {
    &&& body.lin_vel == v.lin_vel
    &&& body.ang_vel == v.ang_vel
    &&& body.accum_lin_vel == v.accum_lin_vel
    &&& body.accum_ang_vel == v.accum_ang_vel
}

/// The suspension of each wheel finds the body as the wheel before it left it, and the last one leaves it as it moves then.
proof fn lemma_springs<W, S: Suspension<W>>(
    mechanics: &S,
    wheels: Seq<WheelInfo<W>>,
    i: nat,
    chassis: RigidBody,
    step: Single,
    out: Seq<WheelInfo<W>>,
    end: RigidBody,
)
    requires
        springs(mechanics, wheels, i, chassis, step, out, end),
        i <= wheels.len(),
    ensures
        out.len() == wheels.len(),
        only_velocities(chassis, end),
        forall|k: int| 0 <= k < i ==> #[trigger] out[k] == wheels[k],
        i == wheels.len() ==> end == chassis,
        i < wheels.len() ==> exists|v: Velocities| #[trigger]
            call_ensures(S::update_suspension, (mechanics, &wheels[i as int], &chassis, step), (out[i as int], v)),
        i < wheels.len() ==> exists|before: RigidBody, v: Velocities| #[trigger]
            call_ensures(
                S::update_suspension,
                (mechanics, &wheels[wheels.len() - 1], &before, step),
                (out[wheels.len() - 1], v),
            ) && moves_by(end, v),
    decreases wheels.len() - i,
{
    if i < wheels.len() {
        let (wheel, v) = choose|wheel: WheelInfo<W>, v: Velocities| #[trigger]
            call_ensures(S::update_suspension, (mechanics, &wheels[i as int], &chassis, step), (wheel, v)) && springs(
                mechanics,
                wheels.update(i as int, wheel),
                i + 1,
                pushed(chassis, v),
                step,
                out,
                end,
            );
        lemma_springs(mechanics, wheels.update(i as int, wheel), i + 1, pushed(chassis, v), step, out, end);
        assert(out[i as int] == wheels.update(i as int, wheel)[i as int]);
        assert(call_ensures(S::update_suspension, (mechanics, &wheels[i as int], &chassis, step), (out[i as int], v)));
        assert forall|k: int| 0 <= k < i implies #[trigger] out[k] == wheels[k] by {
            assert(out[k] == wheels.update(i as int, wheel)[k]);
        }
        if i + 1 == wheels.len() {
            assert(moves_by(end, v));
        }
    }
}

proof fn lemma_grips<W, S: Suspension<W>>(
    mechanics: &S,
    wheels: Seq<WheelInfo<W>>,
    i: nat,
    chassis: RigidBody,
    step: Single,
    out: Seq<WheelInfo<W>>,
    end: RigidBody,
)
    requires
        grips(mechanics, wheels, i, chassis, step, out, end),
        i <= wheels.len(),
    ensures
        out.len() == wheels.len(),
        only_velocities(chassis, end),
        forall|k: int| 0 <= k < i ==> #[trigger] out[k] == wheels[k],
        i == wheels.len() ==> end == chassis,
        i < wheels.len() ==> exists|v: Velocities| #[trigger]
            call_ensures(S::apply_friction_impulses, (mechanics, &wheels[i as int], &chassis, step), (out[i as int], v)),
        i < wheels.len() ==> exists|before: RigidBody, v: Velocities| #[trigger]
            call_ensures(
                S::apply_friction_impulses,
                (mechanics, &wheels[wheels.len() - 1], &before, step),
                (out[wheels.len() - 1], v),
            ) && moves_by(end, v),
    decreases wheels.len() - i,
{
    if i < wheels.len() {
        let (wheel, v) = choose|wheel: WheelInfo<W>, v: Velocities| #[trigger]
            call_ensures(S::apply_friction_impulses, (mechanics, &wheels[i as int], &chassis, step), (wheel, v)) && grips(
                mechanics,
                wheels.update(i as int, wheel),
                i + 1,
                pushed(chassis, v),
                step,
                out,
                end,
            );
        lemma_grips(mechanics, wheels.update(i as int, wheel), i + 1, pushed(chassis, v), step, out, end);
        assert(out[i as int] == wheels.update(i as int, wheel)[i as int]);
        assert(call_ensures(
            S::apply_friction_impulses,
            (mechanics, &wheels[i as int], &chassis, step),
            (out[i as int], v),
        ));
        assert forall|k: int| 0 <= k < i implies #[trigger] out[k] == wheels[k] by {
            assert(out[k] == wheels.update(i as int, wheel)[k]);
        }
        if i + 1 == wheels.len() {
            assert(moves_by(end, v));
        }
    }
}

/// The wheels change how the body moves, and nothing else about it. The first to push is the suspension of the first wheel, which
/// finds the body as it came; the last is the friction of the last wheel, and the body moves as that one leaves it.
pub proof fn law_wheels_push_in_turn<W, S: Suspension<W>>(
    mechanics: &S,
    wheels: Seq<WheelInfo<W>>,
    chassis: RigidBody,
    step: Single,
    out: Seq<WheelInfo<W>>,
    end: RigidBody,
)
    requires
        drives(mechanics, wheels, chassis, step, out, end),
        wheels.len() > 0,
    ensures
        out.len() == wheels.len(),
        only_velocities(chassis, end),
        exists|first: WheelInfo<W>, v: Velocities| #[trigger]
            call_ensures(S::update_suspension, (mechanics, &wheels[0], &chassis, step), (first, v)),
        exists|last: WheelInfo<W>, before: RigidBody, v: Velocities| #[trigger]
            call_ensures(S::apply_friction_impulses, (mechanics, &last, &before, step), (out[out.len() - 1], v)) && moves_by(
                end,
                v,
            ),
{
    let (sprung, lifted) = choose|sprung: Seq<WheelInfo<W>>, lifted: RigidBody| #[trigger]
        springs(mechanics, wheels, 0, chassis, step, sprung, lifted) && #[trigger] grips(
            mechanics,
            sprung,
            0,
            lifted,
            step,
            out,
            end,
        );
    lemma_springs(mechanics, wheels, 0, chassis, step, sprung, lifted);
    lemma_grips(mechanics, sprung, 0, lifted, step, out, end);
}

/// The bodies between the pushes of the suspensions.
proof fn lemma_springs_in_turn<W, S: Suspension<W>>(
    mechanics: &S,
    wheels: Seq<WheelInfo<W>>,
    i: nat,
    chassis: RigidBody,
    step: Single,
    out: Seq<WheelInfo<W>>,
    end: RigidBody,
) -> (way: Seq<RigidBody>)
    requires
        springs(mechanics, wheels, i, chassis, step, out, end),
        i <= wheels.len(),
    ensures
        out.len() == wheels.len(),
        forall|k: int| 0 <= k < i ==> #[trigger] out[k] == wheels[k],
        way.len() == wheels.len() - i + 1,
        way[0] == chassis && way.last() == end,
        forall|k: int|
            #![trigger way[k]]
            0 <= k < wheels.len() - i ==> exists|v: Velocities| #[trigger]
                call_ensures(S::update_suspension, (mechanics, &wheels[i + k], &way[k], step), (out[i + k], v)) && moves_by(way[k + 1], v)
                    && only_velocities(way[k], way[k + 1]),
    decreases wheels.len() - i,
{
    if i >= wheels.len() {
        seq![chassis]
    } else {
        let (wheel, v) = choose|wheel: WheelInfo<W>, v: Velocities| #[trigger]
            call_ensures(S::update_suspension, (mechanics, &wheels[i as int], &chassis, step), (wheel, v)) && springs(
                mechanics,
                wheels.update(i as int, wheel),
                i + 1,
                pushed(chassis, v),
                step,
                out,
                end,
            );
        let changed = wheels.update(i as int, wheel);
        let rest = lemma_springs_in_turn(mechanics, changed, i + 1, pushed(chassis, v), step, out, end);
        let way = seq![chassis] + rest;
        assert(out[i as int] == changed[i as int]);
        assert forall|k: int| 0 <= k < i implies #[trigger] out[k] == wheels[k] by {
            assert(out[k] == changed[k]);
        }
        assert(way.last() == rest.last());
        assert forall|k: int|
            #![trigger way[k]]
            0 <= k < wheels.len() - i implies exists|v: Velocities| #[trigger]
                call_ensures(S::update_suspension, (mechanics, &wheels[i + k], &way[k], step), (out[i + k], v)) && moves_by(way[k + 1], v)
                    && only_velocities(way[k], way[k + 1]) by {
            if k == 0 {
                assert(way[1] == rest[0]);
                assert(call_ensures(S::update_suspension, (mechanics, &wheels[i + k], &way[k], step), (out[i + k], v)));
            } else {
                assert(way[k] == rest[k - 1] && way[k + 1] == rest[k]);
                let u = choose|u: Velocities| #[trigger]
                    call_ensures(
                        S::update_suspension,
                        (mechanics, &changed[i + 1 + (k - 1)], &rest[k - 1], step),
                        (out[i + 1 + (k - 1)], u),
                    ) && moves_by(rest[k - 1 + 1], u) && only_velocities(rest[k - 1], rest[k - 1 + 1]);
                assert(changed[i + k] == wheels[i + k]);
                assert(call_ensures(S::update_suspension, (mechanics, &wheels[i + k], &way[k], step), (out[i + k], u)));
            }
        }
        way
    }
}

/// The bodies between the pushes of the friction.
proof fn lemma_grips_in_turn<W, S: Suspension<W>>(
    mechanics: &S,
    wheels: Seq<WheelInfo<W>>,
    i: nat,
    chassis: RigidBody,
    step: Single,
    out: Seq<WheelInfo<W>>,
    end: RigidBody,
) -> (way: Seq<RigidBody>)
    requires
        grips(mechanics, wheels, i, chassis, step, out, end),
        i <= wheels.len(),
    ensures
        out.len() == wheels.len(),
        forall|k: int| 0 <= k < i ==> #[trigger] out[k] == wheels[k],
        way.len() == wheels.len() - i + 1,
        way[0] == chassis && way.last() == end,
        forall|k: int|
            #![trigger way[k]]
            0 <= k < wheels.len() - i ==> exists|v: Velocities| #[trigger]
                call_ensures(S::apply_friction_impulses, (mechanics, &wheels[i + k], &way[k], step), (out[i + k], v)) && moves_by(way[k + 1], v)
                    && only_velocities(way[k], way[k + 1]),
    decreases wheels.len() - i,
{
    if i >= wheels.len() {
        seq![chassis]
    } else {
        let (wheel, v) = choose|wheel: WheelInfo<W>, v: Velocities| #[trigger]
            call_ensures(S::apply_friction_impulses, (mechanics, &wheels[i as int], &chassis, step), (wheel, v)) && grips(
                mechanics,
                wheels.update(i as int, wheel),
                i + 1,
                pushed(chassis, v),
                step,
                out,
                end,
            );
        let changed = wheels.update(i as int, wheel);
        let rest = lemma_grips_in_turn(mechanics, changed, i + 1, pushed(chassis, v), step, out, end);
        let way = seq![chassis] + rest;
        assert(out[i as int] == changed[i as int]);
        assert forall|k: int| 0 <= k < i implies #[trigger] out[k] == wheels[k] by {
            assert(out[k] == changed[k]);
        }
        assert(way.last() == rest.last());
        assert forall|k: int|
            #![trigger way[k]]
            0 <= k < wheels.len() - i implies exists|v: Velocities| #[trigger]
                call_ensures(S::apply_friction_impulses, (mechanics, &wheels[i + k], &way[k], step), (out[i + k], v)) && moves_by(way[k + 1], v)
                    && only_velocities(way[k], way[k + 1]) by {
            if k == 0 {
                assert(way[1] == rest[0]);
                assert(call_ensures(S::apply_friction_impulses, (mechanics, &wheels[i + k], &way[k], step), (out[i + k], v)));
            } else {
                assert(way[k] == rest[k - 1] && way[k + 1] == rest[k]);
                let u = choose|u: Velocities| #[trigger]
                    call_ensures(
                        S::apply_friction_impulses,
                        (mechanics, &changed[i + 1 + (k - 1)], &rest[k - 1], step),
                        (out[i + 1 + (k - 1)], u),
                    ) && moves_by(rest[k - 1 + 1], u) && only_velocities(rest[k - 1], rest[k - 1 + 1]);
                assert(changed[i + k] == wheels[i + k]);
                assert(call_ensures(S::apply_friction_impulses, (mechanics, &wheels[i + k], &way[k], step), (out[i + k], u)));
            }
        }
        way
    }
}

/// Every wheel pushes the body once by its suspension, and then every wheel, as its suspension left it, once by its friction; each finds the body
/// as the one before it left it, and changes nothing about it but how it moves.
pub proof fn law_every_wheel_pushes_once<W, S: Suspension<W>>(
    mechanics: &S,
    wheels: Seq<WheelInfo<W>>,
    chassis: RigidBody,
    step: Single,
    out: Seq<WheelInfo<W>>,
    end: RigidBody,
) -> (r: (Seq<WheelInfo<W>>, Seq<RigidBody>, Seq<RigidBody>))
    requires
        drives(mechanics, wheels, chassis, step, out, end),
    ensures
        ({
            let (sprung, up, on) = r;
            let n = wheels.len();
            &&& sprung.len() == n && out.len() == n && up.len() == n + 1 && on.len() == n + 1
            &&& up[0] == chassis && on[0] == up[n as int] && on[n as int] == end
            &&& forall|k: int|
                #![trigger up[k]]
                0 <= k < n ==> exists|v: Velocities| #[trigger]
                    call_ensures(S::update_suspension, (mechanics, &wheels[k], &up[k], step), (sprung[k], v)) && moves_by(
                        up[k + 1],
                        v,
                    ) && only_velocities(up[k], up[k + 1])
            &&& forall|k: int|
                #![trigger on[k]]
                0 <= k < n ==> exists|v: Velocities| #[trigger]
                    call_ensures(S::apply_friction_impulses, (mechanics, &sprung[k], &on[k], step), (out[k], v)) && moves_by(
                        on[k + 1],
                        v,
                    ) && only_velocities(on[k], on[k + 1])
        }),
{
    let (sprung, lifted) = choose|sprung: Seq<WheelInfo<W>>, lifted: RigidBody| #[trigger]
        springs(mechanics, wheels, 0, chassis, step, sprung, lifted) && #[trigger] grips(
            mechanics,
            sprung,
            0,
            lifted,
            step,
            out,
            end,
        );
    let up = lemma_springs_in_turn(mechanics, wheels, 0, chassis, step, sprung, lifted);
    let on = lemma_grips_in_turn(mechanics, sprung, 0, lifted, step, out, end);
    assert forall|k: int|
        #![trigger up[k]]
        0 <= k < wheels.len() implies exists|v: Velocities| #[trigger]
            call_ensures(S::update_suspension, (mechanics, &wheels[k], &up[k], step), (sprung[k], v)) && moves_by(up[k + 1], v)
                && only_velocities(up[k], up[k + 1]) by {
        let v = choose|v: Velocities| #[trigger]
            call_ensures(S::update_suspension, (mechanics, &wheels[0 + k], &up[k], step), (sprung[0 + k], v)) && moves_by(
                up[k + 1],
                v,
            ) && only_velocities(up[k], up[k + 1]);
        assert(call_ensures(S::update_suspension, (mechanics, &wheels[k], &up[k], step), (sprung[k], v)));
    }
    assert forall|k: int|
        #![trigger on[k]]
        0 <= k < wheels.len() implies exists|v: Velocities| #[trigger]
            call_ensures(S::apply_friction_impulses, (mechanics, &sprung[k], &on[k], step), (out[k], v)) && moves_by(on[k + 1], v)
                && only_velocities(on[k], on[k + 1]) by {
        let v = choose|v: Velocities| #[trigger]
            call_ensures(S::apply_friction_impulses, (mechanics, &sprung[0 + k], &on[k], step), (out[0 + k], v)) && moves_by(
                on[k + 1],
                v,
            ) && only_velocities(on[k], on[k + 1]);
        assert(call_ensures(S::apply_friction_impulses, (mechanics, &sprung[k], &on[k], step), (out[k], v)));
    }
    (sprung, up, on)
}

/// The sum of the normals of the first `n` wheels that touch the ground.
pub open spec fn pile<W>(wheels: Seq<WheelInfo<W>>, n: int) -> (real, real, real)
    decreases n,
{
    if n <= 0 {
        (0real, 0real, 0real)
    } else {
        match wheels[n - 1].raycast_info {
            Some(info) => added(pile(wheels, n - 1), point(info.contact_normal)),
            None => pile(wheels, n - 1),
        }
    }
}

/// The wheel touches no ground, or one with a plausible normal.
pub open spec fn plausible<W>(wheel: WheelInfo<W>) -> bool {
    wheel.raycast_info matches Some(info) ==> info.contact_normal.finite() && sized(point(info.contact_normal), 2real)
}

/// The sum of the normals is near what it should be.
proof fn lemma_pile<W>(wheels: Seq<WheelInfo<W>>, n: int)
    requires
        0 <= n <= wheels.len(),
        n <= 4,
        forall|k: int| 0 <= k < wheels.len() ==> plausible(#[trigger] wheels[k]),
    ensures
        near(normal_sum(wheels, n), pile(wheels, n), n as real / 1000000real),
        sized(pile(wheels, n), 2real * n as real),
    decreases n,
{
    if n > 0 {
        lemma_pile(wheels, n - 1);
        let m = n - 1;
        assert(n as real == m as real + 1real);
        assert(plausible(wheels[n - 1]));
        match wheels[n - 1].raycast_info {
            Some(info) => {
                lemma_vector_plus(
                    normal_sum(wheels, n - 1),
                    pile(wheels, n - 1),
                    m as real / 1000000real,
                    info.contact_normal,
                    point(info.contact_normal),
                    0real,
                    8real,
                );
            },
            None => {},
        }
    } else {
        lemma_value(Single { bits: 0 });
    }
}

/// The upward direction is that of the normals of the ground that the wheels touch, together, at unit length; and without ground
/// under any wheel that of the body itself.
pub proof fn law_upwards_is_away_from_the_ground<W>(wheels: Seq<WheelInfo<W>>, body: RigidBody) -> (c: real)
    requires
        wheels.len() == 4,
        forall|k: int| 0 <= k < wheels.len() ==> plausible(#[trigger] wheels[k]),
    ensures
        1real <= 4real * inner(pile(wheels, 4), pile(wheels, 4)) ==> {
            let way = stretched(pile(wheels, 4), c);
            &&& 0real < c
            &&& near(upwards(wheels, body), way, 1real / 10000real)
            &&& -1real <= 1000real * (inner(way, way) - 1real) <= 1real
        },
        (forall|k: int| 0 <= k < wheels.len() ==> (#[trigger] wheels[k]).raycast_info is None) ==> upwards(wheels, body)
            == body.world_trans.matrix3.z_axis,
{
    let sum = normal_sum(wheels, 4);
    let p = pile(wheels, 4);
    lemma_pile(wheels, 4);
    if forall|k: int| 0 <= k < wheels.len() ==> (#[trigger] wheels[k]).raycast_info is None {
        reveal_with_fuel(normal_sum, 5);
        assert(wheels[0].raycast_info is None && wheels[1].raycast_info is None && wheels[2].raycast_info is None
            && wheels[3].raycast_info is None);
        assert(sum == Vec3A::zero());
        lemma_no_direction();
    }
    if 1real <= 4real * inner(p, p) {
        let v = point(sum);
        lemma_square_near(v.0, p.0);
        lemma_square_near(v.1, p.1);
        lemma_square_near(v.2, p.2);
        let (e, l) = (1real / 50000real, 4real / 10real);
        assert(e * l == 8real / 1000000real && l * l == 16real / 100real) by (nonlinear_arith)
            requires
                e == 1real / 50000real,
                l == 4real / 10real,
        ;
        let c = lemma_unit(sum, p, e, l);
        assert(upwards(wheels, body) == sum.normalize_or_zero()) by {
            lemma_has_unit(sum);
        }
        c
    } else {
        1real
    }
}

/// Nothing has no direction.
proof fn lemma_no_direction()
    ensures
        Vec3A::zero().unit() is None,
{
    law_zero_stays_zero();
    reveal(Single::quotient);
    let one = Single { bits: ONE_BITS };
    lemma_signed(false, 0x7f80_0000);
    assert(Vec3A::zero().length() == (Single { bits: 0 }));
}

proof fn lemma_square_near(d: real, w: real)
    requires
        -4real <= 1000000real * (d - w) <= 4real,
        -8real <= w <= 8real,
    ensures
        -1real <= 1000real * (d * d - w * w) <= 1real,
        d * d <= 65real,
{
    lemma_bounded(d - w, d + w, 4real / 1000000real, 17real);
    assert((d - w) * (d + w) == d * d - w * w) by (nonlinear_arith);
    assert(4real / 1000000real * 17real <= 1real / 1000real) by (nonlinear_arith);
    lemma_bounded(w, w, 8real, 8real);
    assert(8real * 8real == 64real) by (nonlinear_arith);
}

/// Each wheel gets ready for its own ray, the rays are cast from and to where the wheels say, past the body of the vehicle, and each wheel feels
/// what its own ray hits. Which body the vehicle has, and how it casts rays, stays.
pub proof fn law_each_wheel_feels_its_own_ray<W: Copy, S: Suspension<W>, C: ClosestRays>(
    before: VehicleRL<W>,
    mechanics: &S,
    raycast: &C,
    world: DiscreteDynamicsWorld,
    time_step: Single,
    after: VehicleRL<W>,
) -> (r: (
    [WheelInfo<W>; NUM_WHEELS],
    [Vec3A; 4],
    [Vec3A; 4],
    [Option<VehicleRaycasterResult>; 4],
))
    requires
        before.feels_ground(mechanics, raycast, world, time_step, after),
    ensures
        ({
            let chassis = world.objs()[before.chassis_body_idx as int];
            let (ready, from, to, rays) = r;
            &&& before.raycaster.casts(raycast, world, from, to, &chassis, rays)
            &&& after.chassis_body_idx == before.chassis_body_idx
            &&& after.raycaster == before.raycaster
            &&& forall|i: int|
                0 <= i < 4 ==> (#[trigger] ready@[i]).raycast_info == before.wheels@[i].raycast_info && call_ensures(
                    S::prepare_for_raycast,
                    (mechanics, &before.wheels@[i], &chassis.world_trans),
                    (ready@[i].suspension, from@[i], to@[i]),
                )
            &&& forall|i: int|
                0 <= i < 4 ==> VehicleRL::<W>::feels(
                    mechanics,
                    ready@[i],
                    rays@[i],
                    chassis,
                    time_step,
                    i,
                    #[trigger] after.wheels@[i],
                )
        }),
{
    let chassis = world.objs()[before.chassis_body_idx as int];
    let (ready, sources, targets, rays) = choose|
        ready: [WheelInfo<W>; NUM_WHEELS],
        sources: [Vec3A; 4],
        targets: [Vec3A; 4],
        rays: [Option<VehicleRaycasterResult>; 4],
    |
        #![trigger before.raycaster.casts(raycast, world, sources, targets, &chassis, rays), ready@]
        (forall|i: int|
            0 <= i < NUM_WHEELS ==> (#[trigger] ready@[i]).raycast_info == before.wheels@[i].raycast_info && call_ensures(
                S::prepare_for_raycast,
                (mechanics, &before.wheels@[i], &chassis.world_trans),
                (ready@[i].suspension, sources@[i], targets@[i]),
            )) && before.raycaster.casts(raycast, world, sources, targets, &chassis, rays) && (forall|i: int|
            0 <= i < NUM_WHEELS ==> VehicleRL::<W>::feels(
                mechanics,
                ready@[i],
                rays@[i],
                chassis,
                time_step,
                i,
                #[trigger] after.wheels@[i],
            )) && after.raycaster == before.raycaster && after.chassis_body_idx == before.chassis_body_idx;
    (ready, sources, targets, rays)
}

/// A wheel whose ray hits is told of the hit, and whether it is one of the first two, those in front; a wheel whose ray hits nothing
/// is reset.
pub proof fn law_wheels_are_told_of_their_rays<W: Copy, S: Suspension<W>>(
    mechanics: &S,
    ready: WheelInfo<W>,
    ray: Option<VehicleRaycasterResult>,
    chassis: RigidBody,
    time_step: Single,
    i: int,
    after: WheelInfo<W>,
)
    requires
        VehicleRL::<W>::feels(mechanics, ready, ray, chassis, time_step, i, after),
        0 <= i < 4,
    ensures
        ray is None ==> call_ensures(S::reset_wheel_suspension, (mechanics, &ready), after),
        ray is Some && (i == 0 || i == 1) ==> call_ensures(
            S::apply_ray_cast,
            (mechanics, &ready, &chassis, &ray->Some_0, time_step, true),
            after,
        ),
        ray is Some && (i == 2 || i == 3) ==> call_ensures(
            S::apply_ray_cast,
            (mechanics, &ready, &chassis, &ray->Some_0, time_step, false),
            after,
        ),
{
}

/// Friction with the ground under a wheel depends on the body that is the ground there, and changes nothing about the wheel but the
/// impulse; a wheel in the air stays as it is.
pub proof fn law_friction_is_with_the_ground_under_the_wheel<W: Copy, S: Suspension<W>>(
    mechanics: &S,
    wheel: WheelInfo<W>,
    objs: Seq<RigidBody>,
    chassis: RigidBody,
    time_step: Single,
    after: WheelInfo<W>,
)
    requires
        VehicleRL::<W>::rubs(mechanics, wheel, objs, chassis, time_step, after),
    ensures
        wheel.raycast_info is None ==> after == wheel,
        wheel.raycast_info is Some ==> {
            let (ground, touch) = (wheel.raycast_info->Some_0, after.raycast_info->Some_0);
            &&& after.raycast_info is Some
            &&& after.suspension == wheel.suspension
            &&& touch.contact_normal == ground.contact_normal
            &&& touch.contact_point == ground.contact_point
            &&& touch.ground_body_idx == ground.ground_body_idx
            &&& call_ensures(
                S::calc_friction_impulses,
                (
                    mechanics,
                    &wheel,
                    &chassis,
                    &objs[ground.ground_body_idx as int],
                    ground.contact_normal,
                    ground.contact_point,
                    time_step,
                ),
                touch.impulse,
            )
        },
{
}

} // verus!
