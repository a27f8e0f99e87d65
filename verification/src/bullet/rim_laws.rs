//! Where the rim of a goal is, in game units.
use crate::bounds::{lemma_minus, lemma_plus, lemma_times, near, point, sized, slack, stretched, within};
use crate::bullet::sphere_concave_collision_alg::{
    closer_distance, entering_rim, in_game_units, may_reach_rim, near_crossbar, near_goal_face, near_post, sweep_resolvable,
    ADVANCE_LIMIT, CROSSBAR_RISE, FACING, POST_OVERHANG, RIM_DEPTH, RIM_REACH,
};
use crate::consts::{BT_TO_UU, SOCCAR_GOAL_HALF_WIDTH, SOCCAR_GOAL_HEIGHT, SOCCAR_GOAL_SCORE_BASE_THRESHOLD_Y};
use crate::math::Vec3A;
use crate::reals::{lemma_bounded, lemma_swap};
use crate::single::Single;
use crate::single_errors::{lemma_constant, lemma_order, lemma_product_close, lemma_speck, real_value, size};
use crate::single_laws::{law_product_sign, lemma_value};
use vstd::arithmetic::power2::lemma2_to64;
use vstd::prelude::*;

verus! {

/// The line of a goal, give or take its depth and `t`; `y` is in game units.
pub open spec fn at_face(y: real, t: real) -> bool {
    size(size(y) - 20497real / 4real) < 32real + t
}

/// A post, give or take its reach and `t`.
pub open spec fn at_post(x: real, z: real, t: real) -> bool {
    size(size(x) - 892755real / 1000real) < 160real + t && z < 762775real / 1000real + t
}

/// The crossbar, give or take its reach and `t`.
pub open spec fn at_crossbar(x: real, z: real, t: real) -> bool {
    size(z - 642775real / 1000real) < 160real + t && size(x) < 1052755real / 1000real + t
}

/// By so much a position in game units may be off.
pub open spec fn hair() -> real {
    1real / 200real
}

proof fn lemma_goal()
    ensures
        within(Single { bits: BT_TO_UU }, 50real, 0real),
        within(Single { bits: SOCCAR_GOAL_SCORE_BASE_THRESHOLD_Y }, 20497real / 4real, 0real),
        within(Single { bits: SOCCAR_GOAL_HALF_WIDTH }, 892755real / 1000real, 1real / 100000real),
        within(Single { bits: SOCCAR_GOAL_HEIGHT }, 642775real / 1000real, 1real / 10000real),
        within(Single { bits: RIM_DEPTH }, 32real, 0real),
        within(Single { bits: RIM_REACH }, 160real, 0real),
        within(Single { bits: POST_OVERHANG }, 120real, 0real),
        within(Single { bits: ADVANCE_LIMIT }, 1real / 4real, 0real),
        within(Single { bits: FACING }, 7real / 10real, 1real / 1000000real),
        within(Single { bits: CROSSBAR_RISE }, 5real / 1000real, 1real / 1000000real),
{
    lemma2_to64();
    lemma_constant(BT_TO_UU, 0xc8_0000, 18, 0x4_0000);
    lemma_constant(SOCCAR_GOAL_SCORE_BASE_THRESHOLD_Y, 0xa0_2200, 11, 0x800);
    lemma_constant(SOCCAR_GOAL_HALF_WIDTH, 0xdf_3052, 14, 0x4000);
    lemma_constant(SOCCAR_GOAL_HEIGHT, 0xa0_b19a, 14, 0x4000);
    lemma_constant(RIM_DEPTH, 0x80_0000, 18, 0x4_0000);
    lemma_constant(RIM_REACH, 0xa0_0000, 16, 0x1_0000);
    lemma_constant(POST_OVERHANG, 0xf0_0000, 17, 0x2_0000);
    lemma_constant(ADVANCE_LIMIT, 0x80_0000, 25, 0x200_0000);
    lemma_constant(FACING, 0xb3_3333, 24, 0x100_0000);
    lemma_constant(CROSSBAR_RISE, 0xa3_d70a, 31, 0x8000_0000);
}

proof fn lemma_abs(a: Single, x: real, e: real)
    requires
        within(a, x, e),
        0real <= e,
    ensures
        within(a.abs(), size(x), e),
{
    lemma_value(a);
    lemma_value(a.abs());
}

/// A coordinate in game units.
proof fn lemma_unit(a: Single)
    requires
        a.finite(),
        -200real <= real_value(a) <= 200real,
    ensures
        within(a.times(Single { bits: BT_TO_UU }), 50real * real_value(a), 1real / 1000real),
{
    lemma_goal();
    let x = real_value(a);
    assert(slack(200real, 0real, 50real, 0real) <= 1real / 1000real && (200real + 0real) * (50real + 0real) == 10000real)
        by (nonlinear_arith);
    lemma_times(a, x, 0real, Single { bits: BT_TO_UU }, 50real, 0real, 200real, 50real, 1real / 1000real);
    lemma_swap(x, 50real);
}

/// How far the size of a coordinate is from a mark.
proof fn lemma_off(a: Single, x: real, e: real, mark: Single, c: real)
    requires
        within(a, x, e),
        within(mark, c, 1real / 10000real),
        0real <= e <= 1real / 100real,
        -11000real <= x <= 11000real,
        0real <= c <= 6000real,
    ensures
        within(a.abs().minus(mark).abs(), size(size(x) - c), e + 12real / 10000real),
        within(a.minus(mark).abs(), size(x - c), e + 12real / 10000real),
        within(a.abs(), size(x), e),
{
    lemma_abs(a, x, e);
    lemma_minus(a.abs(), size(x), e, mark, c, 1real / 10000real, 17000real);
    lemma_minus(a, x, e, mark, c, 1real / 10000real, 17000real);
    lemma_abs(a.abs().minus(mark), size(x) - c, e + 12real / 10000real);
    lemma_abs(a.minus(mark), x - c, e + 12real / 10000real);
}

/// The parts of the rim, for a point in game units.
proof fn lemma_parts(p: Vec3A, g: Vec3A)
    requires
        p.finite(),
        sized(point(p), 200real),
        g == in_game_units(p),
    ensures
        ({
            let (x, y, z) = (50real * real_value(p.x), 50real * real_value(p.y), 50real * real_value(p.z));
            &&& near_goal_face(g) ==> at_face(y, hair())
            &&& at_face(y, -hair()) ==> near_goal_face(g)
            &&& near_post(g) ==> at_post(x, z, hair())
            &&& at_post(x, z, -hair()) ==> near_post(g)
            &&& near_crossbar(g) ==> at_crossbar(x, z, hair())
            &&& at_crossbar(x, z, -hair()) ==> near_crossbar(g)
        }),
{
    lemma_goal();
    let (x, y, z) = (50real * real_value(p.x), 50real * real_value(p.y), 50real * real_value(p.z));
    let (line, width, height) = (
        Single { bits: SOCCAR_GOAL_SCORE_BASE_THRESHOLD_Y },
        Single { bits: SOCCAR_GOAL_HALF_WIDTH },
        Single { bits: SOCCAR_GOAL_HEIGHT },
    );
    let (depth, reach, over) = (Single { bits: RIM_DEPTH }, Single { bits: RIM_REACH }, Single { bits: POST_OVERHANG });
    lemma_unit(p.x);
    lemma_unit(p.y);
    lemma_unit(p.z);
    lemma_off(g.y, y, 1real / 1000real, line, 20497real / 4real);
    lemma_off(g.x, x, 1real / 1000real, width, 892755real / 1000real);
    lemma_off(g.z, z, 1real / 1000real, height, 642775real / 1000real);
    lemma_order(g.y.abs().minus(line).abs(), depth);
    lemma_order(g.x.abs().minus(width).abs(), reach);
    lemma_order(g.z.minus(height).abs(), reach);
    lemma_plus(height, 642775real / 1000real, 1real / 10000real, over, 120real, 0real, 1000real);
    lemma_order(g.z, height.plus(over));
    lemma_plus(width, 892755real / 1000real, 1real / 100000real, reach, 160real, 0real, 2000real);
    lemma_order(g.x.abs(), width.plus(reach));
}

/// A product is positive where its factors have the same sign, and only there.
proof fn lemma_positive(a: Single, b: Single)
    requires
        a.finite(),
        b.finite(),
        size(real_value(a) * real_value(b)) <= 1000000000000real,
    ensures
        a.times(b).finite(),
        real_value(a.times(b)) > 0real ==> real_value(a) * real_value(b) > 0real,
        1000000real * (real_value(a) * real_value(b)) >= 1real ==> real_value(a.times(b)) > 0real,
{
    lemma_speck();
    lemma_product_close(a, b);
    let (x, y) = (real_value(a), real_value(b));
    if real_value(a.times(b)) > 0real && x * y <= 0real {
        law_product_sign(a, b);
        lemma_value(a);
        lemma_value(b);
        lemma_value(a.times(b));
        assert(x * y >= 0real) by (nonlinear_arith)
            requires
                x >= 0real && y >= 0real || x <= 0real && y <= 0real,
        ;
    }
}

/// A contact belongs to the rim of a goal where its point lies by the line of the goal and by a post or the crossbar, and
/// counts as one on entering while the sphere moves away from the middle of the field.
pub proof fn law_rim_contacts_lie_on_the_rim(point_world: Vec3A, center_world: Vec3A, movement_world: Vec3A)
    requires
        point_world.finite(),
        sized(point(point_world), 200real),
        center_world.finite(),
        sized(point(center_world), 200real),
        movement_world.finite(),
        sized(point(movement_world), 200real),
    ensures
        ({
            let (x, y, z) = (
                50real * real_value(point_world.x),
                50real * real_value(point_world.y),
                50real * real_value(point_world.z),
            );
            let outward = real_value(center_world.y) * real_value(movement_world.y);
            &&& entering_rim(point_world, center_world, movement_world) ==> {
                &&& at_face(y, hair())
                &&& at_post(x, z, hair()) || at_crossbar(x, z, hair())
                &&& outward >= 0real
            }
            &&& {
                &&& at_face(y, -hair())
                &&& at_post(x, z, -hair()) || at_crossbar(x, z, -hair())
                &&& 1000real * outward >= 1real
                &&& 100real * size(real_value(center_world.y)) >= 1real
                &&& 100real * size(real_value(movement_world.y)) >= 1real
            } ==> entering_rim(point_world, center_world, movement_world)
        }),
{
    lemma_parts(point_world, in_game_units(point_world));
    let (c, m) = (in_game_units(center_world).y, in_game_units(movement_world).y);
    lemma_unit(center_world.y);
    lemma_unit(movement_world.y);
    let (x, y) = (real_value(center_world.y), real_value(movement_world.y));
    let (a, b) = (real_value(c), real_value(m));
    lemma_bounded(a, b, 10001real, 10001real);
    assert(10001real * 10001real == 100020001real) by (nonlinear_arith);
    lemma_positive(c, m);
    lemma_value(Single { bits: 0 });
    lemma_order(Single { bits: 0 }, c.times(m));
    lemma_same_sign(center_world.y);
    lemma_same_sign(movement_world.y);
    assert(a * b > 0real ==> x * y >= 0real) by (nonlinear_arith)
        requires
            a > 0real ==> x >= 0real,
            a < 0real ==> x <= 0real,
            b > 0real ==> y >= 0real,
            b < 0real ==> y <= 0real,
    ;
    if 1000real * (x * y) >= 1real && 100real * size(x) >= 1real && 100real * size(y) >= 1real {
        assert(x > 0real && y > 0real || x < 0real && y < 0real) by (nonlinear_arith)
            requires
                x * y > 0real,
        ;
        assert(a * b >= 1real / 100real) by (nonlinear_arith)
            requires
                a >= 1real / 10real && b >= 1real / 10real || a <= -(1real / 10real) && b <= -(1real / 10real),
        ;
    }
}

/// A coordinate in game units has the sign that it had.
proof fn lemma_same_sign(a: Single)
    requires
        a.finite(),
        -200real <= real_value(a) <= 200real,
    ensures
        ({
            let g = real_value(a.times(Single { bits: BT_TO_UU }));
            (g > 0real ==> real_value(a) >= 0real) && (g < 0real ==> real_value(a) <= 0real)
        }),
{
    lemma_goal();
    lemma_unit(a);
    let fifty = Single { bits: BT_TO_UU };
    law_product_sign(a, fifty);
    lemma_value(a);
    lemma_value(fifty);
    lemma_value(a.times(fifty));
}

/// A swept contact may be resolved only where it faces along the field, inside the posts, after a short way; at the crossbar
/// only while the sphere crosses it, and at a post only above its base. Where all of that holds it may.
pub proof fn law_resolvable_sweeps_are_short_and_square(
    point_world: Vec3A,
    normal_world: Vec3A,
    movement_world: Vec3A,
    radius: Single,
)
    requires
        point_world.finite(),
        sized(point(point_world), 200real),
        normal_world.finite(),
        sized(point(normal_world), 2real),
        movement_world.finite(),
        sized(point(movement_world), 200real),
        radius.finite(),
        0real <= real_value(radius) <= 10real,
    ensures
        ({
            let (x, y, z) = (
                50real * real_value(point_world.x),
                50real * real_value(point_world.y),
                50real * real_value(point_world.z),
            );
            let r = real_value(radius);
            let square = size(real_value(normal_world.y));
            let (along, rise) = (size(real_value(movement_world.y)), size(real_value(movement_world.z)));
            let t = hair();
            &&& sweep_resolvable(point_world, normal_world, movement_world, radius) ==> {
                &&& size(x) <= 924755real / 1000real + t
                &&& square >= 7real / 10real - t
                &&& along <= r / 4real + t
                &&& at_crossbar(x, z, -t) && !at_post(x, z, t) ==> 5real * r / 1000real < rise + t
                &&& at_post(x, z, -t) ==> 50real * r < z + t
            }
            &&& {
                &&& size(x) <= 924755real / 1000real - t
                &&& square >= 7real / 10real + t
                &&& along <= r / 4real - t
                &&& 5real * r / 1000real < rise - t
                &&& 50real * r < z - t
            } ==> sweep_resolvable(point_world, normal_world, movement_world, radius)
        }),
{
    lemma_goal();
    let g = in_game_units(point_world);
    lemma_parts(point_world, g);
    lemma_unit(point_world.x);
    lemma_unit(point_world.z);
    let r = real_value(radius);
    let (x, z) = (50real * real_value(point_world.x), 50real * real_value(point_world.z));
    lemma_abs(g.x, x, 1real / 1000real);
    let (width, depth) = (Single { bits: SOCCAR_GOAL_HALF_WIDTH }, Single { bits: RIM_DEPTH });
    lemma_plus(width, 892755real / 1000real, 1real / 100000real, depth, 32real, 0real, 1000real);
    lemma_order(g.x.abs(), width.plus(depth));
    let rise = Single { bits: CROSSBAR_RISE };
    let e = 1real / 1000000real;
    assert(slack(10real, 0real, 5real / 1000real, e) <= 2real / 100000real && (10real + 0real) * (5real / 1000real + e) <= 1real && (
    10real + 0real) * (5real / 1000real + e) >= 1real / 100real) by (nonlinear_arith)
        requires
            e == 1real / 1000000real,
    ;
    lemma_times(radius, r, 0real, rise, 5real / 1000real, e, 10real, 5real / 1000real, 2real / 100000real);
    assert(r * (5real / 1000real) == 5real * r / 1000real) by (nonlinear_arith);
    lemma_abs(movement_world.z, real_value(movement_world.z), 0real);
    lemma_order(radius.times(rise), movement_world.z.abs());
    lemma_unit(radius);
    lemma_order(radius.times(Single { bits: BT_TO_UU }), g.z);
    lemma_abs(normal_world.y, real_value(normal_world.y), 0real);
    lemma_order(Single { bits: FACING }, normal_world.y.abs());
    assert(slack(10real, 0real, 1real / 4real, 0real) <= 1real / 1000000real && (10real + 0real) * (1real / 4real + 0real) == 5real
        / 2real) by (nonlinear_arith);
    let limit = Single { bits: ADVANCE_LIMIT };
    lemma_times(radius, r, 0real, limit, 1real / 4real, 0real, 10real, 1real / 4real, 1real / 1000000real);
    assert(r * (1real / 4real) == r / 4real) by (nonlinear_arith);
    lemma_abs(movement_world.y, real_value(movement_world.y), 0real);
    lemma_order(movement_world.y.abs(), radius.times(limit));
}

pub open spec fn least(a: real, b: real) -> real {
    if b < a {
        b
    } else {
        a
    }
}

/// One end of a way lies within reach of the rim, give or take `t`: the ends are at `(ax, ay, az)` and `(bx, by, bz)`, and the
/// radius is `r`, all in game units.
pub open spec fn rim_in_reach(a: (real, real, real), b: (real, real, real), r: real, t: real) -> bool {
    let (line, width, height) = (20497real / 4real, 892755real / 1000real, 642775real / 1000real);
    &&& least(size(size(a.1) - line), size(size(b.1) - line)) <= r + 32real + t
    &&& {
        ||| {
            &&& least(size(size(a.0) - width), size(size(b.0) - width)) <= r + 160real + t
            &&& least(a.2, b.2) <= height + r + 120real + t
        }
        ||| {
            &&& least(size(a.2 - height), size(b.2 - height)) <= r + 160real + t
            &&& least(size(a.0), size(b.0)) <= width + r + 160real + t
        }
    }
}

proof fn lemma_least(a: Single, x: real, b: Single, y: real, e: real)
    requires
        within(a, x, e),
        within(b, y, e),
    ensures
        within(a.smaller_of(b), least(x, y), e),
{
    lemma_order(b, a);
}

/// A sphere may touch the rim of a goal within a step where it moves away from the middle of the field, not too far, and one
/// end of its way lies within reach of the line of the goal and of a post or the crossbar; and only there.
pub proof fn law_only_what_is_near_reaches_the_rim(start_world: Vec3A, end_world: Vec3A, radius_world: Single)
    requires
        start_world.finite(),
        sized(point(start_world), 200real),
        end_world.finite(),
        sized(point(end_world), 200real),
        radius_world.finite(),
        0real <= real_value(radius_world) <= 10real,
    ensures
        ({
            let a = stretched(point(start_world), 50real);
            let b = stretched(point(end_world), 50real);
            let (r, t, on) = (50real * real_value(radius_world), 2real * hair(), b.1 - a.1);
            &&& may_reach_rim(start_world, end_world, radius_world) ==> {
                &&& a.1 > 0real ==> on > -t
                &&& a.1 < 0real ==> on < t
                &&& size(on) <= r / 4real + t
                &&& rim_in_reach(a, b, r, t)
            }
            &&& {
                &&& a.1 >= 1real && on >= 1real || a.1 <= -1real && on <= -1real
                &&& size(on) <= r / 4real - t
                &&& rim_in_reach(a, b, r, -t)
            } ==> may_reach_rim(start_world, end_world, radius_world)
        }),
{
    lemma_goal();
    let (p, q) = (in_game_units(start_world), in_game_units(end_world));
    let a = stretched(point(start_world), 50real);
    let b = stretched(point(end_world), 50real);
    lemma_swap(real_value(start_world.x), 50real);
    lemma_swap(real_value(start_world.y), 50real);
    lemma_swap(real_value(start_world.z), 50real);
    lemma_swap(real_value(end_world.x), 50real);
    lemma_swap(real_value(end_world.y), 50real);
    lemma_swap(real_value(end_world.z), 50real);
    lemma_unit(start_world.x);
    lemma_unit(start_world.y);
    lemma_unit(start_world.z);
    lemma_unit(end_world.x);
    lemma_unit(end_world.y);
    lemma_unit(end_world.z);
    lemma_unit(radius_world);
    let radius = radius_world.times(Single { bits: BT_TO_UU });
    let (r, e) = (50real * real_value(radius_world), 1real / 1000real);
    // The way along the field.
    let move_y = q.minus(p).y;
    let on = b.1 - a.1;
    lemma_minus(q.y, b.1, e, p.y, a.1, e, 20000real);
    let (u, v) = (real_value(p.y), real_value(move_y));
    lemma_bounded(u, v, 10001real, 20001real);
    assert(10001real * 20001real == 200030001real) by (nonlinear_arith);
    lemma_positive(p.y, move_y);
    let zero = Single { bits: 0 };
    lemma_value(zero);
    lemma_order(p.y.times(move_y), zero);
    lemma_same_sign(start_world.y);
    assert(u * v > 0real ==> u > 0real && v > 0real || u < 0real && v < 0real) by (nonlinear_arith);
    assert((u >= 1real / 2real && v >= 1real / 2real || u <= -(1real / 2real) && v <= -(1real / 2real)) ==> u * v >= 1real / 4real)
        by (nonlinear_arith);
    let limit = Single { bits: ADVANCE_LIMIT };
    assert(slack(500real, e, 1real / 4real, 0real) <= 1real / 1000real && (500real + e) * (1real / 4real + 0real) <= 126real && (
    500real + e) * (1real / 4real + 0real) >= 125real) by (nonlinear_arith)
        requires
            e == 1real / 1000real,
    ;
    lemma_times(radius, r, e, limit, 1real / 4real, 0real, 500real, 1real / 4real, 1real / 1000real);
    assert(r * (1real / 4real) == r / 4real) by (nonlinear_arith);
    lemma_abs(move_y, on, 4real / 1000real);
    lemma_order(radius.times(limit), move_y.abs());
    lemma_reach_parts(p, a, q, b, radius, r);
}

/// Which parts of the rim are within reach.
proof fn lemma_reach_parts(p: Vec3A, a: (real, real, real), q: Vec3A, b: (real, real, real), radius: Single, r: real)
    requires
        near(p, a, 1real / 1000real),
        near(q, b, 1real / 1000real),
        sized(a, 10000real),
        sized(b, 10000real),
        within(radius, r, 1real / 1000real),
        0real <= r <= 500real,
    ensures
        ({
            let (line, width, height) = (
                Single { bits: SOCCAR_GOAL_SCORE_BASE_THRESHOLD_Y },
                Single { bits: SOCCAR_GOAL_HALF_WIDTH },
                Single { bits: SOCCAR_GOAL_HEIGHT },
            );
            let (depth, reach, over) = (Single { bits: RIM_DEPTH }, Single { bits: RIM_REACH }, Single { bits: POST_OVERHANG });
            let near_line = closer_distance(p.y.abs(), q.y.abs(), line).at_most(radius.plus(depth));
            let near_side = closer_distance(p.x.abs(), q.x.abs(), width).at_most(radius.plus(reach)) && p.z.smaller_of(
                q.z,
            ).at_most(height.plus(radius).plus(over));
            let near_top = closer_distance(p.z, q.z, height).at_most(radius.plus(reach)) && p.x.abs().smaller_of(
                q.x.abs(),
            ).at_most(width.plus(radius).plus(reach));
            &&& near_line && (near_side || near_top) ==> rim_in_reach(a, b, r, 2real * hair())
            &&& rim_in_reach(a, b, r, -2real * hair()) ==> near_line && (near_side || near_top)
        }),
{
    lemma_goal();
    let (line, width, height) = (
        Single { bits: SOCCAR_GOAL_SCORE_BASE_THRESHOLD_Y },
        Single { bits: SOCCAR_GOAL_HALF_WIDTH },
        Single { bits: SOCCAR_GOAL_HEIGHT },
    );
    let (depth, reach, over) = (Single { bits: RIM_DEPTH }, Single { bits: RIM_REACH }, Single { bits: POST_OVERHANG });
    let (l, w, h) = (20497real / 4real, 892755real / 1000real, 642775real / 1000real);
    let (e, f) = (1real / 1000real, 22real / 10000real);
    lemma_off(p.y, a.1, e, line, l);
    lemma_off(q.y, b.1, e, line, l);
    lemma_off(p.x, a.0, e, width, w);
    lemma_off(q.x, b.0, e, width, w);
    lemma_off(p.z, a.2, e, height, h);
    lemma_off(q.z, b.2, e, height, h);
    lemma_least(p.y.abs().minus(line).abs(), size(size(a.1) - l), q.y.abs().minus(line).abs(), size(size(b.1) - l), f);
    lemma_least(p.x.abs().minus(width).abs(), size(size(a.0) - w), q.x.abs().minus(width).abs(), size(size(b.0) - w), f);
    lemma_least(p.z.minus(height).abs(), size(a.2 - h), q.z.minus(height).abs(), size(b.2 - h), f);
    lemma_least(p.z, a.2, q.z, b.2, e);
    lemma_least(p.x.abs(), size(a.0), q.x.abs(), size(b.0), e);
    lemma_plus(radius, r, e, depth, 32real, 0real, 1000real);
    lemma_plus(radius, r, e, reach, 160real, 0real, 1000real);
    lemma_plus(height, h, 1real / 10000real, radius, r, e, 2000real);
    lemma_plus(height.plus(radius), h + r, 2real / 1000real, over, 120real, 0real, 2000real);
    lemma_plus(width, w, 1real / 100000real, radius, r, e, 2000real);
    lemma_plus(width.plus(radius), w + r, 2real / 1000real, reach, 160real, 0real, 2000real);
    lemma_order(closer_distance(p.y.abs(), q.y.abs(), line), radius.plus(depth));
    lemma_order(closer_distance(p.x.abs(), q.x.abs(), width), radius.plus(reach));
    lemma_order(closer_distance(p.z, q.z, height), radius.plus(reach));
    lemma_order(p.z.smaller_of(q.z), height.plus(radius).plus(over));
    lemma_order(p.x.abs().smaller_of(q.x.abs()), width.plus(radius).plus(reach));
}

} // verus!
