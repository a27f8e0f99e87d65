//! What holds of the pairs of cars and balls.
use crate::bullet::body::{RigidBody, UserInfoTypes};
use crate::bullet::broadphase::Narrowphase;
use crate::bullet::collision_world::{car_and_ball, of_kind, ordered, CollisionWorld};
use vstd::prelude::*;

verus! {

/// The bodies of a kind are different bodies in their order, and all of them.
proof fn lemma_of_kind(objs: Seq<RigidBody>, kind: UserInfoTypes, n: int)
    requires
        0 <= n <= objs.len(),
        forall|i: int| 0 <= i < objs.len() ==> (#[trigger] objs[i]).world_array_idx == i,
    ensures
        forall|j: int|
            0 <= j < of_kind(objs, kind, n).len() ==> (#[trigger] of_kind(objs, kind, n)[j]) < n
                && objs[of_kind(objs, kind, n)[j] as int].user_idx == kind,
        forall|j: int, k: int|
            0 <= j < k < of_kind(objs, kind, n).len() ==> #[trigger] of_kind(objs, kind, n)[j]
                < #[trigger] of_kind(objs, kind, n)[k],
        forall|i: int|
            0 <= i < n && (#[trigger] objs[i]).user_idx == kind ==> of_kind(objs, kind, n).contains(i as usize),
    decreases n,
{
    if n > 0 {
        lemma_of_kind(objs, kind, n - 1);
        let before = of_kind(objs, kind, n - 1);
        let now = of_kind(objs, kind, n);
        assert(objs[n - 1].world_array_idx == n - 1);
        assert forall|i: int| 0 <= i < n && (#[trigger] objs[i]).user_idx == kind implies now.contains(i as usize) by {
            if i < n - 1 {
                assert(before.contains(i as usize));
                let j = choose|j: int| 0 <= j < before.len() && before[j] == i as usize;
                assert(now[j] == i as usize);
            } else {
                assert(now[now.len() - 1] == i as usize);
            }
        }
    }
}

/// Some numbers are those of different bodies of a kind.
spec fn all_of(objs: Seq<RigidBody>, kind: UserInfoTypes, list: Seq<usize>) -> bool {
    &&& forall|j: int|
        0 <= j < list.len() ==> (#[trigger] list[j]) < objs.len() && objs[list[j] as int].user_idx == kind
    &&& forall|j: int, k: int| 0 <= j < k < list.len() ==> #[trigger] list[j] < #[trigger] list[k]
}

/// A pair tells its ball and its car.
proof fn lemma_pair_tells(objs: Seq<RigidBody>, ball: usize, car: usize, other_ball: usize, other_car: usize)
    requires
        ball < objs.len(),
        car < objs.len(),
        other_ball < objs.len(),
        other_car < objs.len(),
        objs[ball as int].user_idx == UserInfoTypes::Ball,
        objs[other_ball as int].user_idx == UserInfoTypes::Ball,
        objs[car as int].user_idx == UserInfoTypes::Car,
        objs[other_car as int].user_idx == UserInfoTypes::Car,
        ordered(ball, car) == ordered(other_ball, other_car),
    ensures
        ball == other_ball,
        car == other_car,
{
}

/// Two bodies make a pair whatever the narrow phase answers: they are a car and a ball, and it never
/// says that they may not touch.
pub open spec fn surely_pair<T, N: Narrowphase<T>>(world: CollisionWorld, narrowphase: &N, pair: (usize, usize)) -> bool {
    &&& car_and_ball(world.collision_objs@[pair.0 as int], world.collision_objs@[pair.1 as int]) is Some
    &&& !world.collidable::<T, N>(narrowphase, pair.0 as int, pair.1 as int, false)
}

proof fn lemma_pairs_with<T, N: Narrowphase<T>>(
    world: CollisionWorld,
    narrowphase: &N,
    ball: usize,
    cars: Seq<usize>,
    j: nat,
    pairs: Seq<(usize, usize)>,
    out: Seq<(usize, usize)>,
)
    requires
        world.pairs_with::<T, N>(narrowphase, ball, cars, j, pairs, out),
        all_of(world.collision_objs@, UserInfoTypes::Car, cars),
        ball < world.collision_objs@.len(),
        world.collision_objs@[ball as int].user_idx == UserInfoTypes::Ball,
        pairs.no_duplicates(),
        forall|k: int| j <= k < cars.len() ==> !pairs.contains(ordered(ball, #[trigger] cars[k])),
    ensures
        out.no_duplicates(),
        forall|p: (usize, usize)| #[trigger] pairs.contains(p) ==> out.contains(p),
        forall|p: (usize, usize)| #[trigger] out.contains(p) ==> pairs.contains(p) || exists|k: int|
            j <= k < cars.len() && p == ordered(ball, #[trigger] cars[k]),
        forall|k: int|
            j <= k < cars.len() && surely_pair::<T, N>(world, narrowphase, ordered(ball, #[trigger] cars[k]))
                ==> out.contains(ordered(ball, cars[k])),
    decreases cars.len() - j,
{
    if j < cars.len() {
        let objs = world.collision_objs@;
        let pair = ordered(ball, cars[j as int]);
        let more = pairs.push(pair);
        let is_pair = car_and_ball(objs[pair.0 as int], objs[pair.1 as int]) is Some;
        let can: bool = is_pair && choose|can: bool| #[trigger]
            world.collidable::<T, N>(narrowphase, pair.0 as int, pair.1 as int, can) && world.pairs_with::<T, N>(
                narrowphase,
                ball,
                cars,
                j + 1,
                if can {
                    more
                } else {
                    pairs
                },
                out,
            );
        let next = if can {
            more
        } else {
            pairs
        };
        assert(world.pairs_with::<T, N>(narrowphase, ball, cars, j + 1, next, out));
        assert(more[pairs.len() as int] == pair);
        assert(forall|p: (usize, usize)| #[trigger] more.contains(p) <==> pairs.contains(p) || p == pair) by {
            assert forall|p: (usize, usize)| #[trigger] more.contains(p) <==> pairs.contains(p) || p == pair by {
                if more.contains(p) {
                    let i = choose|i: int| 0 <= i < more.len() && more[i] == p;
                    if i < pairs.len() {
                        assert(pairs[i] == p);
                    }
                }
                if pairs.contains(p) {
                    let i = choose|i: int| 0 <= i < pairs.len() && pairs[i] == p;
                    assert(more[i] == p);
                }
            }
        }
        assert(!pairs.contains(ordered(ball, cars[j as int])));
        assert forall|k: int| j + 1 <= k < cars.len() implies !next.contains(ordered(ball, #[trigger] cars[k])) by {
            if ordered(ball, cars[k]) == pair {
                lemma_pair_tells(objs, ball, cars[k], ball, cars[j as int]);
            }
        }
        lemma_pairs_with::<T, N>(world, narrowphase, ball, cars, j + 1, next, out);
        assert forall|p: (usize, usize)| #[trigger] out.contains(p) implies pairs.contains(p) || exists|k: int|
            j <= k < cars.len() && p == ordered(ball, #[trigger] cars[k]) by {
            if next.contains(p) && !pairs.contains(p) {
                assert(p == ordered(ball, cars[j as int]));
            }
        }
        assert forall|p: (usize, usize)| #[trigger] pairs.contains(p) implies out.contains(p) by {
            assert(more.contains(p));
            assert(next.contains(p));
        }
        assert(pairs.contains(pair) || more.contains(pair));
    }
}

proof fn lemma_pairs_from<T, N: Narrowphase<T>>(
    world: CollisionWorld,
    narrowphase: &N,
    balls: Seq<usize>,
    cars: Seq<usize>,
    i: nat,
    pairs: Seq<(usize, usize)>,
    out: Seq<(usize, usize)>,
)
    requires
        world.pairs_from::<T, N>(narrowphase, balls, cars, i, pairs, out),
        all_of(world.collision_objs@, UserInfoTypes::Ball, balls),
        all_of(world.collision_objs@, UserInfoTypes::Car, cars),
        pairs.no_duplicates(),
        forall|h: int, k: int|
            i <= h < balls.len() && 0 <= k < cars.len() ==> !pairs.contains(
                ordered(#[trigger] balls[h], #[trigger] cars[k]),
            ),
    ensures
        out.no_duplicates(),
        forall|p: (usize, usize)| #[trigger] pairs.contains(p) ==> out.contains(p),
        forall|h: int, k: int|
            i <= h < balls.len() && 0 <= k < cars.len() && surely_pair::<T, N>(
                world,
                narrowphase,
                ordered(#[trigger] balls[h], #[trigger] cars[k]),
            ) ==> out.contains(ordered(balls[h], cars[k])),
    decreases balls.len() - i,
{
    if i < balls.len() {
        let objs = world.collision_objs@;
        let ball = balls[i as int];
        let next = choose|next: Seq<(usize, usize)>| #[trigger]
            world.pairs_with::<T, N>(narrowphase, ball, cars, 0, pairs, next) && world.pairs_from::<T, N>(
                narrowphase,
                balls,
                cars,
                i + 1,
                next,
                out,
            );
        assert forall|k: int| 0 <= k < cars.len() implies !pairs.contains(ordered(ball, #[trigger] cars[k])) by {
            assert(!pairs.contains(ordered(balls[i as int], cars[k])));
        }
        lemma_pairs_with::<T, N>(world, narrowphase, ball, cars, 0, pairs, next);
        assert forall|h: int, k: int| i + 1 <= h < balls.len() && 0 <= k < cars.len() implies !next.contains(
            ordered(#[trigger] balls[h], #[trigger] cars[k]),
        ) by {
            let p = ordered(balls[h], cars[k]);
            if next.contains(p) {
                let l = choose|l: int| 0 <= l < cars.len() && p == ordered(ball, #[trigger] cars[l]);
                lemma_pair_tells(objs, ball, cars[l], balls[h], cars[k]);
                assert(balls[i as int] < balls[h]);
            }
        }
        lemma_pairs_from::<T, N>(world, narrowphase, balls, cars, i + 1, next, out);
        assert forall|h: int, k: int|
            i <= h < balls.len() && 0 <= k < cars.len() && surely_pair::<T, N>(
                world,
                narrowphase,
                ordered(#[trigger] balls[h], #[trigger] cars[k]),
            ) implies out.contains(ordered(balls[h], cars[k])) by {
            if h == i {
                assert(next.contains(ordered(ball, cars[k])));
            }
        }
    }
}

/// Each pair of a car and a ball is listed once, and every one that may touch is.
pub proof fn law_each_pair_once<T, N: Narrowphase<T>>(
    world: CollisionWorld,
    narrowphase: &N,
    pairs: Seq<(usize, usize)>,
    a: usize,
    b: usize,
)
    requires
        world.wf(),
        world.pairs_up::<T, N>(narrowphase, pairs),
    ensures
        pairs.no_duplicates(),
        a < b < world.collision_objs@.len() && surely_pair::<T, N>(world, narrowphase, (a, b)) ==> pairs.contains((a, b)),
{
    let objs = world.collision_objs@;
    let n = objs.len() as int;
    let balls = of_kind(objs, UserInfoTypes::Ball, n);
    let cars = of_kind(objs, UserInfoTypes::Car, n);
    lemma_of_kind(objs, UserInfoTypes::Ball, n);
    lemma_of_kind(objs, UserInfoTypes::Car, n);
    lemma_pairs_from::<T, N>(world, narrowphase, balls, cars, 0, Seq::empty(), pairs);
    if a < b < objs.len() && surely_pair::<T, N>(world, narrowphase, (a, b)) {
        let (ball, car) = if objs[a as int].user_idx == UserInfoTypes::Ball {
            (a, b)
        } else {
            (b, a)
        };
        assert(balls.contains(ball));
        assert(cars.contains(car));
        let h = choose|h: int| 0 <= h < balls.len() && balls[h] == ball;
        let k = choose|k: int| 0 <= k < cars.len() && cars[k] == car;
        assert(ordered(balls[h], cars[k]) == (a, b));
    }
}

} // verus!
