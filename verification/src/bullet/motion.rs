//! How bodies move when nothing is in their way, and which of them can.
use crate::bullet::body::{lemma_noted, lemma_noted_again, lemma_noted_same, RigidBody};
use crate::bullet::seq_impulse_constraint_solver::movable;
use crate::math::{Affine3A, Mat3A, Quat, Vec3A};
use crate::single::Single;
use vstd::prelude::*;

verus! {

/// Where a body is, and what follows from that.
#[derive(Clone, Copy, Debug, PartialEq, Eq, Structural)]
pub struct Place {
    pub world_trans: Affine3A,
    pub world_rot: Quat,
    pub interp_world_trans: Affine3A,
    pub inv_inertia_tensor_world: Mat3A,
}

/// A body in a place.
pub open spec fn put(a: RigidBody, place: Place) -> RigidBody {
    RigidBody {
        world_trans: place.world_trans,
        world_rot: place.world_rot,
        interp_world_trans: place.interp_world_trans,
        inv_inertia_tensor_world: place.inv_inertia_tensor_world,
        ..a
    }
}

/// The motion of a single body.
///
/// Nothing is known of what the methods return: whoever calls one has to cope with every
/// outcome.
pub trait Motion {
    /// The velocity that forces add, with another impulse.
    fn with_impulse(&self, body: &RigidBody, impulse: Vec3A) -> Vec3A;

    /// The velocities after damping.
    fn damped(&self, body: &RigidBody, time_step: Single) -> (Vec3A, Vec3A);

    /// Where the body would be after some time.
    fn predicted(&self, body: &RigidBody, time_step: Single) -> Affine3A;

    /// What follows from moving the body.
    fn placed(&self, body: &RigidBody, trans: Affine3A) -> Place;

    /// The body stays awake.
    fn stays_active(&self, body: &RigidBody, time_step: Single) -> bool;
}

/// The numbers of those among the first `n` bodies that can move.
pub open spec fn movers(objs: Seq<RigidBody>, n: int) -> Seq<usize>
    decreases n,
{
    if n <= 0 {
        Seq::empty()
    } else if objs[n - 1].is_static {
        movers(objs, n - 1)
    } else {
        movers(objs, n - 1).push((n - 1) as usize)
    }
}

/// Which bodies can move depends on nothing else about them.
pub proof fn lemma_movers_same(a: Seq<RigidBody>, b: Seq<RigidBody>, n: int)
    requires
        0 <= n <= a.len(),
        n <= b.len(),
        forall|i: int| 0 <= i < n ==> (#[trigger] b[i]).is_static == a[i].is_static,
    ensures
        movers(a, n) == movers(b, n),
    decreases n,
{
    if n > 0 {
        lemma_movers_same(a, b, n - 1);
        assert(b[n - 1].is_static == a[n - 1].is_static);
    }
}

/// The bodies that can move are different bodies in their order, and all of them.
pub proof fn lemma_movers(objs: Seq<RigidBody>, n: int)
    requires
        0 <= n <= objs.len() <= usize::MAX,
    ensures
        forall|j: int| 0 <= j < movers(objs, n).len() ==> (#[trigger] movers(objs, n)[j]) < n
            && !objs[movers(objs, n)[j] as int].is_static,
        forall|j: int, k: int|
            0 <= j < k < movers(objs, n).len() ==> #[trigger] movers(objs, n)[j] < #[trigger] movers(objs, n)[k],
        forall|i: int|
            0 <= i < n && !(#[trigger] objs[i]).is_static ==> movers(objs, n).contains(i as usize),
    decreases n,
{
    if n > 0 {
        lemma_movers(objs, n - 1);
        let before = movers(objs, n - 1);
        let now = movers(objs, n);
        assert forall|i: int| 0 <= i < n && !(#[trigger] objs[i]).is_static implies now.contains(i as usize) by {
            if i < n - 1 {
                assert(before.contains(i as usize));
                let j = choose|j: int| 0 <= j < before.len() && before[j] == i as usize;
                assert(now[j] == i as usize);
            } else {
                assert(now[now.len() - 1] == i as usize);
            }
        }
    }
}

/// The bodies that can move make a list for the solver.
pub proof fn lemma_movers_movable(objs: Seq<RigidBody>)
    requires
        objs.len() <= usize::MAX,
    ensures
        movable(objs, movers(objs, objs.len() as int)),
{
    lemma_movers(objs, objs.len() as int);
}

/// The bodies of the first `k` numbers of a list have been dealt with.
pub open spec fn reached(list: Seq<usize>, k: int, i: int) -> bool {
    exists|j: int| 0 <= j < k && #[trigger] list[j] == i
}

/// Of some bodies those of the first `k` numbers of a list have made a step, and no others.
pub open spec fn partly(
    step: spec_fn(RigidBody, RigidBody) -> bool,
    objs: Seq<RigidBody>,
    now: Seq<RigidBody>,
    list: Seq<usize>,
    k: int,
) -> bool {
    &&& now.len() == objs.len()
    &&& forall|i: int|
        0 <= i < objs.len() ==> if reached(list, k, i) {
            step(objs[i], #[trigger] now[i])
        } else {
            now[i] == objs[i]
        }
}

/// The next body of a list of bodies that can move has not made its step yet.
pub proof fn lemma_next_is_still(
    step: spec_fn(RigidBody, RigidBody) -> bool,
    objs: Seq<RigidBody>,
    now: Seq<RigidBody>,
    k: int,
)
    requires
        partly(step, objs, now, movers(objs, objs.len() as int), k),
        0 <= k < movers(objs, objs.len() as int).len(),
        objs.len() <= usize::MAX,
    ensures
        ({
            let i = movers(objs, objs.len() as int)[k] as int;
            i < objs.len() && !objs[i].is_static && now[i] == objs[i]
        }),
{
    let list = movers(objs, objs.len() as int);
    lemma_movers(objs, objs.len() as int);
    let i = list[k] as int;
    if reached(list, k, i) {
        let j = choose|j: int| 0 <= j < k && #[trigger] list[j] == i;
        assert(list[j] < list[k]);
    }
    assert(now[i] == objs[i]);
}

/// The step of one more body.
pub proof fn lemma_one_more(
    step: spec_fn(RigidBody, RigidBody) -> bool,
    objs: Seq<RigidBody>,
    before: Seq<RigidBody>,
    now: Seq<RigidBody>,
    k: int,
)
    requires
        partly(step, objs, before, movers(objs, objs.len() as int), k),
        0 <= k < movers(objs, objs.len() as int).len(),
        objs.len() <= usize::MAX,
        ({
            let i = movers(objs, objs.len() as int)[k] as int;
            now == before.update(i, now[i]) && step(objs[i], now[i])
        }),
    ensures
        partly(step, objs, now, movers(objs, objs.len() as int), k + 1),
{
    let list = movers(objs, objs.len() as int);
    lemma_movers(objs, objs.len() as int);
    let idx = list[k] as int;
    assert forall|i: int| 0 <= i < objs.len() implies if reached(list, k + 1, i) {
        step(objs[i], #[trigger] now[i])
    } else {
        now[i] == objs[i]
    } by {
        if i == idx {
            assert(list[k] == i);
            assert(reached(list, k + 1, i));
        } else {
            assert(now[i] == before[i]);
            if reached(list, k + 1, i) {
                let j = choose|j: int| 0 <= j < k + 1 && #[trigger] list[j] == i;
                assert(j != k);
                assert(reached(list, k, i));
            } else if reached(list, k, i) {
                let j = choose|j: int| 0 <= j < k && #[trigger] list[j] == i;
                assert(reached(list, k + 1, i));
            }
        }
    }
}

/// After the steps of all bodies that can move everything has made its step, if that of a body that
/// cannot is to stay as it is, and the bodies are the same.
pub proof fn lemma_all_moved(
    step: spec_fn(RigidBody, RigidBody) -> bool,
    objs: Seq<RigidBody>,
    now: Seq<RigidBody>,
)
    requires
        partly(step, objs, now, movers(objs, objs.len() as int), movers(objs, objs.len() as int).len() as int),
        objs.len() <= usize::MAX,
        forall|a: RigidBody| a.is_static ==> #[trigger] step(a, a),
        forall|a: RigidBody, b: RigidBody| #[trigger] step(a, b) && !a.is_static ==> kin(a, b),
    ensures
        forall|i: int| 0 <= i < objs.len() ==> step(objs[i], #[trigger] now[i]),
        akin(objs, now),
        asleep(objs) ==> asleep(now),
        movers(now, now.len() as int) == movers(objs, objs.len() as int),
{
    let list = movers(objs, objs.len() as int);
    lemma_movers(objs, objs.len() as int);
    assert forall|i: int| 0 <= i < objs.len() implies step(objs[i], #[trigger] now[i]) && kin(objs[i], now[i]) by {
        lemma_noted_same(objs[i]);
        if !objs[i].is_static {
            assert(list.contains(i as usize));
            let j = choose|j: int| 0 <= j < list.len() && list[j] == i as usize;
            assert(list[j] == i);
            assert(reached(list, list.len() as int, i));
        } else {
            if reached(list, list.len() as int, i) {
                let j = choose|j: int| 0 <= j < list.len() && #[trigger] list[j] == i;
                assert(!objs[list[j] as int].is_static);
            }
            assert(now[i] == objs[i]);
            assert(step(objs[i], objs[i]));
        }
    }
    lemma_asleep_akin(objs, now);
    lemma_movers_same(objs, now, objs.len() as int);
}

/// A body that differs in nothing that tells it apart: its numbers, whether it moves, its mass, what
/// it stands for and its shape. One that does not move is as it was, but for the note of the solver.
pub open spec fn kin(a: RigidBody, b: RigidBody) -> bool {
    &&& b.world_array_idx == a.world_array_idx
    &&& b.broadphase_handle == a.broadphase_handle
    &&& b.is_static == a.is_static
    &&& b.inv_mass == a.inv_mass
    &&& b.user_idx == a.user_idx
    &&& b.collision_shape == a.collision_shape
    &&& a.is_static ==> b == a.noted(b.companion_id)
}

/// Bodies that differ in nothing that tells them apart.
pub open spec fn akin(a: Seq<RigidBody>, b: Seq<RigidBody>) -> bool {
    &&& a.len() == b.len()
    &&& forall|i: int| 0 <= i < a.len() ==> kin(a[i], #[trigger] b[i])
}

/// Bodies are akin to themselves.
pub proof fn lemma_akin_same(objs: Seq<RigidBody>)
    ensures
        akin(objs, objs),
{
    assert forall|i: int| 0 <= i < objs.len() implies kin(objs[i], #[trigger] objs[i]) by {
        lemma_noted_same(objs[i]);
    }
}

pub proof fn lemma_akin_chain(a: Seq<RigidBody>, b: Seq<RigidBody>, c: Seq<RigidBody>)
    requires
        akin(a, b),
        akin(b, c),
    ensures
        akin(a, c),
{
    assert forall|i: int| 0 <= i < a.len() implies kin(a[i], #[trigger] c[i]) by {
        assert(kin(a[i], b[i]));
        lemma_noted_again(a[i], b[i].companion_id, c[i].companion_id);
    }
}

/// The bodies that do not move are not awake.
pub open spec fn asleep(objs: Seq<RigidBody>) -> bool {
    forall|i: int| 0 <= i < objs.len() && (#[trigger] objs[i]).is_static ==> !objs[i].active
}

pub proof fn lemma_asleep_akin(a: Seq<RigidBody>, b: Seq<RigidBody>)
    requires
        akin(a, b),
    ensures
        asleep(a) ==> asleep(b),
{
    if asleep(a) {
        assert forall|i: int| 0 <= i < b.len() && (#[trigger] b[i]).is_static implies !b[i].active by {
            assert(kin(a[i], b[i]));
            lemma_noted(a[i], b[i].companion_id);
        }
    }
}

} // verus!
