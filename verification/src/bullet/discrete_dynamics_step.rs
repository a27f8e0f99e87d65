//! One step of a world: what is predicted, found, solved and moved, and in which order.
use crate::bullet::body::{lemma_noted, RigidBody};
use crate::bullet::broadphase::{GridBroadphase, Narrowphase};
use crate::bullet::collision_world::{
    are_car_ball_pairs, car_and_ball, is_car_ball_pair, ordered, statics_end, surrounds,
};
use crate::bullet::discrete_dynamics_world::{
    all_foreseen, all_gone, all_nodded, all_pulled, all_spent, DiscreteDynamicsWorld,
};
use crate::bullet::geometry::Geometry;
use crate::bullet::manifold::{Manifolds, PersistentManifold};
use crate::bullet::motion::{
    akin, asleep, kin, lemma_akin_chain, lemma_akin_same, lemma_asleep_akin, lemma_movers_movable, lemma_movers_same, movers,
    Motion,
};
use crate::bullet::seq_impulse_constraint_solver::{numbered, solvable};
use crate::bullet::solver_constraint::{ContactAddedCallback, Rows};
use crate::bullet::solver_finish::{all_carried, carried};
use crate::consts::EPSILON;
use crate::single::Single;
use vstd::prelude::*;

verus! {

broadcast use lemma_noted;

/// All that a step asks for.
pub trait Engine<T>: Motion + Geometry + Narrowphase<T> + Manifolds<T> + Rows {

}

/// Manifolds that the solver can take.
pub open spec fn ready(manifolds: Seq<PersistentManifold>, objs: Seq<RigidBody>) -> bool {
    forall|i: int| 0 <= i < manifolds.len() ==> solvable(#[trigger] manifolds[i], objs)
}

/// Every manifold was there before, or is one that the solver can take.
pub open spec fn adds_solvable(
    before: Seq<PersistentManifold>,
    after: Seq<PersistentManifold>,
    objs: Seq<RigidBody>,
) -> bool {
    forall|i: int| 0 <= i < after.len() ==> before.contains(#[trigger] after[i]) || solvable(after[i], objs)
}

/// Two different bodies of which one can move.
pub open spec fn may_meet(objs: Seq<RigidBody>, a: usize, b: usize) -> bool {
    a < objs.len() && b < objs.len() && a != b && !(objs[a as int].is_static && objs[b as int].is_static)
}

/// What the narrow phase adds to the manifolds of these bodies, wherever they are and however they
/// move, the solver can take: it is of two different bodies of which one can move, with points
/// within the threshold. Of a pair this is asked only if the two may meet.
pub open spec fn sound<T, E: Narrowphase<T>>(engine: &E, objs: Seq<RigidBody>) -> bool {
    &&& forall|
        bodies: Vec<RigidBody>,
        boxes: GridBroadphase,
        skipped: Vec<(usize, usize)>,
        before: Vec<PersistentManifold>,
        listener: T,
        after: Vec<PersistentManifold>,
        told: T,
    | #[trigger]
        call_ensures(E::dispatch_all, (engine, &bodies, &boxes, &skipped, before, listener), (after, told)) && akin(
            objs,
            bodies@,
        ) ==> adds_solvable(before@, after@, bodies@)
    &&& forall|
        bodies: Vec<RigidBody>,
        a: usize,
        b: usize,
        before: Vec<PersistentManifold>,
        listener: T,
        after: Vec<PersistentManifold>,
        told: T,
        touched: bool,
    | #[trigger]
        call_ensures(E::dispatch_pair, (engine, &bodies, a, b, before, listener), (after, told, touched)) && akin(
            objs,
            bodies@,
        ) && may_meet(bodies@, a, b) ==> adds_solvable(before@, after@, bodies@)
}

/// A narrow phase that is sound for some bodies is so for the same bodies elsewhere.
proof fn lemma_sound_akin<T, E: Narrowphase<T>>(engine: &E, a: Seq<RigidBody>, b: Seq<RigidBody>)
    requires
        sound::<T, E>(engine, a),
        akin(a, b),
    ensures
        sound::<T, E>(engine, b),
{
    assert forall|
        bodies: Vec<RigidBody>,
        boxes: GridBroadphase,
        skipped: Vec<(usize, usize)>,
        before: Vec<PersistentManifold>,
        listener: T,
        after: Vec<PersistentManifold>,
        told: T,
    | #[trigger]
        call_ensures(E::dispatch_all, (engine, &bodies, &boxes, &skipped, before, listener), (after, told)) && akin(
            b,
            bodies@,
        ) implies adds_solvable(before@, after@, bodies@) by {
        lemma_akin_chain(a, b, bodies@);
    }
    assert forall|
        bodies: Vec<RigidBody>,
        i: usize,
        j: usize,
        before: Vec<PersistentManifold>,
        listener: T,
        after: Vec<PersistentManifold>,
        told: T,
        touched: bool,
    | #[trigger]
        call_ensures(E::dispatch_pair, (engine, &bodies, i, j, before, listener), (after, told, touched)) && akin(
            b,
            bodies@,
        ) && may_meet(bodies@, i, j) implies adds_solvable(before@, after@, bodies@) by {
        lemma_akin_chain(a, b, bodies@);
    }
}

proof fn lemma_ready_grows(before: Seq<PersistentManifold>, after: Seq<PersistentManifold>, objs: Seq<RigidBody>)
    requires
        ready(before, objs),
        adds_solvable(before, after, objs),
    ensures
        ready(after, objs),
{
    assert forall|i: int| 0 <= i < after.len() implies solvable(#[trigger] after[i], objs) by {
        if before.contains(after[i]) {
            let j = choose|j: int| 0 <= j < before.len() && before[j] == after[i];
            assert(solvable(before[j], objs));
        }
    }
}

proof fn lemma_ready_akin(manifolds: Seq<PersistentManifold>, a: Seq<RigidBody>, b: Seq<RigidBody>)
    requires
        ready(manifolds, a),
        akin(a, b),
    ensures
        ready(manifolds, b),
{
    assert forall|i: int| 0 <= i < manifolds.len() implies solvable(#[trigger] manifolds[i], b) by {
        let m = manifolds[i];
        assert(solvable(m, a));
        assert(b[m.body0_idx as int].is_static == a[m.body0_idx as int].is_static);
        assert(b[m.body1_idx as int].is_static == a[m.body1_idx as int].is_static);
    }
}

proof fn lemma_carried_akin(a: Seq<RigidBody>, b: Seq<RigidBody>)
    requires
        all_carried(a, b),
    ensures
        akin(a, b),
{
    assert forall|i: int| 0 <= i < a.len() implies kin(a[i], #[trigger] b[i]) by {
        assert(carried(a[i], b[i]));
    }
}

impl DiscreteDynamicsWorld {
    pub open spec fn manifolds(self) -> Seq<PersistentManifold> {
        self.collision_world.dispatcher1.manifolds@
    }

    /// As [`DiscreteDynamicsWorld::wf`], but manifolds may wait for the solver.
    pub open spec fn wf_waiting(self) -> bool {
        &&& self.collision_world.wf()
        &&& numbered(self.objs())
        &&& asleep(self.objs())
        &&& self.dynamic_body_idcs@ == movers(self.objs(), self.objs().len() as int)
        &&& self.solver.group().idle()
        &&& ready(self.manifolds(), self.objs())
    }

    pub open spec fn foresees<E: Motion>(self, engine: &E, time_step: Single, next: Self) -> bool {
        all_foreseen(engine, time_step, self.objs(), next.objs()) && self.same_but_bodies(next)
    }

    pub open spec fn pulls<E: Motion>(self, engine: &E, time_step: Single, next: Self) -> bool {
        all_pulled(engine, self.gravity, time_step, self.objs(), next.objs()) && self.same_but_bodies(next)
    }

    pub open spec fn goes<E: Motion>(self, engine: &E, time_step: Single, next: Self) -> bool {
        all_gone(engine, time_step, self.objs(), next.objs()) && self.same_but_bodies(next)
    }

    pub open spec fn nods<E: Motion>(self, engine: &E, time_step: Single, next: Self) -> bool {
        all_nodded(engine, time_step, self.objs(), next.objs()) && self.same_but_bodies(next)
    }

    pub open spec fn spends(self, next: Self) -> bool {
        all_spent(self.objs(), next.objs()) && self.same_but_bodies(next)
    }

    /// The contacts are solved.
    pub open spec fn settles<T: ContactAddedCallback, E: Engine<T>>(
        self,
        engine: &E,
        time_step: Single,
        listener: T,
        next: Self,
        told: T,
    ) -> bool {
        &&& self.solver.group().handles(
            engine,
            engine,
            self.objs(),
            self.dynamic_body_idcs@,
            self.manifolds(),
            time_step,
            listener,
            next.objs(),
            told,
        )
        &&& all_carried(self.objs(), next.objs())
        &&& next.manifolds().len() == 0
        &&& next.solver.group().idle()
        &&& next.collision_world.broadphase_pair_cache == self.collision_world.broadphase_pair_cache
        &&& next.collision_world.num_skippable_statics == self.collision_world.num_skippable_statics
        &&& next.dynamic_body_idcs == self.dynamic_body_idcs
        &&& next.gravity == self.gravity
    }

    /// The contacts are found, but for the pairs to be skipped: the boxes of the bodies are set anew,
    /// but for those of the first bodies that do not move.
    pub open spec fn finds<T: ContactAddedCallback, E: Engine<T>>(
        self,
        engine: &E,
        skipped: &Vec<(usize, usize)>,
        listener: T,
        next: Self,
        told: T,
    ) -> bool {
        &&& call_ensures(
            E::dispatch_all,
            (
                engine,
                &self.collision_world.collision_objs,
                &next.collision_world.broadphase_pair_cache,
                skipped,
                self.collision_world.dispatcher1.manifolds,
                listener,
            ),
            (next.collision_world.dispatcher1.manifolds, told),
        )
        &&& next.collision_world.collision_objs == self.collision_world.collision_objs
        &&& forall|i: int|
            self.collision_world.num_skippable_statics <= i < self.objs().len() ==> surrounds(
                engine,
                self.objs()[i],
                (#[trigger] next.collision_world.broadphase_pair_cache.proxies@[i]).aabb,
            )
        &&& forall|i: int|
            0 <= i < self.collision_world.num_skippable_statics
                ==> #[trigger] next.collision_world.broadphase_pair_cache.proxies@[i]
                == self.collision_world.broadphase_pair_cache.proxies@[i]
        &&& forall|i: int|
            0 <= i < self.objs().len() ==> (#[trigger] next.collision_world.broadphase_pair_cache.proxies@[i]).filter_group
                == self.collision_world.broadphase_pair_cache.proxies@[i].filter_group
                && next.collision_world.broadphase_pair_cache.proxies@[i].filter_mask
                == self.collision_world.broadphase_pair_cache.proxies@[i].filter_mask
        &&& statics_end(self.objs(), next.collision_world.num_skippable_statics as int)
        &&& next.solver == self.solver
        &&& next.dynamic_body_idcs == self.dynamic_body_idcs
        &&& next.gravity == self.gravity
    }

    /// The contact of a pair is looked for, if the two may touch.
    pub open spec fn tries<T: ContactAddedCallback, E: Engine<T>>(
        self,
        engine: &E,
        pair: (usize, usize),
        listener: T,
        next: Self,
        told: T,
        touched: bool,
    ) -> bool {
        &&& exists|can: bool| #[trigger]
            self.collision_world.collidable::<T, E>(engine, pair.0 as int, pair.1 as int, can) && if can {
                call_ensures(
                    E::dispatch_pair,
                    (
                        engine,
                        &self.collision_world.collision_objs,
                        pair.0,
                        pair.1,
                        self.collision_world.dispatcher1.manifolds,
                        listener,
                    ),
                    (next.collision_world.dispatcher1.manifolds, told, touched),
                )
            } else {
                next.collision_world.dispatcher1 == self.collision_world.dispatcher1 && told == listener && !touched
            }
        &&& next.collision_world.collision_objs == self.collision_world.collision_objs
        &&& next.collision_world.broadphase_pair_cache == self.collision_world.broadphase_pair_cache
        &&& next.collision_world.num_skippable_statics == self.collision_world.num_skippable_statics
        &&& next.solver == self.solver
        &&& next.dynamic_body_idcs == self.dynamic_body_idcs
        &&& next.gravity == self.gravity
    }

    /// When the two of a pair touch, within a time: at once if they do already.
    pub open spec fn touch_time<E: Geometry>(
        self,
        engine: &E,
        pair: (usize, usize),
        remaining: Single,
        toi: Option<Single>,
    ) -> bool {
        if overlaps(self.collision_world.pair_gap(pair)) {
            toi == Some(Single { bits: 0 })
        } else {
            self.collision_world.pair_impact(engine, pair, remaining, false, toi)
        }
    }

    /// Of the pairs from the `k`th on, and the `best` one so far, `found` is the one that touches
    /// first, and of several the first one.
    pub open spec fn comes_first<E: Geometry>(
        self,
        engine: &E,
        pairs: Seq<(usize, usize)>,
        k: nat,
        remaining: Single,
        best: Option<(usize, Single)>,
        found: Option<(usize, Single)>,
    ) -> bool
        decreases pairs.len() - k,
    {
        if k >= pairs.len() {
            found == best
        } else {
            exists|toi: Option<Single>| #[trigger]
                self.touch_time(engine, pairs[k as int], remaining, toi) && self.comes_first(
                    engine,
                    pairs,
                    k + 1,
                    remaining,
                    or_earlier(best, k as usize, toi),
                    found,
                )
        }
    }

    /// The contacts of the pairs from the `k`th on are looked for; those that touch are added to
    /// `resolved`.
    pub open spec fn tries_all<T: ContactAddedCallback, E: Engine<T>>(
        self,
        engine: &E,
        pairs: Seq<(usize, usize)>,
        k: nat,
        resolved: Seq<usize>,
        listener: T,
        end: Self,
        told: T,
        all: Seq<usize>,
    ) -> bool
        decreases pairs.len() - k,
    {
        if k >= pairs.len() {
            end == self && told == listener && all == resolved
        } else {
            exists|next: Self, heard: T, touched: bool| #[trigger]
                self.tries(engine, pairs[k as int], listener, next, heard, touched) && next.tries_all(
                    engine,
                    pairs,
                    k + 1,
                    if touched {
                        resolved.push(k as usize)
                    } else {
                        resolved
                    },
                    heard,
                    end,
                    told,
                    all,
                )
        }
    }
}

/// There is no gap.
pub open spec fn overlaps(gap: Option<Single>) -> bool {
    gap is Some && gap->Some_0.at_most(Single { bits: 0 })
}

/// The earlier of the best time so far and that of the `k`th pair.
pub open spec fn or_earlier(best: Option<(usize, Single)>, k: usize, toi: Option<Single>) -> Option<(usize, Single)> {
    match toi {
        Some(t) if best is None || t.less(best->Some_0.1) => Some((k, t)),
        _ => best,
    }
}

/// A sequence without its `k`th item, in whose place the last one moves.
pub open spec fn swap_removed(pairs: Seq<(usize, usize)>, k: int) -> Seq<(usize, usize)> {
    pairs.update(k, pairs.last()).drop_last()
}

/// A sequence without some of its items, which are taken out from the last one on.
pub open spec fn without(pairs: Seq<(usize, usize)>, resolved: Seq<usize>) -> Seq<(usize, usize)>
    decreases resolved.len(),
{
    if resolved.len() == 0 {
        pairs
    } else {
        without(swap_removed(pairs, resolved.last() as int), resolved.drop_last())
    }
}

impl DiscreteDynamicsWorld {
    /// Solves the contacts.
    fn solve_constraints<T: ContactAddedCallback, E: Engine<T>>(
        &mut self,
        engine: &E,
        time_step: Single,
        listener: T,
    ) -> (told: T)
        requires
            old(self).wf_waiting(),
        ensures
            old(self).settles(engine, time_step, listener, *final(self), told),
            final(self).wf(),
            akin(old(self).objs(), final(self).objs()),
    {
        let ghost objs = self.objs();
        proof {
            assert(self.collision_world.collision_objs.len() <= usize::MAX);
            lemma_movers_movable(objs);
        }
        let told = self.solver.solve_group(
            engine,
            engine,
            &mut self.collision_world.collision_objs,
            &self.dynamic_body_idcs,
            &mut self.collision_world.dispatcher1.manifolds,
            time_step,
            listener,
        );
        proof {
            lemma_carried_akin(objs, self.objs());
            lemma_asleep_akin(objs, self.objs());
            lemma_movers_same(objs, self.objs(), objs.len() as int);
        }
        told
    }

    /// Looks for the contact of a pair.
    fn try_pair<T: ContactAddedCallback, E: Engine<T>>(
        &mut self,
        engine: &E,
        pair: (usize, usize),
        listener: T,
    ) -> (r: (T, bool))
        requires
            old(self).wf_waiting(),
            sound::<T, E>(engine, old(self).objs()),
            pair.0 < old(self).objs().len(),
            pair.1 < old(self).objs().len(),
            pair.0 != pair.1,
        ensures
            old(self).tries(engine, pair, listener, *final(self), r.0, r.1),
            final(self).wf_waiting(),
    {
        let ghost objs = self.objs();
        let ghost before = self.manifolds();
        let r = self.collision_world.dispatch_pair(engine, pair.0, pair.1, listener);
        proof {
            lemma_akin_same(objs);
            if objs[pair.0 as int].active || objs[pair.1 as int].active {
                assert(may_meet(objs, pair.0, pair.1));
            }
            if self.manifolds() != before {
                lemma_ready_grows(before, self.manifolds(), objs);
            }
        }
        r
    }

    /// The pair that touches first, within a time.
    fn first_to_touch<T, E: Engine<T>>(
        &self,
        engine: &E,
        pairs: &Vec<(usize, usize)>,
        remaining: Single,
    ) -> (r: Option<(usize, Single)>)
        requires
            are_car_ball_pairs(self.objs(), pairs@),
        ensures
            self.comes_first(engine, pairs@, 0, remaining, None, r),
            r is Some ==> r->Some_0.0 < pairs@.len(),
    {
        let ghost none: Option<(usize, Single)> = None;
        let mut earliest: Option<(usize, Single)> = None;
        let mut k: usize = 0;
        while k < pairs.len()
            invariant
                k <= pairs@.len(),
                none is None,
                are_car_ball_pairs(self.objs(), pairs@),
                earliest is Some ==> earliest->Some_0.0 < k,
                forall|found: Option<(usize, Single)>| #[trigger]
                    self.comes_first(engine, pairs@, k as nat, remaining, earliest, found) ==> self.comes_first(
                        engine,
                        pairs@,
                        0,
                        remaining,
                        none,
                        found,
                    ),
            decreases pairs@.len() - k,
        {
            let ghost here = earliest;
            let ghost at = k as nat;
            let pair = pairs[k];
            proof {
                assert(is_car_ball_pair(self.objs(), pairs@[k as int]));
            }
            let overlap: bool = match self.collision_world.car_ball_separation(pair) {
                Some(separation) => separation.le(Single::zero()),
                None => false,
            };
            let toi: Option<Single> = if overlap {
                Some(Single::zero())
            } else {
                self.collision_world.car_ball_time_of_impact(engine, pair, remaining, false)
            };
            if let Some(t) = toi {
                let earlier: bool = match earliest {
                    Some((_, first)) => t.lt(first),
                    None => true,
                };
                if earlier {
                    earliest = Some((k, t));
                }
            }
            k = k + 1;
            proof {
                assert(earliest == or_earlier(here, at as usize, toi));
                assert forall|found: Option<(usize, Single)>| #[trigger]
                    self.comes_first(
                        engine,
                        pairs@,
                        k as nat,
                        remaining,
                        earliest,
                        found,
                    ) implies self.comes_first(engine, pairs@, 0, remaining, none, found) by {
                    assert(self.touch_time(engine, pairs@[at as int], remaining, toi));
                    assert(self.comes_first(engine, pairs@, at, remaining, here, found));
                }
            }
        }
        proof {
            assert(self.comes_first(engine, pairs@, k as nat, remaining, earliest, earliest));
        }
        earliest
    }

    /// Looks for the contacts of all pairs; the places of those that touch.
    fn try_pairs<T: ContactAddedCallback, E: Engine<T>>(
        &mut self,
        engine: &E,
        pairs: &Vec<(usize, usize)>,
        listener: T,
    ) -> (r: (T, Vec<usize>))
        requires
            old(self).wf_waiting(),
            sound::<T, E>(engine, old(self).objs()),
            are_car_ball_pairs(old(self).objs(), pairs@),
        ensures
            old(self).tries_all(engine, pairs@, 0, Seq::empty(), listener, *final(self), r.0, r.1@),
            final(self).wf_waiting(),
            final(self).objs() == old(self).objs(),
            forall|j: int| 0 <= j < r.1@.len() ==> #[trigger] r.1@[j] < pairs@.len(),
            forall|j: int, l: int| 0 <= j < l < r.1@.len() ==> #[trigger] r.1@[j] < #[trigger] r.1@[l],
    {
        let ghost start = *self;
        let ghost first = listener;
        let ghost none: Seq<usize> = Seq::empty();
        let mut told = listener;
        let mut resolved: Vec<usize> = Vec::new();
        let mut k: usize = 0;
        proof {
            assert(resolved@ =~= none);
        }
        while k < pairs.len()
            invariant
                k <= pairs@.len(),
                start == *old(self),
                self.wf_waiting(),
                self.objs() == start.objs(),
                sound::<T, E>(engine, self.objs()),
                are_car_ball_pairs(start.objs(), pairs@),
                forall|j: int| 0 <= j < resolved@.len() ==> #[trigger] resolved@[j] < k,
                forall|j: int, l: int| 0 <= j < l < resolved@.len() ==> #[trigger] resolved@[j] < #[trigger] resolved@[l],
                forall|end: Self, heard: T, all: Seq<usize>| #[trigger]
                    self.tries_all(engine, pairs@, k as nat, resolved@, told, end, heard, all) ==> start.tries_all(
                        engine,
                        pairs@,
                        0,
                        none,
                        first,
                        end,
                        heard,
                        all,
                    ),
            decreases pairs@.len() - k,
        {
            let ghost here = *self;
            let ghost before = told;
            let ghost so_far = resolved@;
            let ghost at = k as nat;
            proof {
                assert(is_car_ball_pair(start.objs(), pairs@[k as int]));
            }
            let (heard, touched) = self.try_pair(engine, pairs[k], told);
            told = heard;
            if touched {
                resolved.push(k);
            }
            k = k + 1;
            proof {
                let now = *self;
                assert(here.tries(engine, pairs@[at as int], before, now, told, touched));
                assert forall|end: Self, heard: T, all: Seq<usize>| #[trigger]
                    self.tries_all(
                        engine,
                        pairs@,
                        k as nat,
                        resolved@,
                        told,
                        end,
                        heard,
                        all,
                    ) implies start.tries_all(engine, pairs@, 0, none, first, end, heard, all) by {
                    assert(here.tries_all(engine, pairs@, at, so_far, before, end, heard, all));
                }
            }
        }
        proof {
            assert(self.tries_all(engine, pairs@, k as nat, resolved@, told, *self, told, resolved@));
        }
        (told, resolved)
    }
}

/// Takes some items out of a list, from the last one on.
fn take_out(pairs: &mut Vec<(usize, usize)>, resolved: &Vec<usize>)
    requires
        forall|j: int| 0 <= j < resolved@.len() ==> #[trigger] resolved@[j] < old(pairs)@.len(),
        forall|j: int, l: int| 0 <= j < l < resolved@.len() ==> #[trigger] resolved@[j] < #[trigger] resolved@[l],
    ensures
        final(pairs)@ == without(old(pairs)@, resolved@),
        final(pairs)@.len() == old(pairs)@.len() - resolved@.len(),
        forall|i: int| 0 <= i < final(pairs)@.len() ==> old(pairs)@.contains(#[trigger] final(pairs)@[i]),
{
    let ghost start = pairs@;
    let mut left: usize = resolved.len();
    proof {
        assert(resolved@.take(left as int) =~= resolved@);
    }
    while left > 0
        invariant
            left <= resolved@.len(),
            start == old(pairs)@,
            forall|j: int, l: int| 0 <= j < l < resolved@.len() ==> #[trigger] resolved@[j] < #[trigger] resolved@[l],
            pairs@.len() == start.len() - (resolved@.len() - left),
            forall|j: int| 0 <= j < left ==> #[trigger] resolved@[j] < pairs@.len(),
            without(pairs@, resolved@.take(left as int)) == without(start, resolved@),
            forall|i: int| 0 <= i < pairs@.len() ==> start.contains(#[trigger] pairs@[i]),
        decreases left,
    {
        let ghost here = pairs@;
        let idx: usize = resolved[left - 1];
        let _removed = pairs.swap_remove(idx);
        proof {
            let near = resolved@.take(left as int);
            assert(near.last() == idx);
            assert(near.drop_last() =~= resolved@.take(left - 1));
            assert(pairs@ == swap_removed(here, idx as int));
            assert forall|j: int| 0 <= j < left - 1 implies #[trigger] resolved@[j] < pairs@.len() by {
                assert(resolved@[j] < resolved@[left - 1]);
            }
            assert forall|i: int| 0 <= i < pairs@.len() implies start.contains(#[trigger] pairs@[i]) by {
                if i == idx {
                    assert(pairs@[i] == here[here.len() - 1]);
                } else {
                    assert(pairs@[i] == here[i]);
                }
            }
        }
        left = left - 1;
    }
    proof {
        assert(resolved@.take(0).len() == 0);
    }
}

/// What is left of a step after one turn of playing out its pairs.
pub ghost struct Turn<T> {
    pub world: DiscreteDynamicsWorld,
    pub pairs: Seq<(usize, usize)>,
    pub remaining: Single,
    pub told: T,
    /// No pair touches any longer.
    pub over: bool,
}

impl DiscreteDynamicsWorld {
    /// Everything moves on to a time, if it is not now.
    pub open spec fn reaches<E: Motion>(self, engine: &E, toi: Single, there: Self) -> bool {
        if (Single { bits: 0 }).less(toi) {
            self.goes(engine, toi, there)
        } else {
            there == self
        }
    }

    /// No pair is known to touch, so all of them are looked for; those that do touch are solved.
    #[verifier::opaque]
    pub open spec fn stalls<T: ContactAddedCallback, E: Engine<T>>(
        self,
        engine: &E,
        pairs: Seq<(usize, usize)>,
        remaining: Single,
        listener: T,
        turn: Turn<T>,
    ) -> bool {
        exists|next: Self, heard: T, resolved: Seq<usize>| #[trigger]
            self.tries_all(engine, pairs, 0, Seq::empty(), listener, next, heard, resolved) && if resolved.len() == 0 {
                turn == (Turn { world: next, pairs, remaining, told: heard, over: true })
            } else {
                next.settles(engine, at_least_epsilon(remaining), heard, turn.world, turn.told) && turn == (Turn {
                    world: turn.world,
                    pairs: without(pairs, resolved),
                    remaining,
                    told: turn.told,
                    over: false,
                })
            }
    }

    /// The `k`th pair touches at a time: everything moves there, and the pair is looked for and
    /// solved.
    #[verifier::opaque]
    pub open spec fn strikes<T: ContactAddedCallback, E: Engine<T>>(
        self,
        engine: &E,
        pairs: Seq<(usize, usize)>,
        remaining: Single,
        k: usize,
        toi: Single,
        listener: T,
        turn: Turn<T>,
    ) -> bool {
        exists|there: Self, next: Self, heard: T, touched: bool| #[trigger]
            self.reaches(engine, toi, there) && #[trigger] there.tries(
                engine,
                pairs[k as int],
                listener,
                next,
                heard,
                touched,
            ) && if touched {
                next.settles(
                    engine,
                    at_least_epsilon(time_left(remaining, toi)),
                    heard,
                    turn.world,
                    turn.told,
                )
            } else {
                turn.world == next && turn.told == heard
            } && turn == (Turn {
                world: turn.world,
                pairs: swap_removed(pairs, k as int),
                remaining: time_left(remaining, toi),
                told: turn.told,
                over: false,
            })
    }

    /// One turn of playing out pairs: the first one to touch.
    #[verifier::opaque]
    pub open spec fn turns<T: ContactAddedCallback, E: Engine<T>>(
        self,
        engine: &E,
        pairs: Seq<(usize, usize)>,
        remaining: Single,
        listener: T,
        turn: Turn<T>,
    ) -> bool {
        exists|found: Option<(usize, Single)>| #[trigger]
            self.comes_first(engine, pairs, 0, remaining, None, found) && match found {
                None => self.stalls(engine, pairs, remaining, listener, turn),
                Some((k, toi)) => self.strikes(engine, pairs, remaining, k, toi, listener, turn),
            }
    }

    /// Pairs that may touch within the rest of a step are played out turn by turn, until none is
    /// left or none touches any longer; then everything moves on for the time that remains.
    pub open spec fn plays_out<T: ContactAddedCallback, E: Engine<T>>(
        self,
        engine: &E,
        pairs: Seq<(usize, usize)>,
        remaining: Single,
        listener: T,
        end: Self,
        told: T,
    ) -> bool
        decreases pairs.len(),
    {
        if pairs.len() == 0 {
            self.goes(engine, remaining, end) && told == listener
        } else {
            exists|turn: Turn<T>| #[trigger]
                self.turns(engine, pairs, remaining, listener, turn) && if turn.over {
                    turn.world.goes(engine, turn.remaining, end) && told == turn.told
                } else {
                    turn.pairs.len() < pairs.len() && turn.world.plays_out(
                        engine,
                        turn.pairs,
                        turn.remaining,
                        turn.told,
                        end,
                        told,
                    )
                }
        }
    }

    /// Looks for all pairs, and solves those that touch.
    fn stall<T: ContactAddedCallback, E: Engine<T>>(
        &mut self,
        engine: &E,
        remaining: Single,
        pairs: &mut Vec<(usize, usize)>,
        listener: T,
    ) -> (r: (T, bool))
        requires
            old(self).wf_waiting(),
            sound::<T, E>(engine, old(self).objs()),
            are_car_ball_pairs(old(self).objs(), old(pairs)@),
        ensures
            old(self).stalls(
                engine,
                old(pairs)@,
                remaining,
                listener,
                (Turn { world: *final(self), pairs: final(pairs)@, remaining, told: r.0, over: r.1 }),
            ),
            final(self).wf_waiting(),
            akin(old(self).objs(), final(self).objs()),
            forall|i: int| 0 <= i < final(pairs)@.len() ==> old(pairs)@.contains(#[trigger] final(pairs)@[i]),
            !r.1 ==> final(pairs)@.len() < old(pairs)@.len(),
    {
        proof {
            reveal(DiscreteDynamicsWorld::stalls);
        }
        let ghost start = *self;
        proof {
            lemma_akin_same(start.objs());
        }
        let (heard, resolved) = self.try_pairs(engine, pairs, listener);
        let ghost next = *self;
        proof {
            assert(start.tries_all(engine, old(pairs)@, 0, Seq::empty(), listener, next, heard, resolved@));
        }
        if resolved.len() == 0 {
            return (heard, true);
        }
        take_out(pairs, &resolved);
        let told = self.solve_constraints(engine, remaining.max(Single::of(EPSILON)), heard);
        (told, false)
    }

    /// Moves on to the time at which a pair touches, looks for it, and solves it.
    fn strike<T: ContactAddedCallback, E: Engine<T>>(
        &mut self,
        engine: &E,
        remaining: Single,
        pairs: &mut Vec<(usize, usize)>,
        pair_idx: usize,
        toi: Single,
        listener: T,
    ) -> (told: T)
        requires
            old(self).wf_waiting(),
            sound::<T, E>(engine, old(self).objs()),
            are_car_ball_pairs(old(self).objs(), old(pairs)@),
            pair_idx < old(pairs)@.len(),
        ensures
            old(self).strikes(
                engine,
                old(pairs)@,
                remaining,
                pair_idx,
                toi,
                listener,
                (Turn {
                    world: *final(self),
                    pairs: final(pairs)@,
                    remaining: time_left(remaining, toi),
                    told,
                    over: false,
                }),
            ),
            final(self).wf_waiting(),
            akin(old(self).objs(), final(self).objs()),
            forall|i: int| 0 <= i < final(pairs)@.len() ==> old(pairs)@.contains(#[trigger] final(pairs)@[i]),
            final(pairs)@.len() < old(pairs)@.len(),
    {
        proof {
            reveal(DiscreteDynamicsWorld::strikes);
        }
        let ghost start = *self;
        let ghost all = pairs@;
        proof {
            lemma_akin_same(start.objs());
        }
        let left = if toi.gt(Single::zero()) { remaining.minus(toi) } else { remaining };
        if toi.gt(Single::zero()) {
            self.move_on::<T, E>(engine, toi);
        }
        let ghost there = *self;
        proof {
            assert(start.reaches(engine, toi, there));
            lemma_sound_akin::<T, E>(engine, start.objs(), there.objs());
            assert(is_car_ball_pair(start.objs(), all[pair_idx as int]));
        }
        let pair: (usize, usize) = pairs.swap_remove(pair_idx);
        proof {
            assert forall|i: int| 0 <= i < pairs@.len() implies all.contains(#[trigger] pairs@[i]) by {
                if i == pair_idx {
                    assert(pairs@[i] == all[all.len() - 1]);
                } else {
                    assert(pairs@[i] == all[i]);
                }
            }
        }
        let (heard, touched) = self.try_pair(engine, pair, listener);
        let ghost next = *self;
        proof {
            assert(there.tries(engine, all[pair_idx as int], listener, next, heard, touched));
        }
        if touched {
            let told = self.solve_constraints(engine, left.max(Single::of(EPSILON)), heard);
            proof {
                lemma_akin_chain(start.objs(), there.objs(), self.objs());
            }
            told
        } else {
            heard
        }
    }

    /// Plays out one turn.
    fn take_turn<T: ContactAddedCallback, E: Engine<T>>(
        &mut self,
        engine: &E,
        remaining: Single,
        pairs: &mut Vec<(usize, usize)>,
        listener: T,
    ) -> (r: (T, Single, bool))
        requires
            old(self).wf_waiting(),
            sound::<T, E>(engine, old(self).objs()),
            are_car_ball_pairs(old(self).objs(), old(pairs)@),
        ensures
            old(self).turns(
                engine,
                old(pairs)@,
                remaining,
                listener,
                (Turn { world: *final(self), pairs: final(pairs)@, remaining: r.1, told: r.0, over: r.2 }),
            ),
            final(self).wf_waiting(),
            akin(old(self).objs(), final(self).objs()),
            are_car_ball_pairs(final(self).objs(), final(pairs)@),
            !r.2 ==> final(pairs)@.len() < old(pairs)@.len(),
    {
        proof {
            reveal(DiscreteDynamicsWorld::turns);
        }
        let ghost start = *self;
        let ghost all = pairs@;
        match self.first_to_touch(engine, pairs, remaining) {
            None => {
                let (told, over) = self.stall(engine, remaining, pairs, listener);
                proof {
                    lemma_pairs_akin(start.objs(), self.objs(), all, pairs@);
                    assert(start.comes_first(engine, all, 0, remaining, None, None));
                }
                (told, remaining, over)
            },
            Some((pair_idx, toi)) => {
                let told = self.strike(engine, remaining, pairs, pair_idx, toi, listener);
                let left = if toi.gt(Single::zero()) { remaining.minus(toi) } else { remaining };
                proof {
                    lemma_pairs_akin(start.objs(), self.objs(), all, pairs@);
                    assert(start.comes_first(engine, all, 0, remaining, None, Some((pair_idx, toi))));
                }
                (told, left, false)
            },
        }
    }

    /// Everything moves on, and waits for the solver as before.
    fn move_on<T: ContactAddedCallback, E: Engine<T>>(&mut self, engine: &E, time_step: Single)
        requires
            old(self).wf_waiting(),
        ensures
            old(self).goes(engine, time_step, *final(self)),
            final(self).wf_waiting(),
            akin(old(self).objs(), final(self).objs()),
    {
        let ghost start = *self;
        self.integrate_trans(engine, time_step);
        proof {
            lemma_still_waiting(start, *self);
        }
    }

    /// Plays out the pairs that may touch within the rest of a step.
    fn solve_car_ball_toi_pairs<T: ContactAddedCallback, E: Engine<T>>(
        &mut self,
        engine: &E,
        time_step: Single,
        pairs: Vec<(usize, usize)>,
        listener: T,
    ) -> (told: T)
        requires
            old(self).wf_waiting(),
            sound::<T, E>(engine, old(self).objs()),
            are_car_ball_pairs(old(self).objs(), pairs@),
        ensures
            old(self).plays_out(engine, pairs@, time_step, listener, *final(self), told),
            final(self).wf_waiting(),
            akin(old(self).objs(), final(self).objs()),
    {
        let ghost start = *self;
        let mut rest = pairs;
        let mut told = listener;
        let mut remaining = time_step;
        proof {
            lemma_akin_same(start.objs());
        }
        while rest.len() > 0
            invariant
                start == *old(self),
                self.wf_waiting(),
                sound::<T, E>(engine, self.objs()),
                akin(start.objs(), self.objs()),
                are_car_ball_pairs(self.objs(), rest@),
                forall|end: Self, heard: T| #[trigger]
                    self.plays_out(engine, rest@, remaining, told, end, heard) ==> start.plays_out(
                        engine,
                        pairs@,
                        time_step,
                        listener,
                        end,
                        heard,
                    ),
            decreases rest@.len(),
        {
            let ghost here = *self;
            let ghost now = rest@;
            let ghost until = remaining;
            let ghost before = told;
            let (heard, left, over) = self.take_turn(engine, remaining, &mut rest, told);
            told = heard;
            remaining = left;
            let ghost turn = Turn { world: *self, pairs: rest@, remaining, told, over };
            proof {
                assert(here.turns(engine, now, until, before, turn));
                lemma_akin_chain(start.objs(), here.objs(), self.objs());
                lemma_sound_akin::<T, E>(engine, here.objs(), self.objs());
            }
            if over {
                let ghost last = *self;
                self.move_on::<T, E>(engine, remaining);
                proof {
                    lemma_akin_chain(start.objs(), last.objs(), self.objs());
                    assert(here.plays_out(engine, now, until, before, *self, told));
                }
                return told;
            }
            proof {
                assert forall|end: Self, heard: T| #[trigger]
                    self.plays_out(engine, rest@, remaining, told, end, heard) implies start.plays_out(
                    engine,
                    pairs@,
                    time_step,
                    listener,
                    end,
                    heard,
                ) by {
                    assert(here.plays_out(engine, now, until, before, end, heard));
                }
            }
        }
        let ghost last = *self;
        self.move_on::<T, E>(engine, remaining);
        proof {
            lemma_akin_chain(start.objs(), last.objs(), self.objs());
            assert(last.plays_out(engine, rest@, remaining, told, *self, told));
        }
        told
    }
}

/// A world stays ready for the solver when its bodies move.
proof fn lemma_still_waiting(a: DiscreteDynamicsWorld, b: DiscreteDynamicsWorld)
    requires
        a.wf_waiting(),
        a.same_but_bodies(b),
        akin(a.objs(), b.objs()),
    ensures
        b.wf_waiting(),
{
    lemma_ready_akin(a.manifolds(), a.objs(), b.objs());
    lemma_asleep_akin(a.objs(), b.objs());
    lemma_movers_same(a.objs(), b.objs(), a.objs().len() as int);
    assert forall|i: int| 0 <= i < b.objs().len() implies (#[trigger] b.objs()[i]).world_array_idx == i
        && b.objs()[i].broadphase_handle == i by {
        assert(a.objs()[i].world_array_idx == i);
    }
    assert forall|i: int| 0 <= i < b.collision_world.num_skippable_statics implies (#[trigger] b.objs()[i]).is_static by {
        assert(a.objs()[i].is_static);
    }
}

/// A time that is not zero.
pub open spec fn at_least_epsilon(time: Single) -> Single {
    time.greater_of(Single { bits: EPSILON })
}

/// The rest of a time after a part of it.
pub open spec fn time_left(remaining: Single, toi: Single) -> Single {
    if (Single { bits: 0 }).less(toi) {
        remaining.minus(toi)
    } else {
        remaining
    }
}

/// Some of the pairs of a car and the ball among bodies are such pairs among the same bodies.
proof fn lemma_pairs_akin(
    a: Seq<RigidBody>,
    b: Seq<RigidBody>,
    pairs: Seq<(usize, usize)>,
    some: Seq<(usize, usize)>,
)
    requires
        akin(a, b),
        are_car_ball_pairs(a, pairs),
        forall|i: int| 0 <= i < some.len() ==> pairs.contains(#[trigger] some[i]),
    ensures
        are_car_ball_pairs(b, some),
{
    assert forall|k: int| 0 <= k < some.len() implies is_car_ball_pair(b, #[trigger] some[k]) by {
        let j = choose|j: int| 0 <= j < pairs.len() && pairs[j] == some[k];
        assert(is_car_ball_pair(a, pairs[j]));
        let pair = some[k];
        assert(b[pair.0 as int].user_idx == a[pair.0 as int].user_idx);
        assert(b[pair.1 as int].user_idx == a[pair.1 as int].user_idx);
    }
}

/// The gap of a pair is beyond its threshold.
pub open spec fn beyond(gap: Option<Single>, threshold: Option<Single>) -> bool {
    gap is Some && threshold is Some && threshold->Some_0.less(gap->Some_0)
}

/// Some pairs without one of them.
pub open spec fn without_pair(pairs: Seq<(usize, usize)>, pair: (usize, usize), n: int) -> Seq<(usize, usize)>
    decreases n,
{
    if n <= 0 {
        Seq::empty()
    } else if pairs[n - 1] == pair {
        without_pair(pairs, pair, n - 1)
    } else {
        without_pair(pairs, pair, n - 1).push(pairs[n - 1])
    }
}

/// Some pairs without those that the first `n` manifolds are of.
pub open spec fn unmet(
    objs: Seq<RigidBody>,
    pairs: Seq<(usize, usize)>,
    manifolds: Seq<PersistentManifold>,
    n: int,
) -> Seq<(usize, usize)>
    decreases n,
{
    if n <= 0 {
        pairs
    } else {
        let before = unmet(objs, pairs, manifolds, n - 1);
        let pair = ordered(manifolds[n - 1].body0_idx, manifolds[n - 1].body1_idx);
        if car_and_ball(objs[pair.0 as int], objs[pair.1 as int]) is Some {
            without_pair(before, pair, before.len() as int)
        } else {
            before
        }
    }
}

impl DiscreteDynamicsWorld {
    /// Of the pairs from the `i`th on those are added to `waiting` that are skipped for now, or too
    /// far apart to be found.
    pub open spec fn waits<T, E: Manifolds<T>>(
        self,
        engine: &E,
        skipped: Seq<(usize, usize)>,
        pairs: Seq<(usize, usize)>,
        i: nat,
        waiting: Seq<(usize, usize)>,
        out: Seq<(usize, usize)>,
    ) -> bool
        decreases pairs.len() - i,
    {
        if i >= pairs.len() {
            out == waiting
        } else if skipped.contains(pairs[i as int]) {
            self.waits::<T, E>(engine, skipped, pairs, i + 1, waiting.push(pairs[i as int]), out)
        } else {
            exists|threshold: Option<Single>| #[trigger]
                self.collision_world.pair_threshold::<T, E>(engine, pairs[i as int], threshold) && self.waits::<T, E>(
                    engine,
                    skipped,
                    pairs,
                    i + 1,
                    if beyond(self.collision_world.pair_gap(pairs[i as int]), threshold) {
                        waiting.push(pairs[i as int])
                    } else {
                        waiting
                    },
                    out,
                )
        }
    }

    /// The pairs of a car and the ball that wait for their contact may be `pending`.
    #[verifier::opaque]
    pub open spec fn expects<T, E: Engine<T>>(
        self,
        engine: &E,
        skipped: Seq<(usize, usize)>,
        pending: Seq<(usize, usize)>,
    ) -> bool {
        exists|pairs: Seq<(usize, usize)>| #[trigger]
            self.collision_world.pairs_up::<T, E>(engine, pairs) && self.waits::<T, E>(
                engine,
                skipped,
                pairs,
                0,
                Seq::empty(),
                pending,
            )
    }

    /// A pair has no gap.
    pub open spec fn meets(self, pairs: Seq<(usize, usize)>) -> bool {
        exists|k: int| 0 <= k < pairs.len() && overlaps(self.collision_world.pair_gap(#[trigger] pairs[k]))
    }

    /// After the contacts were solved: everything moves on, unless a pair that waits has met; then
    /// those pairs are played out, without what forces add to the velocities, which is used up.
    #[verifier::opaque]
    pub open spec fn ends<T: ContactAddedCallback, E: Engine<T>>(
        self,
        engine: &E,
        pending: Seq<(usize, usize)>,
        time_step: Single,
        listener: T,
        there: Self,
        told: T,
    ) -> bool {
        if self.meets(pending) {
            exists|bare: Self| #[trigger]
                self.spends(bare) && bare.plays_out(engine, pending, time_step, listener, there, told)
        } else {
            self.goes(engine, time_step, there) && told == listener
        }
    }

    /// A step: the ways of the bodies are predicted, their contacts found and solved, and everything
    /// moves on and falls asleep or stays awake.
    pub open spec fn steps_inside<T: ContactAddedCallback, E: Engine<T>>(
        self,
        engine: &E,
        time_step: Single,
        listener: T,
        end: Self,
        told: T,
    ) -> bool {
        exists|
            seen: Self,
            skipped: Vec<(usize, usize)>,
            pending: Seq<(usize, usize)>,
            found: Self,
            heard: T,
            settled: Self,
            last: T,
            there: Self,
        |
            skipped@.len() == 0 && #[trigger] self.foresees(engine, time_step, seen) && #[trigger] seen.expects::<T, E>(
                engine,
                skipped@,
                pending,
            ) && #[trigger] seen.finds(engine, &skipped, listener, found, heard) && #[trigger] found.settles(
                engine,
                time_step,
                heard,
                settled,
                last,
            ) && #[trigger] settled.ends(
                engine,
                unmet(found.objs(), pending, found.manifolds(), found.manifolds().len() as int),
                time_step,
                last,
                there,
                told,
            ) && there.nods(engine, time_step, end)
    }

    /// A step under gravity, which pulls first.
    pub open spec fn steps<T: ContactAddedCallback, E: Engine<T>>(
        self,
        engine: &E,
        time_step: Single,
        listener: T,
        end: Self,
        told: T,
    ) -> bool {
        exists|pulled: Self| #[trigger]
            self.pulls(engine, time_step, pulled) && pulled.steps_inside(engine, time_step, listener, end, told)
    }

    /// The pairs of a car and the ball that wait for their contact.
    fn pending_pairs<T, E: Engine<T>>(&self, engine: &E, skipped: &Vec<(usize, usize)>) -> (r: Vec<(usize, usize)>)
        requires
            self.collision_world.wf(),
        ensures
            self.expects::<T, E>(engine, skipped@, r@),
            are_car_ball_pairs(self.objs(), r@),
    {
        let pairs = self.collision_world.car_ball_pairs::<T, E>(engine);
        let ghost none: Seq<(usize, usize)> = Seq::empty();
        let mut waiting: Vec<(usize, usize)> = Vec::new();
        proof {
            assert(waiting@ =~= none);
        }
        let mut i: usize = 0;
        while i < pairs.len()
            invariant
                i <= pairs@.len(),
                are_car_ball_pairs(self.objs(), pairs@),
                are_car_ball_pairs(self.objs(), waiting@),
                forall|out: Seq<(usize, usize)>| #[trigger]
                    self.waits::<T, E>(engine, skipped@, pairs@, i as nat, waiting@, out) ==> self.waits::<T, E>(
                        engine,
                        skipped@,
                        pairs@,
                        0,
                        none,
                        out,
                    ),
            decreases pairs@.len() - i,
        {
            let ghost here = waiting@;
            let ghost at = i as nat;
            let pair = pairs[i];
            let ghost mut limit: Option<Single> = None;
            proof {
                assert(is_car_ball_pair(self.objs(), pairs@[i as int]));
            }
            let skip: bool = has_pair(skipped, pair);
            if skip {
                waiting.push(pair);
            } else {
                let separation = self.collision_world.car_ball_separation(pair);
                let threshold = self.collision_world.car_ball_contact_threshold::<T, E>(engine, pair);
                proof {
                    limit = threshold;
                }
                let apart: bool = match (separation, threshold) {
                    (Some(gap), Some(limit)) => gap.gt(limit),
                    _ => false,
                };
                if apart {
                    waiting.push(pair);
                }
            }
            i = i + 1;
            proof {
                assert forall|out: Seq<(usize, usize)>| #[trigger]
                    self.waits::<T, E>(
                        engine,
                        skipped@,
                        pairs@,
                        i as nat,
                        waiting@,
                        out,
                    ) implies self.waits::<T, E>(engine, skipped@, pairs@, 0, none, out) by {
                    if !skip {
                        assert(self.collision_world.pair_threshold::<T, E>(engine, pairs@[at as int], limit));
                    }
                    assert(self.waits::<T, E>(engine, skipped@, pairs@, at, here, out));
                }
            }
        }
        proof {
            reveal(DiscreteDynamicsWorld::expects);
            assert(self.waits::<T, E>(engine, skipped@, pairs@, i as nat, waiting@, waiting@));
        }
        waiting
    }

    /// The pairs that wait still after manifolds were found.
    fn still_unmet(&self, pending: Vec<(usize, usize)>) -> (r: Vec<(usize, usize)>)
        requires
            ready(self.manifolds(), self.objs()),
            are_car_ball_pairs(self.objs(), pending@),
        ensures
            r@ == unmet(self.objs(), pending@, self.manifolds(), self.manifolds().len() as int),
            are_car_ball_pairs(self.objs(), r@),
    {
        let ghost all = pending@;
        let mut left = pending;
        let mut i: usize = 0;
        while i < self.collision_world.dispatcher1.manifolds.len()
            invariant
                i <= self.manifolds().len(),
                ready(self.manifolds(), self.objs()),
                are_car_ball_pairs(self.objs(), left@),
                left@ == unmet(self.objs(), all, self.manifolds(), i as int),
            decreases self.manifolds().len() - i,
        {
            let a: usize = self.collision_world.dispatcher1.manifolds[i].body0_idx;
            let b: usize = self.collision_world.dispatcher1.manifolds[i].body1_idx;
            let pair: (usize, usize) = if a <= b { (a, b) } else { (b, a) };
            proof {
                assert(solvable(self.manifolds()[i as int], self.objs()));
            }
            if self.collision_world.car_ball_separation(pair).is_some() {
                left = drop_pair(&left, pair, Ghost(self.objs()));
            }
            i = i + 1;
        }
        left
    }

    /// A pair has no gap, or will have none within a time.
    fn any_meets<E: Geometry>(&self, engine: &E, pairs: &Vec<(usize, usize)>, time_step: Single) -> (r: bool)
        requires
            are_car_ball_pairs(self.objs(), pairs@),
        ensures
            r == self.meets(pairs@),
    {
        let mut i: usize = 0;
        while i < pairs.len()
            invariant
                i <= pairs@.len(),
                are_car_ball_pairs(self.objs(), pairs@),
                forall|k: int| 0 <= k < i ==> !overlaps(self.collision_world.pair_gap(#[trigger] pairs@[k])),
            decreases pairs@.len() - i,
        {
            let pair = pairs[i];
            proof {
                assert(is_car_ball_pair(self.objs(), pairs@[i as int]));
            }
            let overlap: bool = match self.collision_world.car_ball_separation(pair) {
                Some(separation) => separation.le(Single::zero()),
                None => false,
            };
            if overlap || self.collision_world.car_ball_time_of_impact(engine, pair, time_step, false).is_some() {
                proof {
                    assert(overlaps(self.collision_world.pair_gap(pairs@[i as int])));
                }
                return true;
            }
            i = i + 1;
        }
        false
    }

    /// Finds the contacts.
    fn find_contacts<T: ContactAddedCallback, E: Engine<T>>(
        &mut self,
        engine: &E,
        skipped: &Vec<(usize, usize)>,
        listener: T,
    ) -> (told: T)
        requires
            old(self).wf_waiting(),
            sound::<T, E>(engine, old(self).objs()),
        ensures
            old(self).finds(engine, skipped, listener, *final(self), told),
            final(self).wf_waiting(),
    {
        let ghost objs = self.objs();
        let ghost before = self.manifolds();
        let told = self.collision_world.perform_discrete_collision_detection(engine, engine, skipped, listener);
        proof {
            lemma_akin_same(objs);
            lemma_ready_grows(before, self.manifolds(), objs);
        }
        told
    }

    /// Moves everything on after the contacts were solved.
    fn end_step<T: ContactAddedCallback, E: Engine<T>>(
        &mut self,
        engine: &E,
        pending: Vec<(usize, usize)>,
        time_step: Single,
        listener: T,
        has_toi_pairs: bool,
    ) -> (told: T)
        requires
            old(self).wf_waiting(),
            sound::<T, E>(engine, old(self).objs()),
            are_car_ball_pairs(old(self).objs(), pending@),
            !has_toi_pairs,
        ensures
            old(self).ends(engine, pending@, time_step, listener, *final(self), told),
            final(self).wf_waiting(),
            akin(old(self).objs(), final(self).objs()),
    {
        proof {
            reveal(DiscreteDynamicsWorld::ends);
        }
        let ghost start = *self;
        let has_toi_after_solve: bool = self.any_meets(engine, &pending, time_step);
        if !has_toi_pairs && !has_toi_after_solve {
            self.move_on::<T, E>(engine, time_step);
            listener
        } else {
            self.consume_accumulated_velocities();
            let ghost bare = *self;
            proof {
                lemma_still_waiting(start, bare);
                lemma_sound_akin::<T, E>(engine, start.objs(), bare.objs());
                lemma_pairs_akin(start.objs(), bare.objs(), pending@, pending@);
                assert(start.spends(bare));
            }
            let told = self.solve_car_ball_toi_pairs(engine, time_step, pending, listener);
            proof {
                lemma_akin_chain(start.objs(), bare.objs(), self.objs());
            }
            told
        }
    }

    fn internal_single_step_simulation<T: ContactAddedCallback, E: Engine<T>>(
        &mut self,
        engine: &E,
        time_step: Single,
        listener: T,
    ) -> (told: T)
        requires
            old(self).wf_waiting(),
            sound::<T, E>(engine, old(self).objs()),
        ensures
            old(self).steps_inside(engine, time_step, listener, *final(self), told),
            final(self).wf_waiting(),
            akin(old(self).objs(), final(self).objs()),
    {
        let ghost start = *self;
        self.predict_unconstraint_motion(engine, time_step);
        let ghost seen = *self;
        proof {
            lemma_still_waiting(start, seen);
            lemma_sound_akin::<T, E>(engine, start.objs(), seen.objs());
            assert(start.foresees(engine, time_step, seen));
        }
        let toi_pairs = self.collision_world.car_ball_toi_pairs::<T, E, E>(engine, engine, time_step);
        let pending = self.pending_pairs::<T, E>(engine, &toi_pairs);
        let ghost waiting = pending@;
        let heard = self.find_contacts(engine, &toi_pairs, listener);
        let ghost found = *self;
        let unmet_pairs = self.still_unmet(pending);
        let last = self.solve_constraints(engine, time_step, heard);
        let ghost settled = *self;
        proof {
            assert(seen.finds(engine, &toi_pairs, listener, found, heard));
            assert(found.settles(engine, time_step, heard, settled, last));
            lemma_pairs_akin(found.objs(), settled.objs(), unmet_pairs@, unmet_pairs@);
            lemma_sound_akin::<T, E>(engine, found.objs(), settled.objs());
        }
        let told = self.end_step(engine, unmet_pairs, time_step, last, toi_pairs.len() > 0);
        let ghost there = *self;
        self.update_activation_state(engine, time_step);
        proof {
            lemma_still_waiting(there, *self);
            assert(there.nods(engine, time_step, *self));
            assert(seen.expects::<T, E>(engine, toi_pairs@, waiting));
            lemma_akin_chain(start.objs(), found.objs(), settled.objs());
            lemma_akin_chain(start.objs(), settled.objs(), there.objs());
            lemma_akin_chain(start.objs(), there.objs(), self.objs());
        }
        told
    }

    /// Steps the world: gravity pulls, and then everything moves.
    pub fn step_simulation<T: ContactAddedCallback, E: Engine<T>>(
        &mut self,
        engine: &E,
        time_step: Single,
        listener: T,
    ) -> (told: T)
        requires
            old(self).wf_waiting(),
            sound::<T, E>(engine, old(self).objs()),
        ensures
            old(self).steps(engine, time_step, listener, *final(self), told),
            final(self).wf_waiting(),
            akin(old(self).objs(), final(self).objs()),
    {
        let ghost start = *self;
        self.apply_gravity(engine, time_step);
        let ghost pulled = *self;
        proof {
            lemma_still_waiting(start, pulled);
            lemma_sound_akin::<T, E>(engine, start.objs(), pulled.objs());
            assert(start.pulls(engine, time_step, pulled));
        }
        let told = self.internal_single_step_simulation(engine, time_step, listener);
        proof {
            lemma_akin_chain(start.objs(), pulled.objs(), self.objs());
        }
        told
    }
}

/// A list holds a pair.
fn has_pair(pairs: &Vec<(usize, usize)>, pair: (usize, usize)) -> (r: bool)
    ensures
        r == pairs@.contains(pair),
{
    let mut i: usize = 0;
    while i < pairs.len()
        invariant
            i <= pairs@.len(),
            forall|k: int| 0 <= k < i ==> #[trigger] pairs@[k] != pair,
        decreases pairs@.len() - i,
    {
        let other = pairs[i];
        if other.0 == pair.0 && other.1 == pair.1 {
            proof {
                assert(pairs@[i as int] == pair);
            }
            return true;
        }
        i = i + 1;
    }
    false
}

/// A list without a pair.
fn drop_pair(pairs: &Vec<(usize, usize)>, pair: (usize, usize), Ghost(objs): Ghost<Seq<RigidBody>>) -> (r: Vec<
    (usize, usize),
>)
    requires
        are_car_ball_pairs(objs, pairs@),
    ensures
        r@ == without_pair(pairs@, pair, pairs@.len() as int),
        are_car_ball_pairs(objs, r@),
{
    let mut r: Vec<(usize, usize)> = Vec::new();
    let mut i: usize = 0;
    while i < pairs.len()
        invariant
            i <= pairs@.len(),
            are_car_ball_pairs(objs, pairs@),
            r@ == without_pair(pairs@, pair, i as int),
            are_car_ball_pairs(objs, r@),
        decreases pairs@.len() - i,
    {
        let other = pairs[i];
        if !(other.0 == pair.0 && other.1 == pair.1) {
            r.push(other);
        }
        i = i + 1;
    }
    r
}

} // verus!
