//! Who may touch whom.
use crate::bullet::body::RigidBody;
use crate::bullet::geometry::Aabb;
use crate::bullet::manifold::PersistentManifold;
use vstd::prelude::*;

verus! {

/// The group of what moves.
pub const DEFAULT_GROUP: u8 = 1;

/// The group of what does not move.
pub const STATIC_GROUP: u8 = 2;

/// The group of the floor in dropshot.
pub const DROPSHOT_FLOOR_GROUP: u8 = 64;

/// All groups.
pub const ALL_GROUPS: u8 = 255;

/// All groups but that of what does not move.
pub const ALL_BUT_STATIC: u8 = 253;

/// A body in the broad phase: the box around it, its group, and the groups that it may touch.
#[derive(Clone, Copy, Debug, PartialEq, Eq, Structural)]
pub struct BroadphaseProxy {
    pub aabb: Aabb,
    pub filter_group: u8,
    pub filter_mask: u8,
}

#[derive(Debug)]
pub struct GridBroadphase {
    pub proxies: Vec<BroadphaseProxy>,
}

impl GridBroadphase {
    /// Adds a body, and gives the handle by which it is known.
    pub fn create_proxy(&mut self, aabb: Aabb, filter_group: u8, filter_mask: u8) -> (r: usize)
        ensures
            r == old(self).proxies@.len(),
            final(self).proxies@ == old(self).proxies@.push(BroadphaseProxy { aabb, filter_group, filter_mask }),
    {
        let handle: usize = self.proxies.len();
        self.proxies.push(BroadphaseProxy { aabb, filter_group, filter_mask });
        handle
    }

    pub fn set_aabb(&mut self, handle: usize, aabb: Aabb)
        requires
            handle < old(self).proxies@.len(),
        ensures
            final(self).proxies@ == old(self).proxies@.update(
                handle as int,
                (BroadphaseProxy { aabb, ..old(self).proxies@[handle as int] }),
            ),
    {
        let proxy = self.proxies[handle];
        self.proxies.set(handle, BroadphaseProxy { aabb, ..proxy });
    }
}

/// Finds the contacts of bodies, and tells a listener `T` of each new point.
///
/// The methods promise nothing. The step of a world hands the manifolds to the solver, and asks in
/// its contract that the solver can take them.
pub trait Narrowphase<T> {
    /// The filters of two bodies let them touch.
    fn needs_collision(&self, a: &BroadphaseProxy, b: &BroadphaseProxy) -> bool;

    /// The manifolds of all pairs of bodies whose boxes meet, but for those to be skipped.
    fn dispatch_all(
        &self,
        collision_objs: &Vec<RigidBody>,
        broadphase: &GridBroadphase,
        skipped_pairs: &Vec<(usize, usize)>,
        manifolds: Vec<PersistentManifold>,
        listener: T,
    ) -> (Vec<PersistentManifold>, T);

    /// With the manifold of a pair of bodies, if there is one.
    fn dispatch_pair(
        &self,
        collision_objs: &Vec<RigidBody>,
        body_a_idx: usize,
        body_b_idx: usize,
        manifolds: Vec<PersistentManifold>,
        listener: T,
    ) -> (Vec<PersistentManifold>, T, bool);
}

} // verus!
