//! An arena as its users see it, and the physics that drives it.
use crate::math::Vec3A;
use crate::sim::types::{
    BallState, BoostPadConfig, BoostPadState, CarBodyConfig, CarControls, CarInfo, CarState, GameMode, MutatorConfig,
    Team,
};
use crate::single::Single;
use vstd::prelude::*;

verus! {

#[derive(Clone, Copy, Debug, PartialEq, Eq, Structural)]
pub enum ArenaMemWeightMode {
    Heavy,
    Light,
}

#[derive(Debug)]
pub struct ArenaConfig {
    pub game_mode: GameMode,
    pub mutators: MutatorConfig,
    pub mem_weight_mode: ArenaMemWeightMode,
    pub min_pos: Vec3A,
    pub max_pos: Vec3A,
    pub max_aabb_len: Single,
    pub no_ball_rot: bool,
    /// Boost pads in place of those of the game mode.
    pub custom_boost_pads: Option<Vec<BoostPadConfig>>,
    pub rng_seed: Option<u64>,
}

#[derive(Clone, Copy, Debug, PartialEq, Eq, Structural)]
pub struct CarHitBallEvent {
    pub car_idx: usize,
    pub contact_point: Vec3A,
    pub extra_hit_vel: Vec3A,
}

#[derive(Clone, Copy, Debug, PartialEq, Eq, Structural)]
pub struct CarHitCarEvent {
    pub bumper_car_idx: usize,
    pub victim_car_idx: usize,
    pub contact_point: Vec3A,
    pub is_demo: bool,
}

/// What happened in a tick.
#[derive(Clone, Copy, Debug, PartialEq, Eq, Structural)]
pub enum ArenaEvent {
    CarHitBall(CarHitBallEvent),
    CarHitCar(CarHitCarEvent),
    /// Something that is of no concern outside the arena.
    Other,
}

#[derive(Clone, Copy, Debug)]
pub struct Car {
    pub info: CarInfo,
    pub state: CarState,
}

#[derive(Clone, Copy, Debug)]
pub struct BoostPad {
    pub config: BoostPadConfig,
    pub state: BoostPadState,
}

#[derive(Debug)]
pub struct Arena {
    pub game_mode: GameMode,
    pub mutators: MutatorConfig,
    pub tick_count: u64,
    pub ball: BallState,
    pub cars: Vec<Car>,
    pub boost_pads: Vec<BoostPad>,
}

/// The physics of an arena.
///
/// Nothing is known of what the methods return: whoever calls one has to cope with every
/// outcome.
pub trait Physics {
    /// An arena with the settings of a game mode.
    fn arena(&self, game_mode: GameMode) -> Arena;

    fn arena_with_config(&self, config: ArenaConfig) -> Arena;

    /// The mutators that belong to a game mode.
    fn mutators(&self, game_mode: GameMode) -> MutatorConfig;

    /// The state in which a car joins an arena.
    fn spawn(&self, arena: &Arena, team: Team, config: &CarBodyConfig) -> CarState;

    /// One tick later, with what happened.
    fn step_tick(&self, arena: Arena) -> (Arena, Vec<ArenaEvent>);

    /// A kickoff in one of the kickoff positions, which a seed may fix.
    fn kickoff(&self, arena: Arena, seed: Option<u64>) -> Arena;

    fn is_ball_scored(&self, arena: &Arena) -> bool;

    /// The pad can be taken.
    fn is_pad_active(&self, pad: &BoostPadState) -> bool;
}

impl Arena {
    pub fn num_cars(&self) -> (r: usize)
        ensures
            r == self.cars@.len(),
    {
        self.cars.len()
    }

    pub fn num_boost_pads(&self) -> (r: usize)
        ensures
            r == self.boost_pads@.len(),
    {
        self.boost_pads.len()
    }

    pub fn get_car_state(&self, car_idx: usize) -> (r: &CarState)
        requires
            car_idx < self.cars@.len(),
        ensures
            *r == self.cars@[car_idx as int].state,
    {
        &self.cars[car_idx].state
    }

    /// The state of one car is replaced, and nothing else.
    pub open spec fn with_car_state(self, car_idx: int, state: CarState, after: Arena) -> bool {
        &&& after.cars@ == self.cars@.update(car_idx, (Car { state, ..self.cars@[car_idx] }))
        &&& self.same_but_cars(after)
    }

    /// Everything but the cars is the same.
    pub open spec fn same_but_cars(self, after: Arena) -> bool {
        &&& after.game_mode == self.game_mode
        &&& after.mutators == self.mutators
        &&& after.tick_count == self.tick_count
        &&& after.ball == self.ball
        &&& after.boost_pads == self.boost_pads
    }

    pub fn set_car_state(&mut self, car_idx: usize, state: CarState)
        requires
            car_idx < old(self).cars@.len(),
        ensures
            old(self).with_car_state(car_idx as int, state, *final(self)),
    {
        let info = self.cars[car_idx].info;
        self.cars.set(car_idx, Car { info, state });
    }

    pub fn set_car_controls(&mut self, car_idx: usize, controls: CarControls)
        requires
            car_idx < old(self).cars@.len(),
        ensures
            old(self).with_car_state(
                car_idx as int,
                (CarState { controls, ..old(self).cars@[car_idx as int].state }),
                *final(self),
            ),
    {
        let Car { info, state } = self.cars[car_idx];
        self.cars.set(car_idx, Car { info, state: CarState { controls, ..state } });
    }

    pub fn get_car_info(&self, car_idx: usize) -> (r: &CarInfo)
        requires
            car_idx < self.cars@.len(),
        ensures
            *r == self.cars@[car_idx as int].info,
    {
        &self.cars[car_idx].info
    }

    /// Adds a car, and gives its index.
    pub fn add_car<P: Physics>(&mut self, physics: &P, team: Team, config: CarBodyConfig) -> (r: usize)
        ensures
            r == old(self).cars@.len(),
            final(self).cars@.len() == r + 1,
            final(self).cars@.drop_last() == old(self).cars@,
            final(self).cars@.last().info == (CarInfo { idx: r, team, config }),
            call_ensures(P::spawn, (physics, &*old(self), team, &config), final(self).cars@.last().state),
            old(self).same_but_cars(*final(self)),
    {
        let idx: usize = self.cars.len();
        let state = physics.spawn(&*self, team, &config);
        self.cars.push(Car { info: CarInfo { idx, team, config }, state });
        proof {
            assert(self.cars@.drop_last() =~= old(self).cars@);
        }
        idx
    }

    pub fn get_boost_pad_state(&self, idx: usize) -> (r: &BoostPadState)
        requires
            idx < self.boost_pads@.len(),
        ensures
            *r == self.boost_pads@[idx as int].state,
    {
        &self.boost_pads[idx].state
    }

    /// The state of one pad is replaced, and nothing else.
    pub open spec fn with_pad_state(self, idx: int, state: BoostPadState, after: Arena) -> bool {
        &&& after.boost_pads@ == self.boost_pads@.update(idx, (BoostPad { state, ..self.boost_pads@[idx] }))
        &&& after.game_mode == self.game_mode
        &&& after.mutators == self.mutators
        &&& after.tick_count == self.tick_count
        &&& after.ball == self.ball
        &&& after.cars == self.cars
    }

    pub fn set_boost_pad_state(&mut self, idx: usize, state: BoostPadState)
        requires
            idx < old(self).boost_pads@.len(),
        ensures
            old(self).with_pad_state(idx as int, state, *final(self)),
    {
        let config = self.boost_pads[idx].config;
        self.boost_pads.set(idx, BoostPad { config, state });
    }

    pub fn get_boost_pad_config(&self, idx: usize) -> (r: &BoostPadConfig)
        requires
            idx < self.boost_pads@.len(),
        ensures
            *r == self.boost_pads@[idx as int].config,
    {
        &self.boost_pads[idx].config
    }
}

} // verus!
