//! What the impulse remembers about the ball.
use vstd::prelude::*;

verus! {

#[derive(Clone, Copy, Debug)]
pub struct BallHitState {
    /// The tick on which the impulse last fired, if ever.
    pub last_impulse_tick: Option<u64>,
    /// The tick on which the ball last touched a car, if ever.
    pub last_contact_tick: Option<u64>,
}

impl Default for BallHitState {
    fn default() -> (r: Self)
        ensures
            r.last_impulse_tick is None,
            r.last_contact_tick is None,
    {
        BallHitState { last_impulse_tick: None, last_contact_tick: None }
    }
}

} // verus!
