use rocketsim::math::Vec3A;
use rocketsim::sim::ball_hit::config::{BallHitConfig, HitCadence};
use rocketsim::sim::ball_hit::impulse::{can_fire, compute_impulse, HitContext};
use rocketsim::sim::ball_hit::state::BallHitState;
use rocketsim::sim::types::GameMode;
use rocketsim::single::Single;

fn single(x: f32) -> Single {
    Single::of(x.to_bits())
}

fn float(x: Single) -> f32 {
    f32::from_bits(x.bits)
}

fn vec(x: f32, y: f32, z: f32) -> Vec3A {
    Vec3A::new(single(x), single(y), single(z))
}

// Ball directly in front of the car (slightly above center), car driving
// forward into it.
fn ctx() -> HitContext {
    HitContext {
        ball_pos: vec(100.0, 0.0, 20.0),
        ball_vel: Vec3A::zero(),
        car_pos: Vec3A::zero(),
        car_vel: vec(500.0, 0.0, 0.0),
        car_forward: vec(1.0, 0.0, 0.0),
        game_mode: GameMode::Soccar,
        car_is_on_ground: true,
        car_up_z: single(1.0),
    }
}

#[test]
fn impulse_forward_hit() {
    let cfg = BallHitConfig::default();
    let imp = compute_impulse(&ctx(), &cfg);
    // rel_speed = 500, factor = 0.65 (flat segment), z_scale=0.35 -> hit_dir
    // is nearly +X. Magnitude = 500 * 0.65 = 325.
    assert!(float(imp.x) > 300.0, "impulse should push forward, got {imp:?}");
    assert!(float(imp.y).abs() < 1e-3);
    // z is a small positive fraction of the x component (z_scale=0.35).
    let z_frac = float(imp.z) / float(imp.x);
    assert!(z_frac > 0.0 && z_frac < 0.5, "z_frac = {z_frac}");
}

#[test]
fn zero_relative_speed_gives_no_impulse() {
    let cfg = BallHitConfig::default();
    let mut c = ctx();
    c.ball_vel = c.car_vel; // ball moving with the car
    assert_eq!(compute_impulse(&c, &cfg), Vec3A::zero());
}

#[test]
fn every_other_tick_blocks_consecutive() {
    let cfg = BallHitConfig { cadence: HitCadence::EveryOtherTick, ..BallHitConfig::default() };
    let mut st = BallHitState::default();
    assert!(can_fire(&st, &cfg, 10));
    st.last_impulse_tick = Some(10);
    assert!(!can_fire(&st, &cfg, 11), "next tick must be blocked");
    assert!(can_fire(&st, &cfg, 12), "must re-arm after one tick");
}

#[test]
fn every_tick_always_fires() {
    let cfg = BallHitConfig { cadence: HitCadence::EveryTick, ..BallHitConfig::default() };
    let mut st = BallHitState::default();
    st.last_impulse_tick = Some(10);
    assert!(can_fire(&st, &cfg, 11));
    assert!(can_fire(&st, &cfg, 12));
}

#[test]
fn once_per_episode_rearms_after_separation() {
    let cfg = BallHitConfig { cadence: HitCadence::OncePerEpisode, ..BallHitConfig::default() };
    let mut st = BallHitState::default();
    st.last_contact_tick = Some(10);
    st.last_impulse_tick = Some(10);
    // Still in contact: blocked (impulse spacing not met either).
    assert!(!can_fire(&st, &cfg, 11));
    // Separated for a tick and the impulse is old: re-armed.
    st.last_contact_tick = Some(9);
    st.last_impulse_tick = Some(5);
    assert!(can_fire(&st, &cfg, 11));
}

#[test]
fn the_default_cadence_is_every_other_tick() {
    let cfg = BallHitConfig::default();
    assert_eq!(cfg.cadence, HitCadence::EveryOtherTick);
    assert_eq!(cfg.max_delta_vel_uu, single(4600.0));
}

/// The formula, in the numbers of the machine and the vectors of glam.
fn expected(c: &HitContext, cfg: &BallHitConfig) -> glam::Vec3A {
    let v = |v: Vec3A| glam::Vec3A::new(float(v.x), float(v.y), float(v.z));
    let rel_pos = v(c.ball_pos) - v(c.car_pos);
    let rel_vel = v(c.ball_vel) - v(c.car_vel);
    let speed = rel_vel.length().min(float(cfg.max_delta_vel_uu));
    if speed <= 0.0 {
        return glam::Vec3A::ZERO;
    }
    let hoops = c.game_mode == GameMode::Hoops
        && c.car_is_on_ground
        && float(c.car_up_z) > float(cfg.z_scale_hoops_normal_z_thresh);
    let z_scale = float(if hoops { cfg.z_scale_hoops_ground } else { cfg.z_scale });
    let mut dir = (rel_pos * glam::Vec3A::new(1.0, 1.0, z_scale)).normalize_or_zero();
    let forward = v(c.car_forward);
    dir = (dir + forward * dir.dot(forward) * (1.0 - float(cfg.forward_scale))).normalize_or_zero();
    dir * speed * float(cfg.factor_curve.get_output(single(speed)))
}

#[test]
fn the_impulse_follows_the_formula() {
    let cfg = BallHitConfig::default();
    let mut c = ctx();
    c.ball_pos = vec(75.0, -40.0, 93.0);
    c.ball_vel = vec(-800.0, 33.0, 12.5);
    for mode in [GameMode::Soccar, GameMode::Hoops] {
        for grounded in [true, false] {
            c.game_mode = mode;
            c.car_is_on_ground = grounded;
            let imp = compute_impulse(&c, &cfg);
            let want = expected(&c, &cfg);
            assert_eq!(imp, vec(want.x, want.y, want.z));
        }
    }
    // A grounded car in hoops pops the ball up.
    c.car_is_on_ground = true;
    c.game_mode = GameMode::Soccar;
    let flat = compute_impulse(&c, &cfg);
    c.game_mode = GameMode::Hoops;
    assert!(compute_impulse(&c, &cfg).z.gt(flat.z));
}

#[test]
fn a_smaller_forward_scale_hits_more_forward() {
    let mut c = ctx();
    c.car_forward = vec(0.6, 0.8, 0.0);
    for ball in [vec(75.0, -40.0, 93.0), vec(10.0, 100.0, 20.0), vec(90.0, 5.0, -30.0)] {
        c.ball_pos = ball;
        let mut last: Option<f32> = None;
        for scale in [1.0, 0.8, 0.65, 0.3, 0.0] {
            let cfg = BallHitConfig { forward_scale: single(scale), ..BallHitConfig::default() };
            let forward = float(compute_impulse(&c, &cfg).dot(c.car_forward));
            assert!(last.is_none() || last < Some(forward), "{scale}: {forward} after {last:?}");
            last = Some(forward);
        }
    }
    // A scale of 1 leaves the direction alone, one of 0 doubles its part along the car.
    let cfg = BallHitConfig { forward_scale: single(0.0), z_scale: single(1.0), ..BallHitConfig::default() };
    c = ctx();
    c.ball_pos = vec(3.0, 8.0, 0.0);
    let imp = compute_impulse(&c, &cfg);
    assert!((float(imp.x) / float(imp.y) - 0.75).abs() < 1e-6);
    let cfg = BallHitConfig { forward_scale: single(1.0), ..cfg };
    let imp = compute_impulse(&c, &cfg);
    assert!((float(imp.x) / float(imp.y) - 0.375).abs() < 1e-6);
}

#[test]
fn rounding_hardly_turns_the_forward_bias() {
    // Almost straight ahead the forward part is that of the whole impulse, whatever the scale, and
    // rounding may be in the way.
    let mut c = ctx();
    c.ball_pos = vec(1000.0, 1.0, 0.0);
    let forward = |scale: f32| {
        let cfg = BallHitConfig { forward_scale: single(scale), ..BallHitConfig::default() };
        float(compute_impulse(&c, &cfg).dot(c.car_forward))
    };
    assert_eq!(forward(1.0), 324.99985);
    assert_eq!(forward(0.875), 324.99982);
    for low in 0..8 {
        for high in low..9 {
            assert!(forward(high as f32 / 8.0) <= forward(low as f32 / 8.0) + 500.0 * 0.65 / 16384.0);
        }
    }
}

#[test]
fn relative_speed_is_capped() {
    let cfg = BallHitConfig::default();
    let mut c = ctx();
    c.car_vel = vec(4600.0, 0.0, 0.0);
    let at_cap = compute_impulse(&c, &cfg);
    c.car_vel = vec(9000.0, 0.0, 0.0);
    assert_eq!(compute_impulse(&c, &cfg), at_cap);
}

#[test]
fn the_factor_curve_bends_at_its_points() {
    let curve = BallHitConfig::default().factor_curve;
    assert_eq!(curve.get_output(single(-5.0)), single(0.65));
    assert_eq!(curve.get_output(single(250.0)), single(0.65));
    assert_eq!(curve.get_output(single(500.0)), single(0.65));
    assert_eq!(curve.get_output(single(2300.0)), single(0.55));
    assert_eq!(curve.get_output(single(4600.0)), single(0.3));
    assert_eq!(curve.get_output(single(9999.0)), single(0.3));
    assert_eq!(curve.get_output(single(1400.0)), single(0.65 + (0.55 - 0.65) * ((1400.0 - 500.0) / (2300.0 - 500.0))));
}

#[test]
fn slower_cadences_fire_only_with_faster_ones() {
    for impulse in [None, Some(8), Some(9), Some(10)] {
        for contact in [None, Some(8), Some(9), Some(10)] {
            let st = BallHitState { last_impulse_tick: impulse, last_contact_tick: contact };
            let fires = |cadence| can_fire(&st, &BallHitConfig { cadence, ..BallHitConfig::default() }, 10);
            assert!(!fires(HitCadence::OncePerEpisode) || fires(HitCadence::EveryOtherTick));
            assert!(!fires(HitCadence::EveryOtherTick) || fires(HitCadence::EveryTick));
        }
    }
}
