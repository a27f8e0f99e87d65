use rocketsim::math::Vec3A;
use rocketsim::recording::normalize::{
    detect_bump_onsets, detect_impulse_onsets, normalize_handbrake_val, normalize_jump_active,
};
use rocketsim::recording::records::{CarRecord, ControlsRecord, PhysRecord, TickRecord};
use rocketsim::single::Single;

const TICK_TIME: f32 = 1.0 / 120.0;
const POWERSLIDE_RISE_RATE: f32 = 5.0;
const POWERSLIDE_FALL_RATE: f32 = 2.0;

fn single(x: f32) -> Single {
    Single::of(x.to_bits())
}

fn float(x: Single) -> f32 {
    f32::from_bits(x.bits)
}

fn vec(x: f32, y: f32, z: f32) -> Vec3A {
    Vec3A::new(single(x), single(y), single(z))
}

fn blank_phys() -> PhysRecord {
    PhysRecord { physics_frame: 0, pos: vec(0.0, 0.0, 0.0), lin_vel: vec(0.0, 0.0, 0.0) }
}

fn blank_car() -> CarRecord {
    CarRecord {
        phys: blank_phys(),
        is_on_ground: false,
        is_jumping: false,
        is_flipping: false,
        jump_time: single(0.0),
        prev_controls: ControlsRecord { jump: false, handbrake: false },
        is_demoed: false,
        handbrake_val: single(0.0),
    }
}

fn tick(cars: &[(bool, bool, f32, bool)]) -> TickRecord {
    let car_records = cars
        .iter()
        .map(|&(is_jumping, is_on_ground, jump_time, held)| {
            let mut rec = blank_car();
            rec.is_jumping = is_jumping;
            rec.is_on_ground = is_on_ground;
            rec.jump_time = single(jump_time);
            rec.prev_controls.jump = held;
            rec
        })
        .collect();
    TickRecord { car_records, ball_record: blank_phys() }
}

fn run(rows: &[(bool, bool, f32, bool)]) -> Vec<bool> {
    let mut ticks: Vec<TickRecord> = rows.iter().map(|r| tick(&[*r])).collect();
    normalize_jump_active(&mut ticks, 1);
    ticks.iter().map(|t| t.car_records[0].is_jumping).collect()
}

#[test]
fn held_jump_stays_active_until_max_time() {
    let got = run(&[
        (false, true, 0.0, false),
        (true, true, 0.0, true),
        (false, true, 0.0083, true),
        (false, false, 0.05, true),
        (false, false, 0.19, true),
        (false, false, 0.20, true),
        (false, false, 0.21, true),
    ]);
    assert_eq!(
        got,
        vec![false, true, true, true, true, false, false],
        "a held jump must stay active from the pulse until MAX_TIME"
    );
}

#[test]
fn released_jump_survives_min_window_then_ends() {
    let got = run(&[
        (true, true, 0.0, true),
        (false, true, 0.0083, false),
        (false, true, 0.0167, false),
        (false, true, 0.025, false),
        (false, true, 0.0333, false),
    ]);
    assert_eq!(got, vec![true, true, true, false, false]);
}

#[test]
fn airborne_pulse_does_not_arm() {
    let got = run(&[
        (true, false, 0.0, true),
        (false, false, 0.0083, true),
        (false, false, 0.0167, true),
    ]);
    assert_eq!(got, vec![false, false, false]);
}

#[test]
fn re_press_after_release_does_not_revive_jump() {
    let got = run(&[
        (true, true, 0.0, true),
        (false, true, 0.03, false),
        (false, false, 0.05, true),
        (false, false, 0.075, true),
    ]);
    assert_eq!(
        got,
        vec![true, false, false, false],
        "only a grounded pulse may arm the sustained flag"
    );
}

fn hb_tick(cars: &[(bool, f32)]) -> TickRecord {
    let car_records = cars
        .iter()
        .map(|&(held, logged)| {
            let mut rec = blank_car();
            rec.prev_controls.handbrake = held;
            rec.handbrake_val = single(logged);
            rec
        })
        .collect();
    TickRecord { car_records, ball_record: blank_phys() }
}

fn run_hb(rows: &[(bool, f32)]) -> Vec<f32> {
    let mut ticks: Vec<TickRecord> = rows.iter().map(|r| hb_tick(&[*r])).collect();
    normalize_handbrake_val(&mut ticks, 1);
    ticks.iter().map(|t| float(t.car_records[0].handbrake_val)).collect()
}

#[test]
fn release_decays_at_fall_rate() {
    let got = run_hb(&[(true, 1.0), (false, 0.0), (false, 0.0), (false, 0.0)]);
    let step = POWERSLIDE_FALL_RATE * TICK_TIME;
    assert_eq!(got[0], 1.0, "the seed is the logged value at tick 0");
    for (i, v) in got.iter().enumerate().skip(1) {
        let want = 1.0 - step * i as f32;
        assert!((v - want).abs() < 1e-6, "tick {i}: {v} != {want}");
    }
}

#[test]
fn press_rises_at_rise_rate_and_clamps() {
    let rows: Vec<(bool, f32)> = std::iter::once((false, 0.0))
        .chain(std::iter::repeat((true, 1.0)).take(40))
        .collect();
    let got = run_hb(&rows);
    let step = POWERSLIDE_RISE_RATE * TICK_TIME;
    assert!((got[1] - step).abs() < 1e-6, "first held tick is one step up");
    assert!(got[10] < 1.0, "still ramping after 10 ticks");
    assert_eq!(got[40], 1.0, "clamped at 1 once the ramp completes");
}

#[test]
fn short_tap_never_reaches_full() {
    let got = run_hb(&[
        (false, 0.0),
        (true, 1.0),
        (true, 1.0),
        (false, 0.0),
        (false, 0.0),
    ]);
    let up = POWERSLIDE_RISE_RATE * TICK_TIME;
    let down = POWERSLIDE_FALL_RATE * TICK_TIME;
    assert!((got[2] - 2.0 * up).abs() < 1e-6, "two ticks of rise only");
    assert!((got[4] - (2.0 * up - 2.0 * down)).abs() < 1e-6);
    assert!(got.iter().all(|&v| v < 1.0), "a 2-tick tap cannot reach 1.0");
}

#[test]
fn stays_within_range() {
    let rows: Vec<(bool, f32)> = std::iter::repeat((false, 0.0)).take(200).collect();
    assert!(run_hb(&rows).iter().all(|&v| (0.0..=1.0).contains(&v)));
}

#[test]
fn handbrake_cars_are_independent() {
    let mut ticks = vec![
        hb_tick(&[(true, 1.0), (false, 0.0)]),
        hb_tick(&[(true, 1.0), (false, 0.0)]),
    ];
    normalize_handbrake_val(&mut ticks, 2);
    assert_eq!(float(ticks[1].car_records[0].handbrake_val), 1.0);
    assert_eq!(float(ticks[1].car_records[1].handbrake_val), 0.0);
}

#[test]
fn cars_are_independent() {
    let mut ticks = vec![
        tick(&[(true, true, 0.0, true), (false, true, 0.0, false)]),
        tick(&[(false, true, 0.0083, true), (false, true, 0.0, false)]),
    ];
    normalize_jump_active(&mut ticks, 2);
    assert!(ticks[1].car_records[0].is_jumping);
    assert!(!ticks[1].car_records[1].is_jumping);
}

#[test]
fn changed_pairs_are_counted() {
    let mut ticks = vec![
        tick(&[(true, true, 0.0, true)]),
        tick(&[(false, true, 0.0083, true)]),
        tick(&[(false, false, 0.05, true)]),
    ];
    assert_eq!(normalize_jump_active(&mut ticks, 1), 2);
    assert_eq!(normalize_jump_active(&mut Vec::new(), 3), 0);
    let mut held = vec![hb_tick(&[(true, 1.0)]), hb_tick(&[(true, 1.0)]), hb_tick(&[(false, 0.0)])];
    assert_eq!(normalize_handbrake_val(&mut held, 1), 1);
}

#[test]
fn a_missing_car_ends_its_jump() {
    let mut ticks = vec![
        tick(&[(true, true, 0.0, true)]),
        tick(&[]),
        tick(&[(false, false, 0.0167, true)]),
    ];
    normalize_jump_active(&mut ticks, 1);
    assert!(ticks[0].car_records[0].is_jumping);
    assert!(!ticks[2].car_records[0].is_jumping);
}

#[test]
fn onsets_are_jump_and_flip_pulses() {
    let mut ticks = vec![tick(&[(true, false, 0.0, true)]), tick(&[(false, true, 0.0, true)]), tick(&[])];
    ticks[1].car_records[0].is_flipping = true;
    let got = detect_impulse_onsets(&ticks, 2);
    assert_eq!(got, vec![vec![true, false], vec![true, false], vec![false, false]]);
}

fn moving(frame: u32, x: f32, vel: f32) -> CarRecord {
    let mut rec = blank_car();
    rec.phys = PhysRecord { physics_frame: frame, pos: vec(x, 0.0, 0.0), lin_vel: vec(vel, 0.0, 0.0) };
    rec
}

fn at(cars: Vec<CarRecord>) -> TickRecord {
    TickRecord { car_records: cars, ball_record: blank_phys() }
}

#[test]
fn bumps_break_the_way_of_two_close_cars() {
    // A steady car moves by its velocity; the other one was stopped halfway.
    let ticks = vec![
        at(vec![moving(10, 0.0, 1200.0), moving(10, 110.0, 0.0)]),
        at(vec![moving(11, 10.0, 1200.0), moving(11, 113.0, 720.0)]),
    ];
    let got = detect_bump_onsets(&ticks, 2, 1);
    assert_eq!(got, vec![vec![false, false], vec![false, true]]);

    // Too far from every other car.
    let far = vec![
        at(vec![moving(10, 0.0, 0.0), moving(10, 1000.0, 0.0)]),
        at(vec![moving(11, 0.0, 0.0), moving(11, 1003.0, 720.0)]),
    ];
    assert_eq!(detect_bump_onsets(&far, 2, 1)[1], vec![false, false]);

    // A frame is missing in between.
    let dropped = vec![
        at(vec![moving(10, 0.0, 1200.0), moving(10, 110.0, 0.0)]),
        at(vec![moving(12, 10.0, 1200.0), moving(12, 113.0, 720.0)]),
    ];
    assert_eq!(detect_bump_onsets(&dropped, 2, 1)[1], vec![false, false]);

    // A teleport, and a demolished car.
    let teleport = vec![
        at(vec![moving(10, 0.0, 0.0), moving(10, 110.0, 0.0)]),
        at(vec![moving(11, 0.0, 0.0), moving(11, 160.0, 0.0)]),
    ];
    assert_eq!(detect_bump_onsets(&teleport, 2, 1)[1], vec![false, false]);
    let mut demoed = vec![
        at(vec![moving(10, 0.0, 1200.0), moving(10, 110.0, 0.0)]),
        at(vec![moving(11, 10.0, 1200.0), moving(11, 113.0, 720.0)]),
    ];
    demoed[1].car_records[0].is_demoed = true;
    assert_eq!(detect_bump_onsets(&demoed, 2, 1)[1], vec![false, false]);
}

#[test]
fn a_second_pass_changes_nothing() {
    let mut ticks = vec![
        tick(&[(true, true, 0.0, true), (true, false, 0.0, true)]),
        tick(&[(false, true, 0.0083, true), (false, false, 0.0083, true)]),
        tick(&[(false, false, 0.0167, false)]),
        tick(&[(false, false, 0.0333, false), (true, true, 0.0, true)]),
    ];
    for (i, t) in ticks.iter_mut().enumerate() {
        t.car_records[0].prev_controls.handbrake = i % 2 == 0;
    }
    normalize_jump_active(&mut ticks, 2);
    normalize_handbrake_val(&mut ticks, 2);
    let records: Vec<Vec<CarRecord>> = ticks.iter().map(|t| t.car_records.clone()).collect();
    assert_eq!(normalize_jump_active(&mut ticks, 2), 0);
    assert_eq!(normalize_handbrake_val(&mut ticks, 2), 0);
    let again: Vec<Vec<CarRecord>> = ticks.iter().map(|t| t.car_records.clone()).collect();
    assert_eq!(records, again);
}

#[test]
fn a_longer_stride_compares_ticks_farther_apart() {
    // Two frames at 1200 units per second are 20 units.
    let ticks = vec![
        at(vec![moving(10, 0.0, 1200.0), moving(10, 100.0, 0.0)]),
        at(vec![moving(11, 10.0, 1200.0), moving(11, 100.0, 0.0)]),
        at(vec![moving(12, 20.0, 1200.0), moving(12, 102.0, 720.0)]),
    ];
    let got = detect_bump_onsets(&ticks, 2, 2);
    assert_eq!(got, vec![vec![false, false], vec![false, false], vec![false, true]]);
    // The last frame there is needs no frame after it.
    let last = vec![at(vec![moving(u32::MAX, 0.0, 0.0)])];
    assert_eq!(detect_bump_onsets(&last, 1, 1), vec![vec![false]]);
}
