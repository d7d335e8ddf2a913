use himawari_moon::body::Body;
use himawari_moon::integrator::{Integrator, LeapfrogIntegrator, StepSize, SuzukiIntegrator};
use himawari_moon::sim::SimState;
use himawari_moon::vec3::Vec3;

fn earth_moon_state() -> SimState {
    // Earth and Moon with realistic constants in units of 10^-6 km.
    let earth = Body::new(
        b"Earth".to_vec(),
        398_600_441_800,
        6_371_000_000,
        Vec3 { x: 0, y: 0, z: 0 },
        Vec3 { x: 0, y: 0, z: 0 },
    );
    let moon = Body::new(
        b"Moon".to_vec(),
        4_902_800_066,
        1_737_400_000,
        Vec3 { x: 384_400_000_000, y: 0, z: 0 },
        Vec3 { x: 0, y: 1_022_000, z: 0 },
    );
    SimState::new().with_timestamp(1_640_995_200_000_000_000).with_body(earth).with_body(moon)
}

fn kinematics(sim: &SimState) -> Vec<(i64, i64, i64, i64, i64, i64)> {
    let mut out = Vec::new();
    for b in sim.bodies() {
        out.push((b.pos.x, b.pos.y, b.pos.z, b.vel.x, b.vel.y, b.vel.z));
    }
    out
}

#[test]
fn reversibility_restores_positions_and_velocities_exactly() {
    let mut sim = earth_moon_state();
    let before = kinematics(&sim);
    let integ = SuzukiIntegrator::new(60_000_000_000);
    integ.propagate_in_place(&mut sim, StepSize::Step(60_000_000_000));
    assert_ne!(before, kinematics(&sim));
    integ.propagate_in_place(&mut sim, StepSize::Step(-60_000_000_000));
    assert_eq!(before, kinematics(&sim));
}

#[test]
fn reversibility_holds_for_the_leapfrog_stepper_too() {
    let mut sim = earth_moon_state();
    let before = kinematics(&sim);
    let integ = LeapfrogIntegrator::new(60_000_000_000);
    integ.propagate_in_place(&mut sim, StepSize::UseDefault);
    integ.propagate_in_place(&mut sim, StepSize::Step(-60_000_000_000));
    assert_eq!(before, kinematics(&sim));
}

#[test]
fn determinism_identical_runs_identical_trajectories() {
    let mut a = earth_moon_state();
    let mut b = earth_moon_state();
    let integ = SuzukiIntegrator::new(60_000_000_000);
    for _ in 0..10 {
        a.step_forwards(&integ);
        b.step_forwards(&integ);
    }
    assert_eq!(kinematics(&a), kinematics(&b));
    assert_eq!(a.time(), b.time());
}

#[test]
fn step_advances_the_clock_by_exactly_the_step() {
    let mut sim = earth_moon_state();
    let t0 = sim.time();
    let integ = SuzukiIntegrator::new(60_000_000_000);
    sim.step_forwards(&integ);
    assert_eq!(sim.time(), t0 + 60_000_000_000);
}

#[test]
fn propagate_to_lands_exactly_on_the_target_forward_and_backward() {
    let mut sim = earth_moon_state();
    let t0 = sim.time();
    let integ = SuzukiIntegrator::new(60_000_000_000);
    sim.propagate_to(&integ, t0 + 12_345_678_901);
    assert_eq!(sim.time(), t0 + 12_345_678_901);
    sim.propagate_to(&integ, t0 - 7_000_000_003);
    assert_eq!(sim.time(), t0 - 7_000_000_003);
}

#[test]
fn gravity_pulls_the_bodies_together() {
    let mut sim = earth_moon_state();
    let integ = SuzukiIntegrator::new(60_000_000_000);
    // one hour forward: the Moon's velocity must have turned toward Earth
    for _ in 0..60 {
        sim.step_forwards(&integ);
    }
    let moon = sim.body_by_name(b"Moon").unwrap();
    assert!(moon.vel.x < 0);
    // and the tangential motion carried it along +y
    assert!(moon.pos.y > 0);
}

#[test]
fn body_lookup_finds_the_first_match_and_misses_cleanly() {
    let sim = earth_moon_state();
    assert_eq!(sim.body_index_by_name(b"Earth"), Some(0));
    assert_eq!(sim.body_index_by_name(b"Moon"), Some(1));
    assert_eq!(sim.body_index_by_name(b"Sun"), None);
    assert!(sim.body_by_name(b"Phobos").is_none());
    let d = sim.get_body(0).distance_from(sim.get_body(1));
    assert_eq!(d, 384_400_000_000u128);
}

#[test]
fn time_since_subtracts_the_epoch() {
    let sim = earth_moon_state();
    assert_eq!(sim.time_since(1_640_995_200_000_000_000), 0);
    assert_eq!(sim.time_since(0), 1_640_995_200_000_000_000);
}

#[test]
fn derivatives_have_the_documented_layout_and_values() {
    let mut sim = earth_moon_state();
    sim = sim.with_timestamp(0);
    let v = sim.position_derivative();
    // velocities, flattened per body and axis
    assert_eq!(v.0, vec![0, 0, 0, 0, 1_022_000, 0]);
    let a = sim.momentum_derivative();
    // mutual pulls along the separation axis, in 10^-12 km/s^2
    assert_eq!(a.0, vec![33_180, 0, 0, -2_697_559, 0, 0]);
}

#[test]
fn derivative_vector_ops_work_elementwise() {
    let a = himawari_moon::sim::SimDerivative(vec![1, -2, 3]);
    let b = himawari_moon::sim::SimDerivative(vec![10, 20, 30]);
    assert_eq!(a.add(&b).0, vec![11, 18, 33]);
    assert_eq!(a.neg().0, vec![-1, 2, -3]);
    // halving truncates toward zero
    let c = himawari_moon::sim::SimDerivative(vec![5, -5, 4]);
    assert_eq!(c.scale(1, 2).0, vec![2, -2, 2]);
}

#[test]
fn propagate_to_round_trips_exactly_over_whole_steps() {
    let mut sim = earth_moon_state();
    let before = kinematics(&sim);
    let t0 = sim.time();
    let integ = SuzukiIntegrator::new(60_000_000_000);
    // forward two hours in whole steps, then back: exact restoration
    sim.propagate_to(&integ, t0 + 7_200_000_000_000);
    sim.propagate_to(&integ, t0);
    assert_eq!(before, kinematics(&sim));
    assert_eq!(sim.time(), t0);
}
