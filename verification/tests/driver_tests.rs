use himawari_moon::body::Body;
use himawari_moon::driver::{generate, maybe_save_snapshot, propagate_to, Event, EventKind};
use himawari_moon::integrator::SuzukiIntegrator;
use himawari_moon::observer::{Himawari, Visibility};
use himawari_moon::refiner::{refine_transition, to_civil};
use himawari_moon::sim::SimState;
use himawari_moon::snapshots::Snapshots;
use himawari_moon::vec3::Vec3;

const SEC: i64 = 1_000_000_000;
const TS_2022: i64 = 1_640_995_200_000_000_000;

fn observed_state(t: i64, moon_pos: Vec3) -> SimState {
    let earth = Body::new(
        b"Earth".to_vec(),
        398_600_441_800,
        6_371_000_000,
        Vec3 { x: 0, y: 0, z: 0 },
        Vec3 { x: 0, y: 0, z: 0 },
    );
    let moon = Body::new(
        b"Moon".to_vec(),
        4_902_800_066,
        1_737_400_000,
        moon_pos,
        Vec3 { x: 0, y: 1_022_000, z: 0 },
    );
    SimState::new().with_timestamp(t).with_body(earth).with_body(moon)
}

#[test]
fn event_lines_carry_the_label_and_the_corrected_civil_date() {
    // the polynomial model puts the civil timescale 72.712816 s behind the
    // uniform one at the start of 2022
    let e = Event { kind: EventKind::BecomingVisible, time_ns: TS_2022, refined_ns: TS_2022 };
    assert_eq!(
        e.format_line(),
        b"Becoming visible: date = 2021-12-31T23:58:47Z\n".to_vec()
    );
    // an episode-ending line is followed by a blank line
    let e2 = Event { kind: EventKind::LeavingFrame, time_ns: TS_2022, refined_ns: TS_2022 };
    assert_eq!(e2.format_line(), b"Leaving frame: date = 2021-12-31T23:58:47Z\n\n".to_vec());
    let e3 = Event { kind: EventKind::BecomingObscured, time_ns: TS_2022, refined_ns: TS_2022 };
    assert_eq!(
        e3.format_line(),
        b"Becoming obscured: date = 2021-12-31T23:58:47Z\n\n".to_vec()
    );
}

#[test]
fn refinement_localizes_a_transition_inside_the_bracket() {
    // geometry that classifies the same at every probe: the refiner stops
    // after the first reverse second, half a second inside the bracket
    let sim = observed_state(TS_2022, Vec3 { x: 384_400_000_000, y: 0, z: 0 });
    let himawari = Himawari::new(TS_2022);
    let integ = SuzukiIntegrator::new(60 * SEC);
    let before = himawari.classify(&sim);
    let refined = refine_transition(&integ, &himawari, &sim, before, 60 * SEC).unwrap();
    assert_eq!(refined, TS_2022 - SEC + SEC / 2);
    assert!(TS_2022 - 60 * SEC < refined && refined < TS_2022);
}

#[test]
fn refinement_that_never_finds_the_old_value_fails_with_the_window() {
    let himawari = Himawari::new(TS_2022);
    let integ = SuzukiIntegrator::new(60 * SEC);
    // the Moon far behind the observer stays out of frame at every probe
    let dir = himawari.looking_dir(0);
    let obs = himawari.pos(0);
    let moon = Vec3 {
        x: obs.x - dir.x * 400_000,
        y: obs.y - dir.y * 400_000,
        z: obs.z - dir.z * 400_000,
    };
    let sim = observed_state(TS_2022, moon);
    assert_eq!(himawari.classify(&sim), Visibility::OutOfFrame);
    let r = refine_transition(&integ, &himawari, &sim, Visibility::VisibleInFrame, 60 * SEC);
    let e = r.unwrap_err();
    assert_eq!(e.window_end_ns, TS_2022);
    assert_eq!(e.window_start_ns, TS_2022 - 60 * SEC);
    // the divergence context carries the two classifications involved
    assert_eq!(e.value_before, Visibility::VisibleInFrame);
    assert_eq!(e.value_after, Visibility::OutOfFrame);
}

#[test]
fn civil_correction_subtracts_the_polynomial_offset() {
    // the start of 2010 sits in the quadratic regime of the model
    let ts = 1_262_304_000_000_000_000i64;
    assert_eq!(to_civil(ts), ts - 66_700_600_000);
}

#[test]
fn propagate_with_snapshots_lands_exactly_and_caches_boundaries() {
    let integ = SuzukiIntegrator::new(60 * SEC);
    let mut sim = observed_state(TS_2022 - 90 * SEC, Vec3 { x: 384_400_000_000, y: 0, z: 0 });
    let mut cache = Snapshots::new();
    let mut saved = Vec::new();
    propagate_to(&integ, &mut sim, &mut cache, &mut saved, TS_2022 + 90 * SEC, 60 * SEC);
    assert_eq!(sim.time(), TS_2022 + 90 * SEC);
    // crossing the month boundary aligned a snapshot exactly onto it
    assert_eq!(cache.len(), 1);
    assert_eq!(cache.get(0).time(), TS_2022);
    assert_eq!(saved.len(), 1);
    assert_eq!(saved[0].time_ns, TS_2022);
    // the persisted bytes parse back to the aligned state's bodies
    let back = SimState::load(saved[0].bytes.as_slice()).unwrap();
    assert_eq!(back.bodies().len(), 2);
}

#[test]
fn aligned_snapshots_are_cached_once() {
    let integ = SuzukiIntegrator::new(60 * SEC);
    let sim = observed_state(TS_2022 + 30 * SEC, Vec3 { x: 384_400_000_000, y: 0, z: 0 });
    let mut cache = Snapshots::new();
    let mut saved = Vec::new();
    maybe_save_snapshot(&integ, &sim, &mut cache, &mut saved, 60 * SEC);
    maybe_save_snapshot(&integ, &sim, &mut cache, &mut saved, 60 * SEC);
    assert_eq!(cache.len(), 1);
    assert_eq!(saved.len(), 1);
    // far from a boundary nothing is cached
    let far = observed_state(TS_2022 + 7_200 * SEC, Vec3 { x: 384_400_000_000, y: 0, z: 0 });
    maybe_save_snapshot(&integ, &far, &mut cache, &mut saved, 60 * SEC);
    assert_eq!(cache.len(), 1);
}

#[test]
fn generate_scans_a_window_and_reports_alternating_events() {
    let integ = SuzukiIntegrator::new(60 * SEC);
    let himawari = Himawari::new(TS_2022);
    let mut cache = Snapshots::new();
    assert!(cache.insert(observed_state(TS_2022, Vec3 { x: 384_400_000_000, y: 0, z: 0 })));
    let mut saved = Vec::new();
    let events = generate(
        &integ,
        &himawari,
        &mut cache,
        &mut saved,
        TS_2022,
        TS_2022 + 1_800 * SEC,
        60 * SEC,
    )
        .unwrap();
    // whatever the sky did, episodes alternate and stay inside the scan
    for (i, e) in events.iter().enumerate() {
        assert_eq!(e.kind == EventKind::BecomingVisible, i % 2 == 0);
        assert!(TS_2022 < e.time_ns && e.time_ns <= TS_2022 + 1_860 * SEC);
        assert!(e.time_ns - 60 * SEC < e.refined_ns && e.refined_ns < e.time_ns);
    }
}
