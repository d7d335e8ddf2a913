use himawari_moon::body::Body;
use himawari_moon::eclipse::{classify_eclipse, classify_state_eclipse, DirectionBuffer, EclipseKind};
use himawari_moon::observer::{Himawari, Visibility};
use himawari_moon::sim::SimState;
use himawari_moon::vec3::Vec3;

const TS_2022: i64 = 1_640_995_200_000_000_000;

fn observed_state(moon_pos: Vec3) -> SimState {
    let earth = Body::new(
        b"Earth".to_vec(),
        398_600_441_800,
        6_371_000_000,
        Vec3 { x: 0, y: 0, z: 0 },
        Vec3 { x: 0, y: 0, z: 0 },
    );
    let moon = Body::new(
        b"Moon".to_vec(),
        4_902_800_066,
        1_737_400_000,
        moon_pos,
        Vec3 { x: 0, y: 0, z: 0 },
    );
    SimState::new().with_timestamp(TS_2022).with_body(earth).with_body(moon)
}

#[test]
fn frame_boundary_is_excluded_exactly() {
    // the half-angle tangent is 153022 / 10^6: a coordinate ratio exactly
    // on the boundary is out of frame, one unit under is in
    assert!(!Himawari::frame_test(153_022, 0, 1_000_000));
    assert!(Himawari::frame_test(153_021, 0, 1_000_000));
    assert!(!Himawari::frame_test(0, 153_022, 1_000_000));
    assert!(Himawari::frame_test(0, 153_021, 1_000_000));
    // behind the camera is always out
    assert!(!Himawari::frame_test(0, 0, 0));
    assert!(!Himawari::frame_test(0, 0, -1_000_000));
}

#[test]
fn a_target_on_the_boresight_is_in_frame_and_obscured() {
    let himawari = Himawari::new(TS_2022);
    let dir = himawari.looking_dir(0);
    let obs_pos = himawari.pos(0);
    // place the Moon far ahead on the boresight
    let moon_pos = Vec3 {
        x: obs_pos.x + dir.x * 400_000,
        y: obs_pos.y + dir.y * 400_000,
        z: obs_pos.z + dir.z * 400_000,
    };
    let sim = observed_state(moon_pos);
    assert!(himawari.within_frame(&sim));
    assert!(himawari.obscured(&sim));
    assert_eq!(himawari.classify(&sim), Visibility::InFrameObscured);
}

#[test]
fn a_target_behind_the_observer_is_out_of_frame() {
    let himawari = Himawari::new(TS_2022);
    let dir = himawari.looking_dir(0);
    let obs_pos = himawari.pos(0);
    let moon_pos = Vec3 {
        x: obs_pos.x - dir.x * 400_000,
        y: obs_pos.y - dir.y * 400_000,
        z: obs_pos.z - dir.z * 400_000,
    };
    let sim = observed_state(moon_pos);
    assert!(!himawari.within_frame(&sim));
    assert_eq!(himawari.classify(&sim), Visibility::OutOfFrame);
}

#[test]
fn eclipse_collinear_centered_moon_is_total() {
    let axis = Vec3 { x: 1_000_000, y: 0, z: 0 };
    let moon_off = Vec3 { x: 384_400_000_000, y: 0, z: 0 };
    let kind = classify_eclipse(
        &axis,
        &moon_off,
        149_597_870_000_000,
        696_000_000_000,
        6_371_000_000,
        1_737_400_000,
    );
    assert_eq!(kind, EclipseKind::TotalEclipse);
}

#[test]
fn eclipse_lateral_offset_beyond_the_cone_is_none() {
    let axis = Vec3 { x: 1_000_000, y: 0, z: 0 };
    // the cone's local radius at lunar distance is 4_669_221_224; one
    // Moon radius further out leaves no overlap
    let moon_off = Vec3 { x: 384_400_000_000, y: 4_669_221_224 + 1_737_400_000 + 1_000_000, z: 0 };
    let kind = classify_eclipse(
        &axis,
        &moon_off,
        149_597_870_000_000,
        696_000_000_000,
        6_371_000_000,
        1_737_400_000,
    );
    assert_eq!(kind, EclipseKind::NoEclipse);
}

#[test]
fn eclipse_offset_near_the_cone_edge_is_partial() {
    let axis = Vec3 { x: 1_000_000, y: 0, z: 0 };
    let moon_off = Vec3 { x: 384_400_000_000, y: 4_669_221_224, z: 0 };
    let kind = classify_eclipse(
        &axis,
        &moon_off,
        149_597_870_000_000,
        696_000_000_000,
        6_371_000_000,
        1_737_400_000,
    );
    assert_eq!(kind, EclipseKind::PartialEclipse);
}

#[test]
fn eclipse_outside_the_cone_depth_is_none() {
    let axis = Vec3 { x: 1_000_000, y: 0, z: 0 };
    // the Moon on the sunward side projects to a non-positive depth
    let moon_off = Vec3 { x: -384_400_000_000, y: 0, z: 0 };
    let kind = classify_eclipse(
        &axis,
        &moon_off,
        149_597_870_000_000,
        696_000_000_000,
        6_371_000_000,
        1_737_400_000,
    );
    assert_eq!(kind, EclipseKind::NoEclipse);
}

#[test]
fn direction_buffer_interpolates_between_bracketing_samples() {
    let mut buffer = DirectionBuffer::new(8);
    buffer.push(0, Vec3 { x: 0, y: 0, z: 0 });
    buffer.push(1000, Vec3 { x: 1000, y: 2000, z: -1000 });
    let d = buffer.query(500).unwrap();
    assert_eq!((d.x, d.y, d.z), (500, 1000, -500));
    let d0 = buffer.query(0).unwrap();
    assert_eq!((d0.x, d0.y, d0.z), (0, 0, 0));
    let d1 = buffer.query(1000).unwrap();
    assert_eq!((d1.x, d1.y, d1.z), (1000, 2000, -1000));
}

#[test]
fn direction_buffer_reports_unbracketed_times_as_unknown() {
    let mut buffer = DirectionBuffer::new(4);
    assert!(buffer.query(5).is_none());
    buffer.push(100, Vec3 { x: 1, y: 2, z: 3 });
    // one sample cannot bracket anything
    assert!(buffer.query(100).is_none());
    buffer.push(200, Vec3 { x: 1, y: 2, z: 3 });
    assert!(buffer.query(99).is_none());
    assert!(buffer.query(201).is_none());
    assert!(buffer.query(150).is_some());
}

#[test]
fn direction_buffer_evicts_the_oldest_when_full() {
    let mut buffer = DirectionBuffer::new(2);
    buffer.push(0, Vec3 { x: 0, y: 0, z: 0 });
    buffer.push(100, Vec3 { x: 100, y: 0, z: 0 });
    buffer.push(200, Vec3 { x: 200, y: 0, z: 0 });
    assert_eq!(buffer.len(), 2);
    // the window now starts at 100
    assert!(buffer.query(50).is_none());
    let d = buffer.query(150).unwrap();
    assert_eq!(d.x, 150);
}

#[test]
fn whole_state_eclipse_uses_the_delayed_direction() {
    let sun = Body::new(
        b"Sun".to_vec(),
        132_712_440_018_000_000,
        696_000_000_000,
        Vec3 { x: -149_597_870_000_000, y: 0, z: 0 },
        Vec3 { x: 0, y: 0, z: 0 },
    );
    let earth = Body::new(
        b"Earth".to_vec(),
        398_600_441_800,
        6_371_000_000,
        Vec3 { x: 0, y: 0, z: 0 },
        Vec3 { x: 0, y: 0, z: 0 },
    );
    let moon = Body::new(
        b"Moon".to_vec(),
        4_902_800_066,
        1_737_400_000,
        Vec3 { x: 384_400_000_000, y: 0, z: 0 },
        Vec3 { x: 0, y: 0, z: 0 },
    );
    let sim = SimState::new()
        .with_timestamp(TS_2022)
        .with_body(sun)
        .with_body(earth)
        .with_body(moon);
    // an empty history cannot bracket the delayed instant
    let empty = DirectionBuffer::new(4);
    assert_eq!(classify_state_eclipse(&sim, &empty), None);
    // a history bracketing it with the collinear +x direction reports the
    // total eclipse of the centered configuration
    let mut buffer = DirectionBuffer::new(4);
    buffer.push(TS_2022 - 3_600_000_000_000, Vec3 { x: 1_000_000, y: 0, z: 0 });
    buffer.push(TS_2022, Vec3 { x: 1_000_000, y: 0, z: 0 });
    assert_eq!(classify_state_eclipse(&sim, &buffer), Some(EclipseKind::TotalEclipse));
}
