use himawari_moon::body::Body;
use himawari_moon::sim::SimState;
use himawari_moon::vec3::Vec3;

fn sample_state() -> SimState {
    let earth = Body::new(
        b"Earth".to_vec(),
        398_600_441_800,
        6_371_000_000,
        Vec3 { x: -12_345, y: 0, z: 987_654_321 },
        Vec3 { x: 1, y: -1, z: 30_000_000 },
    );
    let moon = Body::new(
        b"Moon".to_vec(),
        4_902_800_066,
        1_737_400_000,
        Vec3 { x: 384_400_000_000, y: -7, z: 0 },
        Vec3 { x: 0, y: 1_022_000, z: -3 },
    );
    SimState::new().with_body(earth).with_body(moon)
}

#[test]
fn snapshot_round_trip_reproduces_every_field_exactly() {
    let state = sample_state();
    let bytes = state.save();
    let back = SimState::load(bytes.as_slice()).expect("canonical bytes parse");
    assert_eq!(back.bodies().len(), state.bodies().len());
    for i in 0..state.bodies().len() {
        let a = &state.bodies()[i];
        let b = &back.bodies()[i];
        assert_eq!(a.name, b.name);
        assert_eq!(a.gm, b.gm);
        assert_eq!(a.radius, b.radius);
        assert_eq!((a.pos.x, a.pos.y, a.pos.z), (b.pos.x, b.pos.y, b.pos.z));
        assert_eq!((a.vel.x, a.vel.y, a.vel.z), (b.vel.x, b.vel.y, b.vel.z));
    }
}

#[test]
fn serialization_is_the_documented_table_format() {
    let body = Body::new(
        b"Moon".to_vec(),
        1_000_000,
        2_500_000,
        Vec3 { x: 0, y: -1_000_000, z: 2_000_000 },
        Vec3 { x: 1, y: 0, z: -3 },
    );
    let state = SimState::new().with_body(body);
    let bytes = state.save();
    let expected = b"[[bodies]]\n\
        name = \"Moon\"\n\
        gm = 1.000000\n\
        radius = 2.500000\n\
        position = [0.000000, -1.000000, 2.000000]\n\
        velocity = [0.000001, 0.000000, -0.000003]\n";
    assert_eq!(bytes, expected.to_vec());
}

#[test]
fn load_round_trips_the_serialized_form_byte_for_byte() {
    let state = sample_state();
    let bytes = state.save();
    let back = SimState::load(bytes.as_slice()).unwrap();
    assert_eq!(back.save(), bytes);
}

#[test]
fn empty_input_is_the_empty_body_list() {
    let empty = SimState::load(b"").unwrap();
    assert_eq!(empty.bodies().len(), 0);
    assert_eq!(empty.time(), 0);
}

#[test]
fn malformed_snapshots_are_rejected() {
    // not the table format at all
    assert!(SimState::load(b"hello world").is_none());
    // header but nothing else: every required field is missing
    assert!(SimState::load(b"[[bodies]]\n").is_none());
    // a field of the wrong shape: gm is not a number
    let bad = b"[[bodies]]\n\
        name = \"Moon\"\n\
        gm = soon\n\
        radius = 2.500000\n\
        position = [0.000000, -1.000000, 2.000000]\n\
        velocity = [0.000001, 0.000000, -0.000003]\n";
    assert!(SimState::load(bad).is_none());
    // a missing field: no radius line
    let missing = b"[[bodies]]\n\
        name = \"Moon\"\n\
        gm = 1.000000\n\
        position = [0.000000, -1.000000, 2.000000]\n\
        velocity = [0.000001, 0.000000, -0.000003]\n";
    assert!(SimState::load(missing).is_none());
    // a non-positive gravitational parameter breaks the body invariant
    let zero_gm = b"[[bodies]]\n\
        name = \"Moon\"\n\
        gm = 0.000000\n\
        radius = 2.500000\n\
        position = [0.000000, -1.000000, 2.000000]\n\
        velocity = [0.000001, 0.000000, -0.000003]\n";
    assert!(SimState::load(zero_gm).is_none());
    // trailing garbage after a complete table
    let trailing = b"[[bodies]]\n\
        name = \"Moon\"\n\
        gm = 1.000000\n\
        radius = 2.500000\n\
        position = [0.000000, -1.000000, 2.000000]\n\
        velocity = [0.000001, 0.000000, -0.000003]\nx";
    assert!(SimState::load(trailing).is_none());
}

#[test]
fn numbers_with_more_digits_than_the_range_are_rejected() {
    let huge = b"[[bodies]]\n\
        name = \"Moon\"\n\
        gm = 99999999999999999999999999.000000\n\
        radius = 2.500000\n\
        position = [0.000000, -1.000000, 2.000000]\n\
        velocity = [0.000001, 0.000000, -0.000003]\n";
    assert!(SimState::load(huge).is_none());
}
