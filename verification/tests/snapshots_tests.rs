use himawari_moon::sim::SimState;
use himawari_moon::snapshots::Snapshots;

fn state_at(t: i64) -> SimState {
    SimState::new().with_timestamp(t)
}

fn cache_at(times: &[i64]) -> Snapshots {
    let mut cache = Snapshots::new();
    for &t in times {
        assert!(cache.insert(state_at(t)));
    }
    cache
}

#[test]
fn get_closest_picks_the_nearest_snapshot() {
    let cache = cache_at(&[100, 200, 300]);
    assert_eq!(cache.get_closest(149).time(), 100);
    assert_eq!(cache.get_closest(151).time(), 200);
    assert_eq!(cache.get_closest(200).time(), 200);
}

#[test]
fn get_closest_breaks_ties_toward_the_later_snapshot() {
    let cache = cache_at(&[100, 200, 300]);
    assert_eq!(cache.get_closest(150).time(), 200);
    assert_eq!(cache.get_closest(250).time(), 300);
}

#[test]
fn get_closest_clamps_to_the_stored_range() {
    let cache = cache_at(&[100, 200, 300]);
    assert_eq!(cache.get_closest(-50).time(), 100);
    assert_eq!(cache.get_closest(99).time(), 100);
    assert_eq!(cache.get_closest(301).time(), 300);
    assert_eq!(cache.get_closest(i64::MAX / 2).time(), 300);
}

#[test]
fn insert_keeps_the_list_sorted() {
    let mut cache = cache_at(&[300, 100]);
    assert!(cache.insert(state_at(200)));
    assert_eq!(cache.len(), 3);
    assert_eq!(cache.get(0).time(), 100);
    assert_eq!(cache.get(1).time(), 200);
    assert_eq!(cache.get(2).time(), 300);
}

#[test]
fn insert_at_an_existing_time_is_a_silent_no_op() {
    let mut cache = cache_at(&[100, 200]);
    assert!(!cache.insert(state_at(200)));
    assert_eq!(cache.len(), 2);
    // and inserting it again still changes nothing
    assert!(!cache.insert(state_at(200)));
    assert_eq!(cache.len(), 2);
}
