//! The snapshot cache: simulation states tagged by their time, kept sorted
//! with strictly increasing timestamps, so a run can resume near any target
//! time instead of replaying from the epoch.
//!
//! Persistence is the caller's business: `insert` reports whether the state
//! entered the cache, and the caller writes it to durable storage then.

use vstd::prelude::*;
use crate::num64::abs_int;
use crate::sim::{SimState, SimView};

verus! {

/// Position `i` holds the snapshot nearest `t`: no other snapshot is
/// strictly closer, and any equally close one is no later.
pub open spec fn closest_at(s: Seq<SimView>, t: int, i: int) -> bool {
    &&& 0 <= i < s.len()
    &&& forall|j: int|
        0 <= j < s.len() ==> abs_int((#[trigger] s[j]).time - t) > abs_int(s[i].time - t) || (
        abs_int(s[j].time - t) == abs_int(s[i].time - t) && s[j].time <= s[i].time)
}

/// Timestamps strictly increase along the list.
pub open spec fn times_sorted(s: Seq<SimView>) -> bool {
    forall|i: int, j: int| 0 <= i < j < s.len() ==> (#[trigger] s[i]).time < (#[trigger] s[j]).time
}

/// A sorted collection of snapshots.
pub struct Snapshots {
    snapshots: Vec<SimState>,
}

impl View for Snapshots {
    type V = Seq<SimView>;

    closed spec fn view(&self) -> Seq<SimView> {
        self.snapshots@.map_values(|s: SimState| s@)
    }
}

impl Snapshots {
    /// The cache invariant: sorted, strictly increasing times, and every
    /// state well formed.
    pub open spec fn inv(self) -> bool {
        &&& times_sorted(self@)
        &&& forall|i: int| 0 <= i < self@.len() ==> (#[trigger] self@[i]).wf()
    }

    /// An empty cache.
    pub fn new() -> (r: Snapshots)
        ensures
            r@.len() == 0,
            r.inv(),
    {
        let r = Snapshots { snapshots: Vec::new() };
        proof {
            assert(r@ =~= Seq::<SimView>::empty());
        }
        r
    }

    /// How many snapshots are cached.
    pub fn len(&self) -> (n: usize)
        ensures
            n == self@.len(),
    {
        self.snapshots.len()
    }

    /// The snapshot at `idx`.
    pub fn get(&self, idx: usize) -> (r: &SimState)
        requires
            idx < self@.len(),
        ensures
            r@ == self@[idx as int],
    {
        &self.snapshots[idx]
    }

    /// First index whose snapshot time is at least `t` (the insertion
    /// point), found by binary search.
    fn lower_bound(&self, t: i64) -> (i: usize)
        requires
            self.inv(),
        ensures
            i <= self@.len(),
            forall|j: int| 0 <= j < i ==> (#[trigger] self@[j]).time < t as int,
            forall|j: int| i <= j < self@.len() ==> (#[trigger] self@[j]).time >= t as int,
    {
        let mut lo: usize = 0;
        let mut hi: usize = self.snapshots.len();
        while lo < hi
            invariant
                self.inv(),
                0 <= lo <= hi <= self@.len(),
                self@.len() == self.snapshots@.len(),
                forall|j: int| 0 <= j < lo ==> (#[trigger] self@[j]).time < t as int,
                forall|j: int| hi <= j < self@.len() ==> (#[trigger] self@[j]).time >= t as int,
            decreases hi - lo,
        {
            let mid = lo + (hi - lo) / 2;
            let tm = self.snapshots[mid].time();
            proof {
                assert(self@[mid as int] == self.snapshots@[mid as int]@);
            }
            if tm < t {
                proof {
                    assert forall|j: int| 0 <= j < mid + 1 implies (#[trigger] self@[j]).time
                        < t as int by {
                        if j < mid {
                            assert(self@[j].time < self@[mid as int].time);
                        }
                    }
                }
                lo = mid + 1;
            } else {
                proof {
                    assert forall|j: int| mid <= j < self@.len() implies (#[trigger] self@[j]).time
                        >= t as int by {
                        if j > mid {
                            assert(self@[mid as int].time < self@[j].time);
                        }
                    }
                }
                hi = mid;
            }
        }
        lo
    }

    /// The snapshot whose time is closest to `t`, ties broken toward the
    /// later snapshot; a copy, so the caller may integrate it onward freely.
    /// For `t` before the first snapshot the first is returned, past the
    /// last the last.
    pub fn get_closest(&self, t: i64) -> (r: SimState)
        requires
            self.inv(),
            self@.len() > 0,
        ensures
            exists|i: int| #[trigger] closest_at(self@, t as int, i) && r@ == self@[i],
    {
        let n = self.snapshots.len();
        let ip = self.lower_bound(t);
        let pick: usize = if ip == 0 {
            0
        } else if ip == n {
            n - 1
        } else {
            let t1 = self.snapshots[ip - 1].time();
            let t2 = self.snapshots[ip].time();
            proof {
                assert(self@[ip - 1] == self.snapshots@[ip - 1]@);
                assert(self@[ip as int] == self.snapshots@[ip as int]@);
            }
            // t1 < t <= t2 here; pick the closer, the later on a tie.
            if (t as i128 - t1 as i128) < (t2 as i128 - t as i128) {
                ip - 1
            } else {
                ip
            }
        };
        let r = self.snapshots[pick].clone();
        proof {
            assert(r@ == self@[pick as int]);
            let i = pick as int;
            assert(closest_at(self@, t as int, i)) by {
            assert forall|j: int| 0 <= j < self@.len() implies abs_int(
                (#[trigger] self@[j]).time - t,
            ) > abs_int(self@[i].time - t) || (abs_int(self@[j].time - t) == abs_int(
                self@[i].time - t,
            ) && self@[j].time <= self@[i].time) by {
                if j < i {
                    assert(self@[j].time < self@[i].time);
                }
                if j > i {
                    assert(self@[i].time < self@[j].time);
                }
            }
            }
        }
        r
    }

    /// Insert a snapshot unless one at the same time is already cached;
    /// reports whether it entered the cache (and should be persisted).
    /// Duplicate inserts are silent no-ops, so insertion is idempotent.
    pub fn insert(&mut self, sim: SimState) -> (inserted: bool)
        requires
            old(self).inv(),
            sim@.wf(),
        ensures
            final(self).inv(),
            inserted == !(exists|j: int|
                0 <= j < old(self)@.len() && (#[trigger] old(self)@[j]).time == sim@.time),
            !inserted ==> final(self)@ == old(self)@,
            inserted ==> exists|i: int|
                0 <= i <= old(self)@.len() && final(self)@ == old(self)@.insert(i, sim@),
    {
        let ip = self.lower_bound(sim.time());
        let n = self.snapshots.len();
        if ip < n {
            let te = self.snapshots[ip].time();
            proof {
                assert(self@[ip as int] == self.snapshots@[ip as int]@);
            }
            if te == sim.time() {
                proof {
                    assert(exists|j: int|
                        0 <= j < self@.len() && (#[trigger] self@[j]).time == sim@.time);
                }
                return false;
            }
        }
        proof {
            assert forall|j: int|
                0 <= j < self@.len() implies (#[trigger] self@[j]).time != sim@.time by {}
        }
        let ghost pre = self@;
        self.snapshots.insert(ip, sim);
        proof {
            assert(self@ =~= pre.insert(ip as int, sim@));
            assert forall|i: int, j: int| 0 <= i < j < self@.len() implies (#[trigger] self@[i]).time
                < (#[trigger] self@[j]).time by {}
            assert(final(self)@ == pre.insert(ip as int, sim@));
        }
        true
    }
}

} // verus!
