//! Lunar eclipse classification from the umbral shadow cone, with the
//! light-travel delay honoured through a rolling buffer of time-stamped
//! Sun-to-Earth direction samples.
//!
//! The cone axis uses the direction as it was one light-travel time
//! earlier, linearly interpolated between the two bracketing buffer
//! samples; with no bracketing samples yet the classifier reports no
//! eclipse.  Only the lunar geometry is classified; the solar cases are
//! deliberately not modelled.

use vstd::prelude::*;
use crate::body::BodyView;
use crate::num64::{abs_int, div_trunc, div_trunc_i128, lemma_mul_bound_128, sqrt_floor, isqrt_u128, lemma_sqrt_floor_is};
use crate::vec3::{V3i, Vec3};

verus! {

/// Largest magnitude of a stored direction component.
pub const DIR_BOUND: i64 = 1_000_000_000_000_000;

/// Largest magnitude of the Moon's geocentric offset the classifier
/// accepts (a generous bound above the real lunar distance).
pub const OFFSET_BOUND: i64 = 500_000_000_000;

/// Largest Sun-to-Earth distance the classifier accepts.
pub const DIST_BOUND: i64 = 1_000_000_000_000_000;

/// Largest body radius the classifier accepts.
pub const RADIUS_BOUND: i64 = 1_000_000_000_000;

/// Atmospheric shadow enlargement of the Earth radius, in thousandths.
pub const ENLARGE_NUM: i64 = 1011;

/// The lunar eclipse classification of one instant.
#[derive(Clone, Copy, PartialEq, Eq, Structural, Debug)]
pub enum EclipseKind {
    NoEclipse,
    PartialEclipse,
    TotalEclipse,
}

/// The umbral cone test: `axis` is the delayed Sun-to-Earth light
/// direction, `moon_off` the Moon's geocentric offset, `d_es` the
/// Earth-Sun distance, and the radii are the bodies' radii; everything in
/// units of 10^-6 km.  The Earth radius is enlarged by `ENLARGE_NUM`
/// thousandths for the atmosphere.  The Moon is fully inside the cone
/// (total), crossing its boundary (partial), or outside (none), compared
/// on squared lateral offsets so the boundaries are exact.
pub open spec fn eclipse_spec(
    axis: V3i,
    moon_off: V3i,
    d_es: int,
    r_sun: int,
    r_earth: int,
    r_moon: int,
) -> EclipseKind {
    let re = (r_earth * ENLARGE_NUM) / 1000;
    if r_sun <= re || axis.norm2() == 0 {
        EclipseKind::NoEclipse
    } else {
        let h = (re * d_es) / (r_sun - re);
        let na = sqrt_floor(axis.norm2());
        let depth = div_trunc(moon_off.dot(axis), na);
        if depth <= 0 || depth >= h {
            EclipseKind::NoEclipse
        } else {
            let rloc = re - (re * depth) / h;
            let rho2 = if moon_off.norm2() - depth * depth < 0 {
                0
            } else {
                moon_off.norm2() - depth * depth
            };
            if rloc >= r_moon && rho2 <= (rloc - r_moon) * (rloc - r_moon) {
                EclipseKind::TotalEclipse
            } else if rho2 >= (rloc + r_moon) * (rloc + r_moon) {
                EclipseKind::NoEclipse
            } else {
                EclipseKind::PartialEclipse
            }
        }
    }
}

/// The umbral cone test, executable.
#[verifier::rlimit(100)]
pub fn classify_eclipse(
    axis: &Vec3,
    moon_off: &Vec3,
    d_es: i64,
    r_sun: i64,
    r_earth: i64,
    r_moon: i64,
) -> (r: EclipseKind)
    requires
        axis@.bounded(3 * DIR_BOUND as int),
        moon_off@.bounded(OFFSET_BOUND as int),
        0 <= d_es <= DIST_BOUND,
        0 < r_sun <= RADIUS_BOUND,
        0 < r_earth <= RADIUS_BOUND,
        0 < r_moon <= RADIUS_BOUND,
    ensures
        r == eclipse_spec(
            axis@,
            moon_off@,
            d_es as int,
            r_sun as int,
            r_earth as int,
            r_moon as int,
        ),
{
    proof {
        lemma_mul_bound_128(r_earth as int, ENLARGE_NUM as int, RADIUS_BOUND as int, ENLARGE_NUM as int);
        crate::num64::lemma_div_trunc_range(
            r_earth as int * ENLARGE_NUM as int,
            1000,
            1_011_000_000_000,
        );
        vstd::arithmetic::div_mod::lemma_div_pos_is_pos(r_earth as int * ENLARGE_NUM as int, 1000);
    }
    let re_w: i128 = (r_earth as i128) * (ENLARGE_NUM as i128);
    let re: i128 = re_w / 1000;
    let n2 = axis.norm2();
    if (r_sun as i128) <= re || n2 == 0 {
        return EclipseKind::NoEclipse;
    }
    proof {
        lemma_mul_bound_128(re as int, d_es as int, 1_011_000_000_000, DIST_BOUND as int);
    }
    let h_w: i128 = re * (d_es as i128);
    let h: i128 = h_w / ((r_sun as i128) - re);
    proof {
        vstd::arithmetic::div_mod::lemma_div_pos_is_pos(h_w as int, r_sun - re as int);
    }
    let na_u = isqrt_u128(n2);
    proof {
        lemma_sqrt_floor_is(n2 as int, na_u as int);
        assert(na_u >= 1) by {
            if na_u == 0 {
                assert((na_u as int + 1) * (na_u as int + 1) == 1) by (nonlinear_arith)
                    requires
                        na_u == 0,
                ;
            }
        }
    }
    let na: i128 = na_u as i128;
    proof {
        crate::vec3::lemma_abs_mul(moon_off@.x, axis@.x);
        crate::vec3::lemma_abs_mul(moon_off@.y, axis@.y);
        crate::vec3::lemma_abs_mul(moon_off@.z, axis@.z);
        lemma_mul_bound_128(moon_off@.x, axis@.x, OFFSET_BOUND as int, 3 * DIR_BOUND as int);
        lemma_mul_bound_128(moon_off@.y, axis@.y, OFFSET_BOUND as int, 3 * DIR_BOUND as int);
        lemma_mul_bound_128(moon_off@.z, axis@.z, OFFSET_BOUND as int, 3 * DIR_BOUND as int);
    }
    let dp: i128 = moon_off.dot(axis);
    let depth: i128 = div_trunc_i128(dp, na);
    if depth <= 0 || depth >= h {
        return EclipseKind::NoEclipse;
    }
    // 0 < depth < h here; depth is bounded by three times the offset bound
    proof {
        lemma_depth_bound(moon_off@, axis@, na as int, dp as int, depth as int);
        lemma_mul_bound_128(re as int, depth as int, 1_011_000_000_000, 1_500_000_000_000);
    }
    let rq_w: i128 = re * depth;
    let rq: i128 = rq_w / h;
    proof {
        vstd::arithmetic::div_mod::lemma_div_pos_is_pos(rq_w as int, h as int);
        // rq <= re, because re * depth <= re * h
        assert(rq_w as int <= re as int * (h as int)) by (nonlinear_arith)
            requires
                0 < depth < h,
                0 <= re,
                rq_w == re * depth,
        ;
        vstd::arithmetic::div_mod::lemma_div_is_ordered(
            rq_w as int,
            re as int * h as int,
            h as int,
        );
        vstd::arithmetic::div_mod::lemma_div_multiples_vanish(re as int, h as int);
        assert(re as int * (h as int) == (h as int) * (re as int)) by (nonlinear_arith);
    }
    let rloc: i128 = re - rq;
    proof {
        lemma_mul_bound_128(depth as int, depth as int, 1_500_000_000_000, 1_500_000_000_000);
        lemma_mul_bound_128(
            (rloc - r_moon as i128) as int,
            (rloc - r_moon as i128) as int,
            2_011_000_000_000,
            2_011_000_000_000,
        );
        lemma_mul_bound_128(
            (rloc + r_moon as i128) as int,
            (rloc + r_moon as i128) as int,
            2_011_000_000_000,
            2_011_000_000_000,
        );
    }
    let m2: u128 = moon_off.norm2();
    proof {
        let mx = moon_off@.x;
        let my = moon_off@.y;
        let mz = moon_off@.z;
        assert(mx * mx + my * my + mz * mz <= 750_000_000_000_000_000_000_000int)
            by (nonlinear_arith)
            requires
                -500_000_000_000 <= mx <= 500_000_000_000,
                -500_000_000_000 <= my <= 500_000_000_000,
                -500_000_000_000 <= mz <= 500_000_000_000,
        ;
    }
    let d2: i128 = depth * depth;
    let rho2: i128 = if (m2 as i128) - d2 < 0 {
        0
    } else {
        (m2 as i128) - d2
    };
    let rm = r_moon as i128;
    if rloc >= rm && rho2 <= (rloc - rm) * (rloc - rm) {
        EclipseKind::TotalEclipse
    } else if rho2 >= (rloc + rm) * (rloc + rm) {
        EclipseKind::NoEclipse
    } else {
        EclipseKind::PartialEclipse
    }
}

/// The synthetic collinear configuration: Sun, Earth and Moon exactly on
/// one line (the axis along `x`), the Moon at depth `d` inside the cone
/// with lateral offset `lat` along `y`.  Centered (`lat == 0`) with the
/// local cone radius covering the Moon, the classification is a total
/// eclipse; with the offset at or beyond the local radius plus the Moon
/// radius, it is no eclipse.
pub proof fn lemma_eclipse_boundary(
    a: int,
    d: int,
    lat: int,
    d_es: int,
    r_sun: int,
    r_earth: int,
    r_moon: int,
)
    requires
        a >= 1,
        r_moon > 0,
        ({
            let re = (r_earth * ENLARGE_NUM) / 1000;
            let h = (re * d_es) / (r_sun - re);
            let rloc = re - (re * d) / h;
            &&& r_sun > re
            &&& 0 < d < h
            &&& (lat == 0 ==> rloc >= r_moon)
        }),
    ensures
        lat == 0 ==> eclipse_spec(
            V3i { x: a, y: 0, z: 0 },
            V3i { x: d, y: lat, z: 0 },
            d_es,
            r_sun,
            r_earth,
            r_moon,
        ) == EclipseKind::TotalEclipse,
        ({
            let re = (r_earth * ENLARGE_NUM) / 1000;
            let h = (re * d_es) / (r_sun - re);
            let rloc = re - (re * d) / h;
            lat * lat > (rloc + r_moon) * (rloc + r_moon) && lat * lat > (rloc - r_moon) * (rloc
                - r_moon) ==> eclipse_spec(
                V3i { x: a, y: 0, z: 0 },
                V3i { x: d, y: lat, z: 0 },
                d_es,
                r_sun,
                r_earth,
                r_moon,
            ) == EclipseKind::NoEclipse
        }),
{
    let axis = V3i { x: a, y: 0, z: 0 };
    let m = V3i { x: d, y: lat, z: 0 };
    assert(axis.norm2() == a * a);
    assert(m.norm2() == d * d + lat * lat);
    assert(m.dot(axis) == d * a);
    assert(a * a >= 1 && (a + 1) * (a + 1) > a * a) by (nonlinear_arith)
        requires
            a >= 1,
    ;
    crate::num64::lemma_sqrt_floor_is(a * a, a);
    // depth == d exactly
    assert(div_trunc(d * a, a) == d) by {
        vstd::arithmetic::div_mod::lemma_div_multiples_vanish(d, a);
        assert(d * a == a * d) by (nonlinear_arith);
        vstd::arithmetic::mul::lemma_mul_nonnegative(d, a);
    }
    // the lateral offset squared is exactly lat^2
    assert(m.norm2() - d * d == lat * lat);
    if lat == 0 {
        assert(lat * lat == 0);
        let re = (r_earth * ENLARGE_NUM) / 1000;
        let h = (re * d_es) / (r_sun - re);
        let rloc = re - (re * d) / h;
        assert((rloc - r_moon) * (rloc - r_moon) >= 0) by (nonlinear_arith);
    } else {
        assert(lat * lat >= 0) by (nonlinear_arith);
    }
}

/// Linear interpolation of one component between two samples.
pub open spec fn lerp_comp(d1: int, d2: int, t1: int, t2: int, t: int) -> int
    recommends
        t1 < t2,
{
    d1 + div_trunc((d2 - d1) * (t - t1), t2 - t1)
}

/// Interpolated direction between two samples.
pub open spec fn lerp_dir(e1: (int, V3i), e2: (int, V3i), t: int) -> V3i {
    V3i {
        x: lerp_comp(e1.1.x, e2.1.x, e1.0, e2.0, t),
        y: lerp_comp(e1.1.y, e2.1.y, e1.0, e2.0, t),
        z: lerp_comp(e1.1.z, e2.1.z, e1.0, e2.0, t),
    }
}

/// The first adjacent pair of samples bracketing `t`, if any.
pub open spec fn find_bracket(v: Seq<(int, V3i)>, t: int, i: int) -> Option<int>
    decreases v.len() - i when 0 <= i
{
    if i + 1 >= v.len() {
        None
    } else if v[i].0 <= t <= v[i + 1].0 {
        Some(i)
    } else {
        find_bracket(v, t, i + 1)
    }
}

/// What querying the buffer at `t` yields: the interpolation between the
/// bracketing samples, or nothing while the history does not bracket `t`.
pub open spec fn query_spec(v: Seq<(int, V3i)>, t: int) -> Option<V3i> {
    match find_bracket(v, t, 0) {
        None => None,
        Some(i) => Some(lerp_dir(v[i], v[i + 1], t)),
    }
}

/// A fixed-capacity ring of time-stamped direction samples, oldest first;
/// pushing onto a full ring evicts the oldest sample.
pub struct DirectionBuffer {
    slots: Vec<(i64, Vec3)>,
    head: usize,
    len: usize,
}

impl View for DirectionBuffer {
    type V = Seq<(int, V3i)>;

    closed spec fn view(&self) -> Seq<(int, V3i)> {
        Seq::new(
            self.len as nat,
            |i: int|
                {
                    let e = self.slots@[(self.head + i) % (self.slots@.len() as int)];
                    (e.0 as int, e.1@)
                },
        )
    }
}

impl DirectionBuffer {
    /// The ring invariant: sample times strictly increase, stay inside the
    /// simulation window, and components stay bounded, so interpolation is
    /// exact arithmetic.
    pub open spec fn inv(self) -> bool {
        &&& self.ring_wf()
        &&& forall|i: int, j: int|
            0 <= i < j < self@.len() ==> (#[trigger] self@[i]).0 < (#[trigger] self@[j]).0
        &&& forall|i: int|
            0 <= i < self@.len() ==> 0 <= (#[trigger] self@[i]).0
                < crate::calendar::month_start_ns(crate::calendar::YEAR_MAX as int, 12)
                && self@[i].1.bounded(DIR_BOUND as int)
    }

    /// Shape of the ring itself: a reduced head, a bounded capacity, and a
    /// fill count within it.
    pub closed spec fn ring_wf(self) -> bool {
        &&& (self.head as int) < self.slots@.len()
        &&& 2 <= self.slots@.len() <= 1_000_000_000
        &&& (self.len as int) <= self.slots@.len()
    }

    /// Capacity of the ring.
    pub closed spec fn cap(self) -> int {
        self.slots@.len() as int
    }

    /// A ring able to hold `capacity` samples.
    pub fn new(capacity: usize) -> (r: DirectionBuffer)
        requires
            2 <= capacity <= 1_000_000_000,
        ensures
            r@.len() == 0,
            r.inv(),
            r.cap() == capacity,
    {
        let mut slots: Vec<(i64, Vec3)> = Vec::new();
        let mut i: usize = 0;
        while i < capacity
            invariant
                slots@.len() == i,
                0 <= i <= capacity,
            decreases capacity - i,
        {
            slots.push((0, Vec3 { x: 0, y: 0, z: 0 }));
            i = i + 1;
        }
        let r = DirectionBuffer { slots, head: 0, len: 0 };
        proof {
            assert(r@ =~= Seq::<(int, V3i)>::empty());
        }
        r
    }

    /// How many samples are held.
    pub fn len(&self) -> (n: usize)
        ensures
            n == self@.len(),
    {
        self.len
    }

    /// Append a sample; on a full ring the oldest is evicted.  Times must
    /// be strictly newer than everything held.
    pub fn push(&mut self, t: i64, dir: Vec3)
        requires
            old(self).inv(),
            old(self).cap() >= 2,
            old(self)@.len() > 0 ==> old(self)@[old(self)@.len() - 1].0 < t as int,
            0 <= t,
            (t as int) < crate::calendar::month_start_ns(crate::calendar::YEAR_MAX as int, 12),
            dir@.bounded(DIR_BOUND as int),
        ensures
            final(self).inv(),
            final(self).cap() == old(self).cap(),
            old(self)@.len() < old(self).cap() ==> final(self)@ == old(self)@.push(
                (t as int, dir@),
            ),
            old(self)@.len() == old(self).cap() ==> final(self)@ == old(self)@.drop_first().push(
                (t as int, dir@),
            ),
    {
        let cap = self.slots.len();
        if self.len < cap {
            let idx = self.slot_index(self.len);
            set_slot(&mut self.slots, idx, (t, dir));
            self.len = self.len + 1;
            proof {
                assert forall|i: int| 0 <= i < self@.len() implies self@[i] == old(self)@.push(
                    (t as int, dir@),
                )[i] by {
                    let c = self.slots@.len() as int;
                    let h = self.head as int;
                    vstd::arithmetic::div_mod::lemma_mod_bound(h + i, c);
                    if i + 1 < self@.len() {
                        // an untouched slot: its index differs from the written one
                        if (h + i) % c == (h + (self@.len() - 1)) % c {
                            lemma_ring_distinct(h, i, self@.len() - 1, c);
                        }
                    }
                }
                assert(self@ =~= old(self)@.push((t as int, dir@)));
            }
        } else {
            set_slot(&mut self.slots, self.head, (t, dir));
            let ghost h0 = self.head as int;
            self.head = if self.head + 1 == cap {
                0
            } else {
                self.head + 1
            };
            proof {
                let c = self.slots@.len() as int;
                assert(self.head as int == (h0 + 1) % c) by {
                    if h0 + 1 == c {
                        vstd::arithmetic::div_mod::lemma_mod_self_0(c);
                    } else {
                        vstd::arithmetic::div_mod::lemma_small_mod((h0 + 1) as nat, c as nat);
                    }
                }
                assert forall|i: int| 0 <= i < self@.len() implies self@[i] == old(self)@
                    .drop_first().push((t as int, dir@))[i] by {
                    vstd::arithmetic::div_mod::lemma_add_mod_noop(h0 + 1, i, c);
                    vstd::arithmetic::div_mod::lemma_mod_bound(h0 + 1 + i, c);
                    vstd::arithmetic::div_mod::lemma_mod_bound(h0 + i + 1, c);
                    assert((self.head as int + i) % c == (h0 + 1 + i) % c) by {
                        vstd::arithmetic::div_mod::lemma_mod_twice(h0 + 1, c);
                        vstd::arithmetic::div_mod::lemma_small_mod(i as nat, c as nat);
                    }
                    if i < c - 1 {
                        lemma_ring_hit_head(h0, i, c);
                    } else {
                        lemma_ring_wrap(h0, c);
                    }
                }
                assert(self@ =~= old(self)@.drop_first().push((t as int, dir@)));
            }
        }
    }

    /// The physical slot of logical position `i`.
    fn slot_index(&self, i: usize) -> (r: usize)
        requires
            self.ring_wf(),
            i <= self.cap(),
        ensures
            r as int == (self.head as int + i as int) % (self.cap() as int),
            r < self.cap(),
    {
        let cap = self.slots.len();
        let h = self.head;
        let s = h + i;
        if s >= cap {
            proof {
                vstd::arithmetic::div_mod::lemma_mod_sub_multiples_vanish(s as int, cap as int);
                vstd::arithmetic::div_mod::lemma_small_mod((s - cap) as nat, cap as nat);
            }
            s - cap
        } else {
            proof {
                vstd::arithmetic::div_mod::lemma_small_mod(s as nat, cap as nat);
            }
            s
        }
    }

    /// The direction at `t`, linearly interpolated between the two
    /// bracketing samples; nothing while the held history does not
    /// bracket `t`.
    pub fn query(&self, t: i64) -> (r: Option<Vec3>)
        requires
            self.inv(),
        ensures
            match r {
                Some(d) => query_spec(self@, t as int) == Some(d@) && d@.bounded(
                    3 * DIR_BOUND as int,
                ),
                None => query_spec(self@, t as int) is None,
            },
    {
        let n = self.len;
        if n < 2 {
            proof {
                assert(find_bracket(self@, t as int, 0) is None);
            }
            return None;
        }
        let mut i: usize = 0;
        let mut found = false;
        loop
            invariant_except_break
                !found,
            invariant
                self.inv(),
                n == self@.len(),
                n >= 2,
                0 <= i <= n - 2,
                find_bracket(self@, t as int, 0) == find_bracket(self@, t as int, i as int),
            ensures
                self.inv(),
                found ==> find_bracket(self@, t as int, 0) == Some(i as int) && i + 1 < self@.len(),
                !found ==> find_bracket(self@, t as int, 0) is None,
            decreases n - i,
        {
            let e1 = self.entry(i);
            let e2 = self.entry(i + 1);
            if e1.0 <= t && t <= e2.0 {
                proof {
                    assert(find_bracket(self@, t as int, i as int) == Some(i as int));
                }
                found = true;
                break ;
            }
            proof {
                assert(find_bracket(self@, t as int, i as int) == find_bracket(
                    self@,
                    t as int,
                    i + 1,
                ));
            }
            if i + 1 >= n - 1 {
                proof {
                    assert(find_bracket(self@, t as int, i + 1) is None);
                }
                break ;
            }
            i = i + 1;
        }
        if found {
            let e1 = self.entry(i);
            let e2 = self.entry(i + 1);
            proof {
                lemma_find_bracket_props(self@, t as int, 0);
                assert(self@[i as int].0 < self@[i + 1].0);
            }
            let x = lerp_comp_x(e1.1.x, e2.1.x, e1.0, e2.0, t);
            let y = lerp_comp_x(e1.1.y, e2.1.y, e1.0, e2.0, t);
            let z = lerp_comp_x(e1.1.z, e2.1.z, e1.0, e2.0, t);
            Some(Vec3 { x, y, z })
        } else {
            None
        }
    }

    /// The sample at logical position `i`.
    fn entry(&self, i: usize) -> (r: (i64, Vec3))
        requires
            self.ring_wf(),
            i < self@.len(),
        ensures
            r.0 as int == self@[i as int].0,
            r.1@ == self@[i as int].1,
    {
        proof {
            vstd::arithmetic::div_mod::lemma_mod_bound(
                self.head as int + i as int,
                self.cap() as int,
            );
        }
        let idx = self.slot_index(i);
        self.slots[idx]
    }
}

/// A found bracket really brackets: the pair of samples it names encloses
/// the queried time.
proof fn lemma_find_bracket_props(v: Seq<(int, V3i)>, t: int, j: int)
    requires
        0 <= j,
    ensures
        match find_bracket(v, t, j) {
            Some(b) => j <= b && b + 1 < v.len() && v[b].0 <= t <= v[b + 1].0,
            None => true,
        },
    decreases v.len() - j,
{
    if j + 1 < v.len() && !(v[j].0 <= t <= v[j + 1].0) {
        lemma_find_bracket_props(v, t, j + 1);
    }
}

/// One interpolated component, executable.
fn lerp_comp_x(d1: i64, d2: i64, t1: i64, t2: i64, t: i64) -> (r: i64)
    requires
        t1 < t2,
        t1 <= t <= t2,
        -DIR_BOUND <= d1 <= DIR_BOUND,
        -DIR_BOUND <= d2 <= DIR_BOUND,
        0 <= t1,
        0 <= t2 < crate::calendar::month_start_ns(crate::calendar::YEAR_MAX as int, 12),
    ensures
        r as int == lerp_comp(d1 as int, d2 as int, t1 as int, t2 as int, t as int),
        -3 * DIR_BOUND <= r <= 3 * DIR_BOUND,
{
    proof {
        crate::calendar::lemma_dfc_bounds(crate::calendar::YEAR_MAX as int, 12, 1);
        lemma_mul_bound_128(
            (d2 - d1) as int,
            (t - t1) as int,
            2 * DIR_BOUND as int,
            7_344_000_000_000_000_000,
        );
        assert((t2 - t1) as int * (2 * DIR_BOUND as int) >= (t - t1) as int * (2
            * DIR_BOUND as int) && (t - t1) as int * (2 * DIR_BOUND as int) >= 0)
            by (nonlinear_arith)
            requires
                t1 <= t <= t2,
                DIR_BOUND == 1_000_000_000_000_000i64,
        ;
        assert(-((t2 - t1) as int * (2 * DIR_BOUND as int)) <= (d2 - d1) as int * (t - t1) as int
            <= (t2 - t1) as int * (2 * DIR_BOUND as int)) by (nonlinear_arith)
            requires
                -(2 * DIR_BOUND as int) <= (d2 - d1) as int <= 2 * DIR_BOUND as int,
                0 <= (t - t1) as int <= (t2 - t1) as int,
        ;
        crate::num64::lemma_div_trunc_range(
            (d2 - d1) as int * (t - t1) as int,
            (t2 - t1) as int,
            2 * DIR_BOUND as int,
        );
    }
    let num: i128 = ((d2 as i128) - (d1 as i128)) * ((t as i128) - (t1 as i128));
    let q: i128 = div_trunc_i128(num, (t2 as i128) - (t1 as i128));
    d1 + (q as i64)
}

/// Replace one slot of the ring's backing vector.
fn set_slot(slots: &mut Vec<(i64, Vec3)>, i: usize, e: (i64, Vec3))
    requires
        i < old(slots).len(),
    ensures
        final(slots)@ == old(slots)@.update(i as int, e),
{
    let r = &mut slots[i];
    *r = e;
    proof {
        assert(final(slots)@ =~= old(slots)@.update(i as int, e));
    }
}

/// Two distinct logical positions below the capacity sit in distinct
/// physical slots.
proof fn lemma_ring_distinct(h: int, i: int, j: int, c: int)
    requires
        0 <= h,
        0 <= i < c,
        0 <= j < c,
        i != j,
        c >= 1,
    ensures
        (h + i) % c != (h + j) % c,
{
    vstd::arithmetic::div_mod::lemma_mod_bound(h + i, c);
    vstd::arithmetic::div_mod::lemma_mod_bound(h + j, c);
    if (h + i) % c == (h + j) % c {
        vstd::arithmetic::div_mod::lemma_fundamental_div_mod(h + i, c);
        vstd::arithmetic::div_mod::lemma_fundamental_div_mod(h + j, c);
        let qi = (h + i) / c;
        let qj = (h + j) / c;
        assert(i - j == c * (qi - qj)) by (nonlinear_arith)
            requires
                h + i == c * qi + (h + i) % c,
                h + j == c * qj + (h + j) % c,
                (h + i) % c == (h + j) % c,
        ;
        assert(c * (qi - qj) == 0 || c * (qi - qj) >= c || c * (qi - qj) <= -c)
            by (nonlinear_arith)
            requires
                c >= 1,
        ;
    }
}

/// A middle logical position of the rotated ring never lands on the old
/// head slot.
proof fn lemma_ring_hit_head(h0: int, i: int, c: int)
    requires
        0 <= h0 < c,
        0 <= i < c - 1,
    ensures
        (h0 + 1 + i) % c != h0,
{
    if h0 + 1 + i < c {
        vstd::arithmetic::div_mod::lemma_small_mod((h0 + 1 + i) as nat, c as nat);
    } else {
        vstd::arithmetic::div_mod::lemma_mod_multiples_vanish(1, h0 + 1 + i - c, c);
        vstd::arithmetic::div_mod::lemma_small_mod((h0 + 1 + i - c) as nat, c as nat);
    }
}

/// The last logical position of the rotated ring is exactly the old head
/// slot.
proof fn lemma_ring_wrap(h0: int, c: int)
    requires
        0 <= h0 < c,
    ensures
        (h0 + 1 + (c - 1)) % c == h0,
{
    vstd::arithmetic::div_mod::lemma_mod_multiples_vanish(1, h0, c);
    vstd::arithmetic::div_mod::lemma_small_mod(h0 as nat, c as nat);
}

/// No component of a vector exceeds the floor of its norm.
proof fn lemma_comp_le_norm(v: V3i, na: int)
    requires
        na == sqrt_floor(v.norm2()),
        na >= 0,
        na * na <= v.norm2(),
        (na + 1) * (na + 1) > v.norm2(),
    ensures
        abs_int(v.x) <= na,
        abs_int(v.y) <= na,
        abs_int(v.z) <= na,
{
    assert forall|c: int| c == v.x || c == v.y || c == v.z implies abs_int(c) <= na by {
        let a = abs_int(c);
        assert(a * a <= v.norm2()) by (nonlinear_arith)
            requires
                v.norm2() == v.x * v.x + v.y * v.y + v.z * v.z,
                c == v.x || c == v.y || c == v.z,
                a == abs_int(c),
                (c >= 0 ==> a == c) && (c < 0 ==> a == -c),
        ;
        if a > na {
            assert((na + 1) * (na + 1) <= a * a) by (nonlinear_arith)
                requires
                    0 <= na + 1 <= a,
            ;
        }
    }
}

/// The projection depth is bounded by three times the offset bound: the
/// dot product against the axis never exceeds the offset times the norm.
proof fn lemma_depth_bound(m: V3i, axis: V3i, na: int, dp: int, depth: int)
    requires
        m.bounded(OFFSET_BOUND as int),
        na == sqrt_floor(axis.norm2()),
        na >= 1,
        na * na <= axis.norm2(),
        (na + 1) * (na + 1) > axis.norm2(),
        dp == m.dot(axis),
        depth == div_trunc(dp, na),
    ensures
        abs_int(depth) <= 1_500_000_000_000,
{
    lemma_comp_le_norm(axis, na);
    lemma_mul_bound_128(m.x, axis.x, OFFSET_BOUND as int, na);
    lemma_mul_bound_128(m.y, axis.y, OFFSET_BOUND as int, na);
    lemma_mul_bound_128(m.z, axis.z, OFFSET_BOUND as int, na);
    assert(3 * ((OFFSET_BOUND as int) * na) == na * 1_500_000_000_000) by (nonlinear_arith);
    crate::num64::lemma_div_trunc_range(dp, na, 1_500_000_000_000);
}

/// `Sun`, as bytes.
pub open spec fn sun_name() -> Seq<u8> {
    seq![0x53u8, 0x75u8, 0x6eu8]
}

/// Speed of light, 299792.458 km/s, as fixed-point units per microsecond
/// denominator: a distance in 10^-6 km divided by this many units gives
/// the light-travel time in microseconds times a million.
pub const LIGHT_SPEED_DEN: i64 = 299_792_458;

/// The eclipse classification of a full state against a direction history:
/// the Earth-Sun distance is measured now, the cone axis is the history's
/// direction one light-travel time earlier, and without a bracketing
/// history the outcome is unknown.
pub open spec fn eclipse_with_history(
    sun: BodyView,
    earth: BodyView,
    moon: BodyView,
    hist: Seq<(int, V3i)>,
    t: int,
) -> Option<EclipseKind> {
    let d_es = sqrt_floor(earth.pos.sub_wrapping(sun.pos).norm2());
    let delay = (d_es * 1_000_000) / (LIGHT_SPEED_DEN as int);
    match query_spec(hist, t - delay) {
        None => None,
        Some(axis) => Some(
            eclipse_spec(
                axis,
                moon.pos.sub_wrapping(earth.pos),
                d_es,
                sun.radius,
                earth.radius,
                moon.radius,
            ),
        ),
    }
}

/// The position and radius ranges under which the whole-state classifier
/// is exact: heliocentric distances and radii within the classifier's
/// bounds, and the Moon within its offset bound of the Earth.
pub open spec fn eclipse_geometry_ok(sun: BodyView, earth: BodyView, moon: BodyView) -> bool {
    &&& sun.pos.bounded(200_000_000_000_000)
    &&& earth.pos.bounded(200_000_000_000_000)
    &&& moon.pos.bounded(200_000_000_000_000)
    &&& 0 < sun.radius <= RADIUS_BOUND
    &&& 0 < earth.radius <= RADIUS_BOUND
    &&& 0 < moon.radius <= RADIUS_BOUND
    &&& abs_int(moon.pos.x - earth.pos.x) <= 500_000_000_000
    &&& abs_int(moon.pos.y - earth.pos.y) <= 500_000_000_000
    &&& abs_int(moon.pos.z - earth.pos.z) <= 500_000_000_000
}

/// Classify the lunar eclipse of a state, reading `Sun`, `Earth` and
/// `Moon` from the body list and the delayed light direction from the
/// history buffer; `None` while the history does not yet bracket the
/// delayed instant.
#[verifier::rlimit(100)]
pub fn classify_state_eclipse(sim: &crate::sim::SimState, buffer: &DirectionBuffer) -> (r: Option<
    EclipseKind,
>)
    requires
        buffer.inv(),
        crate::observer::has_named(sim@.bodies, sun_name()),
        crate::observer::has_named(sim@.bodies, crate::observer::earth_name()),
        crate::observer::has_named(sim@.bodies, crate::observer::moon_name()),
        i64::MIN + 5_000_000_000_000 < sim@.time,
        forall|si: int, ei: int, mi: int|
            crate::observer::is_first_named(sim@.bodies, sun_name(), si)
                && crate::observer::is_first_named(
                sim@.bodies,
                crate::observer::earth_name(),
                ei,
            ) && crate::observer::is_first_named(
                sim@.bodies,
                crate::observer::moon_name(),
                mi,
            ) ==> eclipse_geometry_ok(
                #[trigger] sim@.bodies[si],
                #[trigger] sim@.bodies[ei],
                #[trigger] sim@.bodies[mi],
            ),
    ensures
        exists|si: int, ei: int, mi: int|
            crate::observer::is_first_named(sim@.bodies, sun_name(), si)
                && crate::observer::is_first_named(
                sim@.bodies,
                crate::observer::earth_name(),
                ei,
            ) && crate::observer::is_first_named(
                sim@.bodies,
                crate::observer::moon_name(),
                mi,
            ) && r == eclipse_with_history(
                #[trigger] sim@.bodies[si],
                #[trigger] sim@.bodies[ei],
                #[trigger] sim@.bodies[mi],
                buffer@,
                sim@.time,
            ),
{
    let sun_bytes: Vec<u8> = vec![0x53, 0x75, 0x6e];
    let earth_bytes: Vec<u8> = vec![0x45, 0x61, 0x72, 0x74, 0x68];
    let moon_bytes: Vec<u8> = vec![0x4d, 0x6f, 0x6f, 0x6e];
    proof {
        assert(sun_bytes@ =~= sun_name());
        assert(earth_bytes@ =~= crate::observer::earth_name());
        assert(moon_bytes@ =~= crate::observer::moon_name());
    }
    let sun: &crate::body::Body;
    match sim.body_index_by_name(sun_bytes.as_slice()) {
        Some(i) => {
            sun = sim.get_body(i);
        },
        None => {
            proof {
                assert(false);
            }
            return None;
        },
    }
    let earth: &crate::body::Body;
    match sim.body_index_by_name(earth_bytes.as_slice()) {
        Some(i) => {
            earth = sim.get_body(i);
        },
        None => {
            proof {
                assert(false);
            }
            return None;
        },
    }
    let moon: &crate::body::Body;
    match sim.body_index_by_name(moon_bytes.as_slice()) {
        Some(i) => {
            moon = sim.get_body(i);
        },
        None => {
            proof {
                assert(false);
            }
            return None;
        },
    }
    let diff = earth.pos.sub_wrapping(&sun.pos);
    let d2 = diff.norm2();
    let d_es_w = isqrt_u128(d2);
    proof {
        lemma_sqrt_floor_is(d2 as int, d_es_w as int);
        // each difference component is within 4 * 10^14, so the distance
        // floor stays under the classifier's bound
        assert(d2 as int <= 480_000_000_000_000_000_000_000_000_000int) by (nonlinear_arith)
            requires
                d2 as int == diff@.norm2(),
                diff@.bounded(400_000_000_000_000),
        ;
        assert(d_es_w as int <= DIST_BOUND as int) by {
            if d_es_w as int > DIST_BOUND as int {
                assert((d_es_w as int) * (d_es_w as int)
                    > 480_000_000_000_000_000_000_000_000_000int) by (nonlinear_arith)
                    requires
                        d_es_w as int > 1_000_000_000_000_000int,
                ;
            }
        }
        lemma_mul_bound_128(d_es_w as int, 1_000_000, DIST_BOUND as int, 1_000_000);
        crate::num64::lemma_div_trunc_range(
            d_es_w as int * 1_000_000,
            LIGHT_SPEED_DEN as int,
            4_000_000_000_000,
        );
        assert((LIGHT_SPEED_DEN as int) * 4_000_000_000_000 >= 1_000_000_000_000_000int
            * 1_000_000) by (nonlinear_arith);
        vstd::arithmetic::div_mod::lemma_div_pos_is_pos(
            d_es_w as int * 1_000_000,
            LIGHT_SPEED_DEN as int,
        );
    }
    let d_es: i64 = d_es_w as i64;
    let delay_w: i128 = (d_es as i128) * 1_000_000;
    let delay: i128 = delay_w / (LIGHT_SPEED_DEN as i128);
    let tq: i64 = sim.time() - (delay as i64);
    match buffer.query(tq) {
        None => None,
        Some(axis) => {
            let moon_off = moon.pos.sub_wrapping(&earth.pos);
            Some(
                classify_eclipse(
                    &axis,
                    &moon_off,
                    d_es,
                    sun.radius,
                    earth.radius,
                    moon.radius,
                ),
            )
        },
    }
}

} // verus!
