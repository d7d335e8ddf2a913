//! The split simulation state: an ordered body list plus a simulation clock,
//! with the two derivative functions and the two shift operations that the
//! symplectic integrator composes.
//!
//! Times are whole nanoseconds since the epoch 1970-01-01T00:00:00Z.
//! Shifts use wrapping addition and symmetric clamped scaling so that every
//! sub-step taken with step `-h` exactly undoes the same sub-step taken
//! with `h`; the integrator's reversibility proof rests on these contracts.

use vstd::prelude::*;
use crate::body::{Body, BodyView};
use crate::num64::{
    abs_int, clamp_sym, div_trunc, div_trunc_i128, isqrt_u128, lemma_mul_bound_128,
    lemma_sqrt_floor_is, scale_mul_div, scaled_inc, sqrt_floor, wadd64, wsub64, INC_CLAMP,
};
use crate::vec3::{V3i, Vec3};

verus! {

/// Coefficient denominator of the integrator's composition scheme: sub-step
/// coefficients are integers over this scale.
pub const COEFF_DEN: i64 = 2_000_000;

/// Combined divisor for a position shift: coefficient scale times the
/// nanoseconds in a second (positions move by velocity * seconds).
pub const KPOS: i128 = 2_000_000_000_000_000;

/// Combined divisor for a momentum shift: coefficient scale times the
/// nanoseconds in a second times the acceleration scale of 10^6.
pub const KMOM: i128 = 2_000_000_000_000_000_000_000;

/// 10^18: converts `gm / d^2` from fixed-point units to the acceleration
/// scale of 10^-12 km/s^2.
pub const ACCEL_NUM: u128 = 1_000_000_000_000_000_000;

/// Bound on the intermediate quotient `gm * ACCEL_NUM / d^2`.
pub const R1_CLAMP: i128 = 100_000_000_000_000_000_000_000_000_000_000;

/// Scale of the intermediate unit direction vector.
pub const AXIS_SCALE: i128 = 1_000_000;

/// Nanoseconds in one second.
pub const NS_PER_SEC: i64 = 1_000_000_000;

/// Mathematical view of a simulation state.
#[verifier::ext_equal]
pub ghost struct SimView {
    /// Nanoseconds since the epoch.
    pub time: int,
    pub bodies: Seq<BodyView>,
}

/// Every body in the list is well formed.
pub open spec fn bodies_wf(bodies: Seq<BodyView>) -> bool {
    forall|i: int| 0 <= i < bodies.len() ==> (#[trigger] bodies[i]).wf()
}

impl SimView {
    /// All bodies well formed.
    pub open spec fn wf(self) -> bool {
        bodies_wf(self.bodies)
    }
}

/// Positions and velocities of every body lie in the 64-bit range.  Views
/// of executable states always do; spec-level lemmas state it explicitly.
pub open spec fn kin_in_range(bodies: Seq<BodyView>) -> bool {
    forall|i: int|
        0 <= i < bodies.len() ==> {
            let b = #[trigger] bodies[i];
            &&& i64::MIN <= b.pos.x <= i64::MAX
            &&& i64::MIN <= b.pos.y <= i64::MAX
            &&& i64::MIN <= b.pos.z <= i64::MAX
            &&& i64::MIN <= b.vel.x <= i64::MAX
            &&& i64::MIN <= b.vel.y <= i64::MAX
            &&& i64::MIN <= b.vel.z <= i64::MAX
        }
}

/// The simulation state: an ordered list of bodies consistent at one
/// instant `time_ns`.
pub struct SimState {
    time_ns: i64,
    bodies: Vec<Body>,
}

impl View for SimState {
    type V = SimView;

    closed spec fn view(&self) -> SimView {
        SimView { time: self.time_ns as int, bodies: self.bodies@.map_values(|b: Body| b@) }
    }
}

impl Default for SimState {
    /// The empty state at the epoch.
    fn default() -> (r: SimState)
        ensures
            r@.time == 0,
            r@.bodies.len() == 0,
            r@.wf(),
    {
        SimState::new()
    }
}

impl Clone for SimState {
    /// A clone has the same view.
    fn clone(&self) -> (res: SimState)
        ensures
            res@ == self@,
    {
        let mut bodies: Vec<Body> = Vec::new();
        let mut i: usize = 0;
        while i < self.bodies.len()
            invariant
                0 <= i <= self.bodies.len(),
                bodies@.len() == i,
                forall|j: int| 0 <= j < i ==> (#[trigger] bodies@[j])@ == self.bodies@[j]@,
            decreases self.bodies.len() - i,
        {
            bodies.push(self.bodies[i].clone());
            i = i + 1;
        }
        let res = SimState { time_ns: self.time_ns, bodies };
        proof {
            assert(res@.bodies =~= self@.bodies);
            assert(res@ =~= self@);
        }
        res
    }
}

/// The flat derivative vector: one scalar per body and axis, length
/// `3 * bodies`.  Represents velocities (rate of position change, units
/// 10^-6 km/s) or accelerations (rate of velocity change, units
/// 10^-12 km/s^2).
pub struct SimDerivative(pub Vec<i64>);

impl View for SimDerivative {
    type V = Seq<int>;

    open spec fn view(&self) -> Seq<int> {
        self.0@.map_values(|v: i64| v as int)
    }
}

impl SimDerivative {
    /// Element-wise sum, wrapping at the 64-bit range: integrators combine
    /// derivatives linearly.
    pub fn add(&self, other: &SimDerivative) -> (r: SimDerivative)
        requires
            self@.len() == other@.len(),
        ensures
            r@.len() == self@.len(),
            forall|k: int| 0 <= k < r@.len() ==> #[trigger] r@[k] == wadd64(self@[k], other@[k]),
    {
        let n = self.0.len();
        let mut out: Vec<i64> = Vec::new();
        let mut i: usize = 0;
        while i < n
            invariant
                0 <= i <= n,
                n == self.0@.len(),
                self@.len() == other@.len(),
                n == self@.len(),
                out@.len() == i,
                forall|k: int|
                    0 <= k < i ==> #[trigger] out@[k] as int == wadd64(self@[k], other@[k]),
            decreases n - i,
        {
            out.push(self.0[i].wrapping_add(other.0[i]));
            i = i + 1;
        }
        let r = SimDerivative(out);
        proof {
            assert(r@.len() == self@.len());
        }
        r
    }

    /// Element-wise negation, wrapping at the 64-bit range.
    pub fn neg(&self) -> (r: SimDerivative)
        ensures
            r@.len() == self@.len(),
            forall|k: int| 0 <= k < r@.len() ==> #[trigger] r@[k] == wsub64(0, self@[k]),
    {
        let n = self.0.len();
        let mut out: Vec<i64> = Vec::new();
        let mut i: usize = 0;
        while i < n
            invariant
                0 <= i <= n,
                n == self.0@.len(),
                n == self@.len(),
                out@.len() == i,
                forall|k: int| 0 <= k < i ==> #[trigger] out@[k] as int == wsub64(0, self@[k]),
            decreases n - i,
        {
            out.push(0i64.wrapping_sub(self.0[i]));
            i = i + 1;
        }
        SimDerivative(out)
    }

    /// Element-wise scaling by the rational `num / den`, truncating toward
    /// zero and clamping symmetrically, like an integrator sub-shift.
    pub fn scale(&self, num: i64, den: i128) -> (r: SimDerivative)
        requires
            -COEFF_DEN <= num <= COEFF_DEN,
            0 < den <= 2_000_000_000_000_000_000_000,
        ensures
            r@.len() == self@.len(),
            forall|k: int|
                0 <= k < r@.len() ==> #[trigger] r@[k] == scaled_inc(self@[k], num as int, 1, den as int),
    {
        let n = self.0.len();
        let mut out: Vec<i64> = Vec::new();
        let mut i: usize = 0;
        while i < n
            invariant
                0 <= i <= n,
                n == self.0@.len(),
                n == self@.len(),
                -COEFF_DEN <= num <= COEFF_DEN,
                0 < den <= 2_000_000_000_000_000_000_000,
                out@.len() == i,
                forall|k: int|
                    0 <= k < i ==> #[trigger] out@[k] as int == scaled_inc(
                        self@[k],
                        num as int,
                        1,
                        den as int,
                    ),
            decreases n - i,
        {
            out.push(scale_mul_div(self.0[i], num, 1, den));
            i = i + 1;
        }
        SimDerivative(out)
    }
}

/// Component `ax` (0, 1 or 2) of a vector.
pub open spec fn axis_comp(v: V3i, ax: int) -> int {
    if ax == 0 {
        v.x
    } else if ax == 1 {
        v.y
    } else {
        v.z
    }
}

/// The flat sequence of all bodies' velocities.
pub open spec fn vel_flat(bodies: Seq<BodyView>) -> Seq<int> {
    Seq::new(3 * bodies.len(), |k: int| axis_comp(bodies[k / 3].vel, k % 3))
}

/// Gravitational pull of `bj` on `bi` along axis `ax`, in acceleration
/// units of 10^-12 km/s^2: `gm_j * (pos_j - pos_i) / |pos_j - pos_i|^3`,
/// evaluated in fixed point exactly as the executable code does.
/// Coincident positions contribute nothing (the modelling precondition is
/// that bodies never coincide).
pub open spec fn grav_contrib(bi: BodyView, bj: BodyView, ax: int) -> int {
    let d = bj.pos.sub_wrapping(bi.pos);
    let d2 = d.norm2();
    if d2 == 0 {
        0
    } else {
        let dist = sqrt_floor(d2);
        let r1 = clamp_sym((bj.gm * ACCEL_NUM) / d2, R1_CLAMP as int);
        let u = div_trunc(axis_comp(d, ax) * AXIS_SCALE, dist);
        clamp_sym(div_trunc(r1 * u, AXIS_SCALE as int), INC_CLAMP as int)
    }
}

/// Partial sum of the gravitational pulls of bodies `0 .. j` (skipping `i`
/// itself) on body `i`, clamped into the 64-bit range after every addition.
pub open spec fn accel_sum(bodies: Seq<BodyView>, i: int, ax: int, j: nat) -> int
    decreases j,
{
    if j == 0 {
        0
    } else {
        let prev = accel_sum(bodies, i, ax, (j - 1) as nat);
        if j - 1 == i {
            prev
        } else {
            clamp_sym(prev + grav_contrib(bodies[i], bodies[j - 1], ax), INC_CLAMP as int)
        }
    }
}

/// Acceleration of body `i` along axis `ax`.
pub open spec fn accel_comp(bodies: Seq<BodyView>, i: int, ax: int) -> int {
    accel_sum(bodies, i, ax, bodies.len())
}

/// The flat sequence of all bodies' accelerations.
pub open spec fn accel_flat(bodies: Seq<BodyView>) -> Seq<int> {
    Seq::new(3 * bodies.len(), |k: int| accel_comp(bodies, k / 3, k % 3))
}

/// A body with its position shifted by the given deltas; everything else
/// unchanged.
pub open spec fn pos_shifted(b: BodyView, dx: int, dy: int, dz: int) -> BodyView {
    BodyView {
        pos: V3i { x: wadd64(b.pos.x, dx), y: wadd64(b.pos.y, dy), z: wadd64(b.pos.z, dz) },
        ..b
    }
}

/// A body with its velocity shifted by the given deltas; everything else
/// unchanged.
pub open spec fn vel_shifted(b: BodyView, dx: int, dy: int, dz: int) -> BodyView {
    BodyView {
        vel: V3i { x: wadd64(b.vel.x, dx), y: wadd64(b.vel.y, dy), z: wadd64(b.vel.z, dz) },
        ..b
    }
}

/// All positions shifted by `dir * (c * a) / KPOS`.
pub open spec fn apply_pos_shift(bodies: Seq<BodyView>, dir: Seq<int>, c: int, a: int) -> Seq<
    BodyView,
> {
    Seq::new(
        bodies.len(),
        |i: int|
            pos_shifted(
                bodies[i],
                scaled_inc(dir[3 * i], c, a, KPOS as int),
                scaled_inc(dir[3 * i + 1], c, a, KPOS as int),
                scaled_inc(dir[3 * i + 2], c, a, KPOS as int),
            ),
    )
}

/// All velocities shifted by `dir * (c * a) / KMOM`.
pub open spec fn apply_mom_shift(bodies: Seq<BodyView>, dir: Seq<int>, c: int, a: int) -> Seq<
    BodyView,
> {
    Seq::new(
        bodies.len(),
        |i: int|
            vel_shifted(
                bodies[i],
                scaled_inc(dir[3 * i], c, a, KMOM as int),
                scaled_inc(dir[3 * i + 1], c, a, KMOM as int),
                scaled_inc(dir[3 * i + 2], c, a, KMOM as int),
            ),
    )
}

/// The clock correction of a position shift: a time within one microsecond
/// of a whole second is snapped to that second, so accumulated sub-step
/// truncation cannot drift the clock off round timestamps.
pub open spec fn snap_time(t: int) -> int {
    let ns = t % (NS_PER_SEC as int);
    if ns > 999_999_000 {
        wadd64(t, NS_PER_SEC - ns)
    } else if ns < 1_000 && ns > 0 {
        wadd64(t, -ns)
    } else {
        t
    }
}

/// The clock advance of one position sub-step: `time + c * a / COEFF_DEN`,
/// snapped.
pub open spec fn time_shifted(t: int, c: int, a: int) -> int {
    snap_time(wadd64(t, div_trunc(c * a, COEFF_DEN as int)))
}

impl SimState {
    /// An empty state at the epoch.
    pub fn new() -> (r: SimState)
        ensures
            r@.time == 0,
            r@.bodies.len() == 0,
            r@.wf(),
    {
        let r = SimState { time_ns: 0, bodies: Vec::new() };
        proof {
            assert(r@.bodies =~= Seq::<BodyView>::empty());
        }
        r
    }

    /// The simulation clock, nanoseconds since the epoch.
    pub fn time(&self) -> (t: i64)
        ensures
            t as int == self@.time,
    {
        self.time_ns
    }

    /// The same state with the clock set to `t_ns`.
    pub fn with_timestamp(self, t_ns: i64) -> (r: SimState)
        ensures
            r@.time == t_ns as int,
            r@.bodies == self@.bodies,
    {
        SimState { time_ns: t_ns, bodies: self.bodies }
    }

    /// The same state with `body` appended.
    pub fn with_body(self, body: Body) -> (r: SimState)
        ensures
            r@.time == self@.time,
            r@.bodies == self@.bodies.push(body@),
    {
        let mut s = self;
        s.bodies.push(body);
        proof {
            assert(s@.bodies =~= self@.bodies.push(body@));
        }
        s
    }

    /// The bodies, in order.
    pub fn bodies(&self) -> (r: &Vec<Body>)
        ensures
            r@.map_values(|b: Body| b@) == self@.bodies,
    {
        &self.bodies
    }

    /// The body at `idx`.
    pub fn get_body(&self, idx: usize) -> (r: &Body)
        requires
            idx < self@.bodies.len(),
        ensures
            r@ == self@.bodies[idx as int],
    {
        &self.bodies[idx]
    }

    /// Index of the first body with the given name, if any.
    pub fn body_index_by_name(&self, name: &[u8]) -> (r: Option<usize>)
        ensures
            match r {
                Some(i) => i < self@.bodies.len() && self@.bodies[i as int].name == name@ && forall|
                    j: int,
                |
                    0 <= j < i ==> (#[trigger] self@.bodies[j]).name != name@,
                None => forall|j: int|
                    0 <= j < self@.bodies.len() ==> (#[trigger] self@.bodies[j]).name != name@,
            },
    {
        let mut i: usize = 0;
        while i < self.bodies.len()
            invariant
                0 <= i <= self@.bodies.len(),
                self@.bodies.len() == self.bodies@.len(),
                forall|j: int| 0 <= j < i ==> (#[trigger] self@.bodies[j]).name != name@,
            decreases self.bodies.len() - i,
        {
            if crate::body::bytes_eq(self.bodies[i].name.as_slice(), name) {
                return Some(i);
            }
            i = i + 1;
        }
        None
    }

    /// The first body with the given name, if any.
    pub fn body_by_name(&self, name: &[u8]) -> (r: Option<&Body>)
        ensures
            match r {
                Some(b) => exists|i: int|
                    #[trigger] self@.bodies[i] == b@ && 0 <= i < self@.bodies.len()
                        && self@.bodies[i].name == name@ && forall|j: int|
                        0 <= j < i ==> (#[trigger] self@.bodies[j]).name != name@,
                None => forall|j: int|
                    0 <= j < self@.bodies.len() ==> (#[trigger] self@.bodies[j]).name != name@,
            },
    {
        match self.body_index_by_name(name) {
            Some(i) => Some(&self.bodies[i]),
            None => None,
        }
    }

    /// Signed time since `epoch_ns`, wrapping at the 64-bit range.
    pub fn time_since(&self, epoch_ns: i64) -> (r: i64)
        ensures
            r as int == crate::num64::wsub64(self@.time, epoch_ns as int),
    {
        self.time_ns.wrapping_sub(epoch_ns)
    }

    /// Rate of position change: every body's velocity, flattened.
    pub fn position_derivative(&self) -> (r: SimDerivative)
        ensures
            r@ == vel_flat(self@.bodies),
    {
        let n = self.bodies.len();
        let mut d: Vec<i64> = Vec::new();
        let mut i: usize = 0;
        while i < n
            invariant
                0 <= i <= n,
                n == self.bodies@.len(),
                d@.len() == 3 * i,
                forall|k: int|
                    0 <= k < 3 * i ==> #[trigger] d@[k] == axis_comp(
                        self@.bodies[k / 3].vel,
                        k % 3,
                    ),
            decreases n - i,
        {
            let b = &self.bodies[i];
            d.push(b.vel.x);
            d.push(b.vel.y);
            d.push(b.vel.z);
            proof {
                vstd::arithmetic::div_mod::lemma_fundamental_div_mod_converse(
                    3 * i as int,
                    3,
                    i as int,
                    0,
                );
                vstd::arithmetic::div_mod::lemma_fundamental_div_mod_converse(
                    3 * i as int + 1,
                    3,
                    i as int,
                    1,
                );
                vstd::arithmetic::div_mod::lemma_fundamental_div_mod_converse(
                    3 * i as int + 2,
                    3,
                    i as int,
                    2,
                );
            }
            i = i + 1;
        }
        let r = SimDerivative(d);
        proof {
            assert(r@ =~= vel_flat(self@.bodies));
        }
        r
    }

    /// Rate of velocity change: for each body, the sum over all other
    /// bodies of `gm_j * (pos_j - pos_i) / |pos_j - pos_i|^3`, computed in
    /// fixed point; O(n^2).
    pub fn momentum_derivative(&self) -> (r: SimDerivative)
        requires
            self@.wf(),
        ensures
            r@ == accel_flat(self@.bodies),
    {
        let n = self.bodies.len();
        let mut d: Vec<i64> = Vec::new();
        let mut i: usize = 0;
        while i < n
            invariant
                0 <= i <= n,
                n == self.bodies@.len(),
                self@.wf(),
                d@.len() == 3 * i,
                forall|k: int|
                    0 <= k < 3 * i ==> #[trigger] d@[k] == accel_comp(self@.bodies, k / 3, k % 3),
            decreases n - i,
        {
            let ax = self.accel_axis(i, 0);
            let ay = self.accel_axis(i, 1);
            let az = self.accel_axis(i, 2);
            d.push(ax);
            d.push(ay);
            d.push(az);
            proof {
                vstd::arithmetic::div_mod::lemma_fundamental_div_mod_converse(
                    3 * i as int,
                    3,
                    i as int,
                    0,
                );
                vstd::arithmetic::div_mod::lemma_fundamental_div_mod_converse(
                    3 * i as int + 1,
                    3,
                    i as int,
                    1,
                );
                vstd::arithmetic::div_mod::lemma_fundamental_div_mod_converse(
                    3 * i as int + 2,
                    3,
                    i as int,
                    2,
                );
            }
            i = i + 1;
        }
        let r = SimDerivative(d);
        proof {
            assert(r@ =~= accel_flat(self@.bodies));
        }
        r
    }

    /// Acceleration of body `i` along one axis.
    fn accel_axis(&self, i: usize, ax: usize) -> (r: i64)
        requires
            self@.wf(),
            i < self@.bodies.len(),
            ax < 3,
        ensures
            r as int == accel_comp(self@.bodies, i as int, ax as int),
    {
        let n = self.bodies.len();
        let mut acc: i128 = 0;
        let mut j: usize = 0;
        while j < n
            invariant
                0 <= j <= n,
                n == self.bodies@.len(),
                self@.wf(),
                i < n,
                ax < 3,
                acc as int == accel_sum(self@.bodies, i as int, ax as int, j as nat),
                -INC_CLAMP <= acc <= INC_CLAMP,
            decreases n - j,
        {
            if j != i {
                proof {
                    assert(self@.bodies[i as int] == self.bodies@[i as int]@);
                    assert(self@.bodies[j as int] == self.bodies@[j as int]@);
                    assert(self@.bodies[i as int].wf());
                    assert(self@.bodies[j as int].wf());
                }
                let c = grav_pull(&self.bodies[i], &self.bodies[j], ax);
                acc = acc + (c as i128);
                if acc > INC_CLAMP {
                    acc = INC_CLAMP;
                } else if acc < -INC_CLAMP {
                    acc = -INC_CLAMP;
                }
            }
            j = j + 1;
        }
        acc as i64
    }
}

impl SimState {
    /// Add `dir * (coeff * step_ns) / KPOS` to every position and advance
    /// the clock by `coeff * step_ns / COEFF_DEN` nanoseconds, with the
    /// sub-microsecond snap of `snap_time`.
    pub fn shift_position_in_place(&mut self, dir: &SimDerivative, coeff: i64, step_ns: i64)
        requires
            -COEFF_DEN <= coeff <= COEFF_DEN,
            dir@.len() == 3 * old(self)@.bodies.len(),
        ensures
            final(self)@.bodies == apply_pos_shift(
                old(self)@.bodies,
                dir@,
                coeff as int,
                step_ns as int,
            ),
            final(self)@.time == time_shifted(old(self)@.time, coeff as int, step_ns as int),
    {
        let ghost bodies0 = self@.bodies;
        let ghost t0 = self@.time;
        let n = self.bodies.len();
        let dl = self.deriv_len(dir);
        let mut i: usize = 0;
        while i < n
            invariant
                n == self.bodies@.len(),
                bodies0.len() == n,
                dir@.len() == 3 * n,
                3 * n <= usize::MAX,
                self@.time == t0,
                -COEFF_DEN <= coeff <= COEFF_DEN,
                0 <= i <= n,
                forall|j: int|
                    0 <= j < i ==> (#[trigger] self.bodies@[j])@ == pos_shifted(
                        bodies0[j],
                        scaled_inc(dir@[3 * j], coeff as int, step_ns as int, KPOS as int),
                        scaled_inc(dir@[3 * j + 1], coeff as int, step_ns as int, KPOS as int),
                        scaled_inc(dir@[3 * j + 2], coeff as int, step_ns as int, KPOS as int),
                    ),
                forall|j: int| i <= j < n ==> (#[trigger] self.bodies@[j])@ == bodies0[j],
            decreases n - i,
        {
            let dx = self.deriv_entry(dir, 3 * i);
            let dy = self.deriv_entry(dir, 3 * i + 1);
            let dz = self.deriv_entry(dir, 3 * i + 2);
            let ix = scale_mul_div(dx, coeff, step_ns, KPOS);
            let iy = scale_mul_div(dy, coeff, step_ns, KPOS);
            let iz = scale_mul_div(dz, coeff, step_ns, KPOS);
            let p = self.bodies[i].pos;
            let np = Vec3 {
                x: p.x.wrapping_add(ix),
                y: p.y.wrapping_add(iy),
                z: p.z.wrapping_add(iz),
            };
            body_set_pos(&mut self.bodies, i, np);
            i = i + 1;
        }
        proof {
            assert(self@.bodies =~= apply_pos_shift(
                bodies0,
                dir@,
                coeff as int,
                step_ns as int,
            ));
            crate::num64::lemma_mul_bound_128(
                coeff as int,
                step_ns as int,
                COEFF_DEN as int,
                i64::MAX as int + 1,
            );
        }
        let pr: i128 = (coeff as i128) * (step_ns as i128);
        let ti: i128 = div_trunc_i128(pr, COEFF_DEN as i128);
        proof {
            crate::num64::lemma_coeff_quot_bound(coeff as int, step_ns as int, COEFF_DEN as int);
        }
        self.time_ns = self.time_ns.wrapping_add(ti as i64);
        let ns: i64 = self.time_ns.checked_rem_euclid(NS_PER_SEC).unwrap();
        if ns > 999_999_000 {
            self.time_ns = self.time_ns.wrapping_add(NS_PER_SEC - ns);
        } else if ns < 1_000 && ns > 0 {
            self.time_ns = self.time_ns.wrapping_sub(ns);
        }
    }

    /// Add `dir * (coeff * step_ns) / KMOM` to every velocity; the clock
    /// and all positions stay as they are.
    pub fn shift_momentum_in_place(&mut self, dir: &SimDerivative, coeff: i64, step_ns: i64)
        requires
            -COEFF_DEN <= coeff <= COEFF_DEN,
            dir@.len() == 3 * old(self)@.bodies.len(),
        ensures
            final(self)@.bodies == apply_mom_shift(
                old(self)@.bodies,
                dir@,
                coeff as int,
                step_ns as int,
            ),
            final(self)@.time == old(self)@.time,
    {
        let ghost bodies0 = self@.bodies;
        let ghost t0 = self@.time;
        let n = self.bodies.len();
        let dl = self.deriv_len(dir);
        let mut i: usize = 0;
        while i < n
            invariant
                n == self.bodies@.len(),
                bodies0.len() == n,
                dir@.len() == 3 * n,
                3 * n <= usize::MAX,
                self@.time == t0,
                -COEFF_DEN <= coeff <= COEFF_DEN,
                0 <= i <= n,
                forall|j: int|
                    0 <= j < i ==> (#[trigger] self.bodies@[j])@ == vel_shifted(
                        bodies0[j],
                        scaled_inc(dir@[3 * j], coeff as int, step_ns as int, KMOM as int),
                        scaled_inc(dir@[3 * j + 1], coeff as int, step_ns as int, KMOM as int),
                        scaled_inc(dir@[3 * j + 2], coeff as int, step_ns as int, KMOM as int),
                    ),
                forall|j: int| i <= j < n ==> (#[trigger] self.bodies@[j])@ == bodies0[j],
            decreases n - i,
        {
            let dx = self.deriv_entry(dir, 3 * i);
            let dy = self.deriv_entry(dir, 3 * i + 1);
            let dz = self.deriv_entry(dir, 3 * i + 2);
            let ix = scale_mul_div(dx, coeff, step_ns, KMOM);
            let iy = scale_mul_div(dy, coeff, step_ns, KMOM);
            let iz = scale_mul_div(dz, coeff, step_ns, KMOM);
            let v = self.bodies[i].vel;
            let nv = Vec3 {
                x: v.x.wrapping_add(ix),
                y: v.y.wrapping_add(iy),
                z: v.z.wrapping_add(iz),
            };
            body_set_vel(&mut self.bodies, i, nv);
            i = i + 1;
        }
        proof {
            assert(self@.bodies =~= apply_mom_shift(
                bodies0,
                dir@,
                coeff as int,
                step_ns as int,
            ));
        }
    }

    /// Length of the flat derivative vector.
    fn deriv_len(&self, dir: &SimDerivative) -> (r: usize)
        ensures
            r as int == dir@.len(),
    {
        dir.0.len()
    }

    /// Read one derivative entry.
    fn deriv_entry(&self, dir: &SimDerivative, k: usize) -> (r: i64)
        requires
            k < dir@.len(),
        ensures
            r as int == dir@[k as int],
    {
        dir.0[k]
    }

    /// Set the clock directly; the integrator uses this at the end of a
    /// full step to cancel sub-step truncation drift.
    pub(crate) fn set_time(&mut self, t: i64)
        ensures
            final(self)@.time == t as int,
            final(self)@.bodies == old(self)@.bodies,
    {
        self.time_ns = t;
    }
}

/// The clock of an executable state is always a 64-bit value.
pub proof fn lemma_sim_time_in_range(s: &SimState)
    ensures
        i64::MIN <= s@.time <= i64::MAX,
{
}

/// The view of an executable state always has its kinematics in range.
pub proof fn lemma_sim_in_range(s: &SimState)
    ensures
        kin_in_range(s@.bodies),
{
    assert forall|i: int| 0 <= i < s@.bodies.len() implies {
        let b = #[trigger] s@.bodies[i];
        &&& i64::MIN <= b.pos.x <= i64::MAX
        &&& i64::MIN <= b.pos.y <= i64::MAX
        &&& i64::MIN <= b.pos.z <= i64::MAX
        &&& i64::MIN <= b.vel.x <= i64::MAX
        &&& i64::MIN <= b.vel.y <= i64::MAX
        &&& i64::MIN <= b.vel.z <= i64::MAX
    } by {
        assert(s@.bodies[i] == s.bodies@[i]@);
    }
}

/// Replace the velocity of `bodies[i]`.
fn body_set_vel(bodies: &mut Vec<Body>, i: usize, v: Vec3)
    requires
        i < old(bodies).len(),
    ensures
        final(bodies)@.len() == old(bodies)@.len(),
        final(bodies)@[i as int]@ == (BodyView { vel: v@, ..old(bodies)@[i as int]@ }),
        forall|j: int|
            0 <= j < final(bodies)@.len() && j != i ==> (#[trigger] final(bodies)@[j])@ == old(
                bodies,
            )@[j]@,
    {
    let b = &mut bodies[i];
    b.vel = v;
}

/// Replace the position of `bodies[i]`.
fn body_set_pos(bodies: &mut Vec<Body>, i: usize, p: Vec3)
    requires
        i < old(bodies).len(),
    ensures
        final(bodies)@.len() == old(bodies)@.len(),
        final(bodies)@[i as int]@ == (BodyView { pos: p@, ..old(bodies)@[i as int]@ }),
        forall|j: int|
            0 <= j < final(bodies)@.len() && j != i ==> (#[trigger] final(bodies)@[j])@ == old(
                bodies,
            )@[j]@,
    {
    let b = &mut bodies[i];
    b.pos = p;
}

/// One pairwise gravitational pull along one axis, exactly as
/// `grav_contrib` describes it.
fn grav_pull(bi: &Body, bj: &Body, ax: usize) -> (r: i64)
    requires
        bi@.wf(),
        bj@.wf(),
        ax < 3,
    ensures
        r as int == grav_contrib(bi@, bj@, ax as int),
        -INC_CLAMP <= r as int <= INC_CLAMP,
{
    let d = bj.pos.sub_wrapping(&bi.pos);
    let d2 = d.norm2();
    if d2 == 0 {
        return 0;
    }
    let dist = isqrt_u128(d2);
    proof {
        lemma_sqrt_floor_is(d2 as int, dist as int);
        assert(dist >= 1) by {
            if dist == 0 {
                assert((dist as int + 1) * (dist as int + 1) == 1) by (nonlinear_arith)
                    requires
                        dist == 0,
                ;
            }
        }
    }
    proof {
        lemma_mul_bound_128(bj.gm as int, ACCEL_NUM as int, 0x8000_0000_0000_0000, ACCEL_NUM as int);
    }
    let r1w: u128 = (bj.gm as u128) * ACCEL_NUM;
    let r1q: u128 = r1w / d2;
    let r1: i128 = if r1q > (R1_CLAMP as u128) {
        R1_CLAMP
    } else {
        r1q as i128
    };
    let dc: i64 = if ax == 0 {
        d.x
    } else if ax == 1 {
        d.y
    } else {
        d.z
    };
    proof {
        lemma_mul_bound_128(dc as int, AXIS_SCALE as int, 0x8000_0000_0000_0000, AXIS_SCALE as int);
    }
    let un: i128 = (dc as i128) * (AXIS_SCALE as i64 as i128);
    let u: i128 = div_trunc_i128(un, dist as i128);
    proof {
        lemma_axis_unit_bounded(d@, ax as int, d2 as int, dist as int);
        lemma_mul_bound_128(r1 as int, u as int, R1_CLAMP as int, AXIS_SCALE as int);
    }
    let ru: i128 = r1 * u;
    let q: i128 = div_trunc_i128(ru, AXIS_SCALE as i64 as i128);
    let r: i64 = if q > INC_CLAMP {
        INC_CLAMP as i64
    } else if q < -INC_CLAMP {
        (-INC_CLAMP) as i64
    } else {
        q as i64
    };
    proof {
        assert(r1 as int == clamp_sym((bj@.gm * ACCEL_NUM) / d2 as int, R1_CLAMP as int));
        assert(u as int == div_trunc(axis_comp(d@, ax as int) * AXIS_SCALE, dist as int));
        assert(r as int == clamp_sym(div_trunc(r1 as int * u as int, AXIS_SCALE as int), INC_CLAMP as int));
    }
    r
}

/// The scaled direction component `dc * AXIS_SCALE / dist` is bounded by
/// `AXIS_SCALE`, because no component exceeds the norm.
proof fn lemma_axis_unit_bounded(d: V3i, ax: int, d2: int, dist: int)
    requires
        d2 == d.norm2(),
        i64::MIN <= d.x <= i64::MAX,
        i64::MIN <= d.y <= i64::MAX,
        i64::MIN <= d.z <= i64::MAX,
        0 <= ax < 3,
        dist == sqrt_floor(d2),
        dist * dist <= d2,
        (dist + 1) * (dist + 1) > d2,
        dist >= 1,
    ensures
        -AXIS_SCALE <= div_trunc(axis_comp(d, ax) * AXIS_SCALE, dist) <= AXIS_SCALE,
{
    let dc = axis_comp(d, ax);
    let adc: int = if dc >= 0 {
        dc
    } else {
        -dc
    };
    assert(dc * dc <= d2) by (nonlinear_arith)
        requires
            d2 == d.x * d.x + d.y * d.y + d.z * d.z,
            dc == d.x || dc == d.y || dc == d.z,
    ;
    assert(adc * adc == dc * dc) by (nonlinear_arith)
        requires
            adc == dc || adc == -dc,
    ;
    if adc > dist {
        assert((dist + 1) * (dist + 1) <= adc * adc) by (nonlinear_arith)
            requires
                0 <= dist + 1 <= adc,
        ;
    }
    assert(adc <= dist);
    // (adc * AXIS_SCALE) / dist <= (dist * AXIS_SCALE) / dist == AXIS_SCALE
    assert(adc * AXIS_SCALE <= dist * AXIS_SCALE && 0 <= adc * AXIS_SCALE && dist * AXIS_SCALE
        == dist * (AXIS_SCALE as int)) by (nonlinear_arith)
        requires
            0 <= adc <= dist,
    ;
    vstd::arithmetic::div_mod::lemma_div_is_ordered(adc * AXIS_SCALE, dist * AXIS_SCALE, dist);
    vstd::arithmetic::div_mod::lemma_div_multiples_vanish(AXIS_SCALE as int, dist);
    vstd::arithmetic::div_mod::lemma_div_pos_is_pos(adc * AXIS_SCALE, dist);
    assert((adc * AXIS_SCALE) / dist <= AXIS_SCALE);
    if dc >= 0 {
        assert(div_trunc(dc * AXIS_SCALE, dist) == (adc * AXIS_SCALE) / dist);
    } else {
        assert(-(dc * AXIS_SCALE) == adc * AXIS_SCALE && dc * AXIS_SCALE < 0) by (nonlinear_arith)
            requires
                adc == -dc,
                dc < 0,
        ;
        assert(div_trunc(dc * AXIS_SCALE, dist) == -((adc * AXIS_SCALE) / dist));
    }
}

} // verus!
