//! The geostationary observer: a camera on a fixed orbit whose boresight
//! rotates with Earth's sidereal rate about the rotation axis (tilted by
//! the axial obliquity).  Classifies, for each simulation state, whether
//! the target body falls inside the imager's fixed square frame -- the
//! per-axis half-angle test below, matching the square sensor rather than
//! a circular cone -- and whether it is obscured by the disk being imaged.
//!
//! All geometry is fixed point: direction vectors carry a scale of 10^6,
//! angles are 32-bit binary fractions of a turn, and the field-of-view test
//! compares cross-multiplied integers, so the frame boundary is an exact
//! strict inequality: `lemma_frame_boundary_excluded` pins the edge case.

use vstd::prelude::*;
use crate::num64::{abs_int, clamp_sym, div_trunc, div_trunc_i128, lemma_mul_bound_128, wadd64, wsub64, sqrt_floor};
use crate::sim::SimState;
use crate::body::BodyView;
use crate::vec3::{V3i, Vec3};

verus! {

/// Scale of direction-vector components.
pub const DIR_SCALE: i64 = 1_000_000;

/// sin of Earth's axial obliquity (23.45 degrees), scaled by `DIR_SCALE`.
pub const OBLIQUITY_SIN: i64 = 397_949;

/// cos of Earth's axial obliquity, scaled by `DIR_SCALE`.
pub const OBLIQUITY_COS: i64 = 917_408;

/// Binary angle units (fractions of a turn in 2^-32) per 1000 seconds of
/// sidereal rotation: 2^32 * 1000 / 86164.0905 s.
pub const BAM_PER_1000S: i64 = 49_846_372;

/// Boresight angle at the epoch, plus the instrument's fixed longitude
/// offset of 140.7 degrees, as a 32-bit binary angle.
pub const ANGLE_EPOCH_BAM: i64 = 3_952_921_233;

/// Orbit radius, 42171 km, in units of 10^-6 km.
pub const ORBIT_RADIUS: i64 = 42_171_000_000;

/// tan of the field-of-view half angle (8.7 degrees), scaled by `DIR_SCALE`.
pub const TAN_FOV2: i64 = 153_022;

/// cos of the obscuration half angle (8.45 degrees), scaled by `DIR_SCALE`.
pub const COS_OBSC: i64 = 989_145;

/// One quarter turn in binary angle units.
pub const QUARTER_BAM: i64 = 0x4000_0000;

/// A full turn in binary angle units.
pub const TURN_BAM: i64 = 0x1_0000_0000;

/// The three-valued visibility outcome of one step.
#[derive(Clone, Copy, PartialEq, Eq, Structural, Debug)]
pub enum Visibility {
    VisibleInFrame,
    InFrameObscured,
    OutOfFrame,
}

/// Mathematical view of the observer.
#[verifier::ext_equal]
pub ghost struct ObserverView {
    pub axis: V3i,
    pub v1: V3i,
    pub v2: V3i,
    pub epoch: int,
}

/// Quarter-wave sine: for `x` in binary angle units of a quarter turn
/// (`0 .. 2^30`), the sine scaled by `DIR_SCALE`, by a degree-7 Taylor
/// polynomial evaluated in fixed point.
pub open spec fn sin_quarter(x: int) -> int {
    let th = (x * 1_570_796_327) / 0x4000_0000;  // angle in nanoradians
    let th2 = (th * th) / 1_000_000_000;
    let th3 = (th2 * th) / 1_000_000_000;
    let th5 = (th3 * th2) / 1_000_000_000;
    let th7 = (th5 * th2) / 1_000_000_000;
    let s = th - th3 / 6 + th5 / 120 - th7 / 5040;
    clamp_sym(div_trunc(s, 1000), DIR_SCALE as int)
}

/// Sine of a 32-bit binary angle, scaled by `DIR_SCALE`.
pub open spec fn sin_bam(a: int) -> int
    recommends
        0 <= a < TURN_BAM,
{
    if a < QUARTER_BAM {
        sin_quarter(a)
    } else if a < 2 * QUARTER_BAM {
        sin_quarter(2 * QUARTER_BAM - a)
    } else if a < 3 * QUARTER_BAM {
        -sin_quarter(a - 2 * QUARTER_BAM)
    } else {
        -sin_quarter(4 * QUARTER_BAM - a)
    }
}

/// Cosine of a 32-bit binary angle, scaled by `DIR_SCALE`.
pub open spec fn cos_bam(a: int) -> int
    recommends
        0 <= a < TURN_BAM,
{
    sin_bam((a + QUARTER_BAM as int) % (TURN_BAM as int))
}

/// The boresight's binary angle `t` nanoseconds after the epoch.
pub open spec fn angle_at(obs: ObserverView, t_ns: int) -> int {
    (ANGLE_EPOCH_BAM + div_trunc(t_ns * BAM_PER_1000S, 1_000_000_000_000)) % (TURN_BAM as int)
}

/// Scale a direction component by a sine or cosine value.
pub open spec fn dirmul(c: int, s: int) -> int {
    div_trunc(c * s, DIR_SCALE as int)
}

/// The boresight direction `t` nanoseconds after the epoch, components
/// scaled by `DIR_SCALE`.
pub open spec fn looking_dir_at(obs: ObserverView, t_ns: int) -> V3i {
    let a = angle_at(obs, t_ns);
    let cb = cos_bam(a);
    let sb = sin_bam(a);
    V3i {
        x: -dirmul(obs.v1.x, cb) - dirmul(obs.v2.x, sb),
        y: -dirmul(obs.v1.y, cb) - dirmul(obs.v2.y, sb),
        z: -dirmul(obs.v1.z, cb) - dirmul(obs.v2.z, sb),
    }
}

/// The observer's geocentric position `t` nanoseconds after the epoch.
pub open spec fn observer_pos_at(obs: ObserverView, t_ns: int) -> V3i {
    let d = looking_dir_at(obs, t_ns);
    V3i {
        x: -dirmul(ORBIT_RADIUS as int, d.x),
        y: -dirmul(ORBIT_RADIUS as int, d.y),
        z: -dirmul(ORBIT_RADIUS as int, d.z),
    }
}

/// Cross product with the result scaled back down by `DIR_SCALE`.
pub open spec fn cross_scaled(a: V3i, b: V3i) -> V3i {
    V3i {
        x: div_trunc(a.y * b.z - a.z * b.y, DIR_SCALE as int),
        y: div_trunc(a.z * b.x - a.x * b.z, DIR_SCALE as int),
        z: div_trunc(a.x * b.y - a.y * b.x, DIR_SCALE as int),
    }
}

/// The direction from the observer toward the target, unnormalized (the
/// frame test is scale-invariant).
pub open spec fn dir_to_target(obs: ObserverView, target_pos: V3i, earth_pos: V3i, t_ns: int) -> V3i {
    let op = observer_pos_at(obs, t_ns);
    V3i {
        x: wsub64(target_pos.x, wadd64(earth_pos.x, op.x)),
        y: wsub64(target_pos.y, wadd64(earth_pos.y, op.y)),
        z: wsub64(target_pos.z, wadd64(earth_pos.z, op.z)),
    }
}

/// The strict frame test on camera coordinates: inside the imager's square
/// frame exactly when both transverse ratios are strictly under the
/// half-angle tangent and the target is in front.
pub open spec fn frame_cond(x: int, y: int, z: int) -> bool {
    &&& z > 0
    &&& abs_int(x) * (DIR_SCALE as int) < (TAN_FOV2 as int) * z
    &&& abs_int(y) * (DIR_SCALE as int) < (TAN_FOV2 as int) * z
}

/// Whether the target at `target_pos` lies in the observer's frame at
/// simulation time `t` (nanoseconds since the calendar epoch).
pub open spec fn within_frame_at(obs: ObserverView, target_pos: V3i, earth_pos: V3i, t: int) -> bool {
    let tn = wsub64(t, obs.epoch);
    let dir = looking_dir_at(obs, tn);
    let up = obs.axis;
    let right = cross_scaled(dir, up);
    let d = dir_to_target(obs, target_pos, earth_pos, tn);
    frame_cond(d.dot(right), d.dot(up), d.dot(dir))
}

/// Whether the target is within the obscuration half angle of the
/// boresight: `cos(angle to target) > COS_OBSC`, compared exactly on
/// cross-multiplied integers with floor square roots for the norms.
pub open spec fn obscured_at(obs: ObserverView, target_pos: V3i, earth_pos: V3i, t: int) -> bool {
    let tn = wsub64(t, obs.epoch);
    let dir = looking_dir_at(obs, tn);
    let d = dir_to_target(obs, target_pos, earth_pos, tn);
    let dp = d.dot(dir);
    dp > 0 && dp * (DIR_SCALE as int) > (COS_OBSC as int) * (sqrt_floor(d.norm2()) * sqrt_floor(
        dir.norm2(),
    ))
}

/// The three-valued classification of one state.
pub open spec fn classify_at(obs: ObserverView, target_pos: V3i, earth_pos: V3i, t: int) -> Visibility {
    if within_frame_at(obs, target_pos, earth_pos, t) {
        if obscured_at(obs, target_pos, earth_pos, t) {
            Visibility::InFrameObscured
        } else {
            Visibility::VisibleInFrame
        }
    } else {
        Visibility::OutOfFrame
    }
}

/// The first body of the list carrying `name`.
pub open spec fn is_first_named(bodies: Seq<BodyView>, name: Seq<u8>, i: int) -> bool {
    &&& 0 <= i < bodies.len()
    &&& bodies[i].name == name
    &&& forall|j: int| 0 <= j < i ==> (#[trigger] bodies[j]).name != name
}

/// Some body of the list carries `name`.
pub open spec fn has_named(bodies: Seq<BodyView>, name: Seq<u8>) -> bool {
    exists|i: int| 0 <= i < bodies.len() && (#[trigger] bodies[i]).name == name
}

/// The index of the first body carrying `name`; meaningful when one does.
pub open spec fn first_named_index(bodies: Seq<BodyView>, name: Seq<u8>) -> int {
    choose|i: int| is_first_named(bodies, name, i)
}

/// Index scan for `name` from position `i`: the first match, or the length.
pub open spec fn scan_named(bodies: Seq<BodyView>, name: Seq<u8>, i: nat) -> int
    decreases bodies.len() - i,
{
    if i >= bodies.len() {
        bodies.len() as int
    } else if bodies[i as int].name == name {
        i as int
    } else {
        scan_named(bodies, name, (i + 1) as nat)
    }
}

/// A list holding `name` holds a first body with it.
pub proof fn lemma_has_first(bodies: Seq<BodyView>, name: Seq<u8>)
    requires
        has_named(bodies, name),
    ensures
        is_first_named(bodies, name, first_named_index(bodies, name)),
{
    lemma_scan_finds(bodies, name, 0);
    let s = scan_named(bodies, name, 0);
    assert(s < bodies.len()) by {
        if s == bodies.len() {
            let w = choose|i: int| 0 <= i < bodies.len() && (#[trigger] bodies[i]).name == name;
            assert(bodies[w].name != name);
        }
    }
    assert(is_first_named(bodies, name, s));
    assert(exists|i: int| is_first_named(bodies, name, i));
    lemma_first_named_unique(bodies, name);
}

/// The scan from `i` lands on the first match at or after `i`, or on the
/// length when there is none.
proof fn lemma_scan_finds(bodies: Seq<BodyView>, name: Seq<u8>, i: nat)
    requires
        i <= bodies.len(),
    ensures
        ({
            let s = scan_named(bodies, name, i);
            &&& i <= s <= bodies.len()
            &&& forall|j: int| i <= j < s ==> (#[trigger] bodies[j]).name != name
            &&& s < bodies.len() ==> bodies[s].name == name
        }),
    decreases bodies.len() - i,
{
    if i < bodies.len() && bodies[i as int].name != name {
        lemma_scan_finds(bodies, name, (i + 1) as nat);
    }
}

/// The classification of a whole state: the first `Moon` body against the
/// first `Earth` body at the state's instant.
#[verifier::opaque]
pub open spec fn state_within(obs: ObserverView, bodies: Seq<BodyView>, t: int) -> bool {
    within_frame_at(
        obs,
        bodies[first_named_index(bodies, moon_name())].pos,
        bodies[first_named_index(bodies, earth_name())].pos,
        t,
    )
}

/// Whether the state's first `Moon` body is obscured for the observer.
#[verifier::opaque]
pub open spec fn state_obscured(obs: ObserverView, bodies: Seq<BodyView>, t: int) -> bool {
    obscured_at(
        obs,
        bodies[first_named_index(bodies, moon_name())].pos,
        bodies[first_named_index(bodies, earth_name())].pos,
        t,
    )
}

/// The three-valued classification of a whole state.
pub open spec fn state_classify(obs: ObserverView, bodies: Seq<BodyView>, t: int) -> Visibility {
    if state_within(obs, bodies, t) {
        if state_obscured(obs, bodies, t) {
            Visibility::InFrameObscured
        } else {
            Visibility::VisibleInFrame
        }
    } else {
        Visibility::OutOfFrame
    }
}

/// `Moon`, as bytes.
pub open spec fn moon_name() -> Seq<u8> {
    seq![0x4du8, 0x6fu8, 0x6fu8, 0x6eu8]
}

/// `Earth`, as bytes.
pub open spec fn earth_name() -> Seq<u8> {
    seq![0x45u8, 0x61u8, 0x72u8, 0x74u8, 0x68u8]
}

/// The observer: its camera basis and the epoch its rotation is phased to.
pub struct Himawari {
    pub axis: Vec3,
    pub v1: Vec3,
    pub v2: Vec3,
    pub epoch_ns: i64,
}

impl View for Himawari {
    type V = ObserverView;

    open spec fn view(&self) -> ObserverView {
        ObserverView { axis: self.axis@, v1: self.v1@, v2: self.v2@, epoch: self.epoch_ns as int }
    }
}

/// The camera basis is built from the obliquity constants and each
/// component is at most one unit.
pub open spec fn observer_wf(obs: ObserverView) -> bool {
    &&& obs.axis == (V3i { x: 0, y: OBLIQUITY_SIN as int, z: OBLIQUITY_COS as int })
    &&& obs.v1 == (V3i { x: 0, y: -(OBLIQUITY_COS as int), z: OBLIQUITY_SIN as int })
    &&& obs.v2 == (V3i { x: DIR_SCALE as int, y: 0, z: 0 })
}

impl Himawari {
    /// An observer phased to the given epoch: rotation axis tilted by the
    /// obliquity, camera basis orthogonal to it.
    pub fn new(epoch_ns: i64) -> (r: Himawari)
        ensures
            observer_wf(r@),
            r@.epoch == epoch_ns as int,
    {
        Himawari {
            axis: Vec3 { x: 0, y: OBLIQUITY_SIN, z: OBLIQUITY_COS },
            v1: Vec3 { x: 0, y: -OBLIQUITY_COS, z: OBLIQUITY_SIN },
            v2: Vec3 { x: DIR_SCALE, y: 0, z: 0 },
            epoch_ns,
        }
    }
}

/// Quarter-wave sine, executable.
fn sin_quarter_x(x: i64) -> (r: i64)
    requires
        0 <= x <= QUARTER_BAM,
    ensures
        r as int == sin_quarter(x as int),
        -DIR_SCALE <= r <= DIR_SCALE,
{
    proof {
        lemma_mul_bound_128(x as int, 1_570_796_327, QUARTER_BAM as int, 1_570_796_327);
    }
    let thn: i128 = (x as i128) * 1_570_796_327;
    let th: i128 = thn / 0x4000_0000;
    proof {
        vstd::arithmetic::div_mod::lemma_div_is_ordered(thn as int, QUARTER_BAM as int
            * 1_570_796_327, 0x4000_0000);
        vstd::arithmetic::div_mod::lemma_div_pos_is_pos(thn as int, 0x4000_0000);
        assert(QUARTER_BAM as int * 1_570_796_327 / 0x4000_0000 == 1_570_796_327) by {
            vstd::arithmetic::div_mod::lemma_div_multiples_vanish(
                1_570_796_327,
                0x4000_0000,
            );
            assert(QUARTER_BAM as int * 1_570_796_327 == 0x4000_0000 * 1_570_796_327int)
                by (nonlinear_arith);
        }
    }
    // 0 <= th <= 1_570_796_327 here.
    proof {
        lemma_mul_bound_128(th as int, th as int, 1_570_796_327, 1_570_796_327);
    }
    let th2: i128 = (th * th) / 1_000_000_000;
    proof {
        lemma_quot_bound(th * th, 1_570_796_327int * 1_570_796_327, 1_000_000_000);
        lemma_mul_bound_128(th2 as int, th as int, 2_467_401_101, 1_570_796_327);
    }
    let th3: i128 = (th2 * th) / 1_000_000_000;
    proof {
        lemma_quot_bound(th2 * th, 2_467_401_101int * 1_570_796_327, 1_000_000_000);
        lemma_mul_bound_128(th3 as int, th2 as int, 3_875_784_586, 2_467_401_101);
    }
    let th5: i128 = (th3 * th2) / 1_000_000_000;
    proof {
        lemma_quot_bound(th3 * th2, 3_875_784_586int * 2_467_401_101, 1_000_000_000);
        lemma_mul_bound_128(th5 as int, th2 as int, 9_563_116_000, 2_467_401_101);
    }
    let th7: i128 = (th5 * th2) / 1_000_000_000;
    proof {
        lemma_quot_bound(th5 * th2, 9_563_116_000int * 2_467_401_101, 1_000_000_000);
    }
    let s: i128 = th - th3 / 6 + th5 / 120 - th7 / 5040;
    proof {
        vstd::arithmetic::div_mod::lemma_div_pos_is_pos(th3 as int, 6);
        vstd::arithmetic::div_mod::lemma_div_pos_is_pos(th5 as int, 120);
        vstd::arithmetic::div_mod::lemma_div_pos_is_pos(th7 as int, 5040);
        vstd::arithmetic::div_mod::lemma_div_is_ordered(th3 as int, 3_875_784_586, 6);
        vstd::arithmetic::div_mod::lemma_div_is_ordered(th5 as int, 23_596_158_000, 120);
        vstd::arithmetic::div_mod::lemma_div_is_ordered(th7 as int, 58_221_000_000, 5040);
    }
    let q: i128 = div_trunc_i128(s, 1000);
    proof {
        lemma_sdiv_bound(s as int, 60_000_000_000, 1000);
    }
    if q > DIR_SCALE as i128 {
        DIR_SCALE
    } else if q < -(DIR_SCALE as i128) {
        -DIR_SCALE
    } else {
        q as i64
    }
}

/// A nonnegative quotient of a bounded dividend is bounded.
proof fn lemma_quot_bound(x: int, b: int, d: int)
    requires
        0 <= x <= b,
        0 < d,
    ensures
        0 <= x / d <= b / d,
{
    vstd::arithmetic::div_mod::lemma_div_is_ordered(x, b, d);
    vstd::arithmetic::div_mod::lemma_div_pos_is_pos(x, d);
}

/// A truncating signed division of a bounded dividend is bounded.
proof fn lemma_sdiv_bound(x: int, b: int, d: int)
    requires
        -b <= x <= b,
        0 <= b,
        0 < d,
    ensures
        -b <= div_trunc(x, d) <= b,
{
    if x >= 0 {
        vstd::arithmetic::div_mod::lemma_div_is_ordered(x, b, d);
        vstd::arithmetic::div_mod::lemma_div_pos_is_pos(x, d);
        vstd::arithmetic::div_mod::lemma_div_nonincreasing(x, d);
    } else {
        vstd::arithmetic::div_mod::lemma_div_is_ordered(-x, b, d);
        vstd::arithmetic::div_mod::lemma_div_pos_is_pos(-x, d);
        vstd::arithmetic::div_mod::lemma_div_nonincreasing(-x, d);
    }
}

/// Sine of a binary angle, executable.
fn sin_bam_x(a: i64) -> (r: i64)
    requires
        0 <= a < TURN_BAM,
    ensures
        r as int == sin_bam(a as int),
        -DIR_SCALE <= r <= DIR_SCALE,
{
    if a < QUARTER_BAM {
        sin_quarter_x(a)
    } else if a < 2 * QUARTER_BAM {
        sin_quarter_x(2 * QUARTER_BAM - a)
    } else if a < 3 * QUARTER_BAM {
        -sin_quarter_x(a - 2 * QUARTER_BAM)
    } else {
        -sin_quarter_x(4 * QUARTER_BAM - a)
    }
}

/// Cosine of a binary angle, executable.
fn cos_bam_x(a: i64) -> (r: i64)
    requires
        0 <= a < TURN_BAM,
    ensures
        r as int == cos_bam(a as int),
        -DIR_SCALE <= r <= DIR_SCALE,
{
    let b = (a + QUARTER_BAM) % TURN_BAM;
    proof {
        vstd::arithmetic::div_mod::lemma_mod_bound(a as int + QUARTER_BAM as int, TURN_BAM as int);
    }
    sin_bam_x(b)
}

impl Himawari {
    /// The frame test on camera coordinates, for callers that build the
    /// geometry themselves: strictly inside the half-angle tangent on both
    /// transverse axes, and in front of the camera.
    pub fn frame_test(x: i64, y: i64, z: i64) -> (r: bool)
        ensures
            r == frame_cond(x as int, y as int, z as int),
    {
        let ax: i64 = if x < 0 && x > i64::MIN {
            -x
        } else if x == i64::MIN {
            return false;
        } else {
            x
        };
        let ay: i64 = if y < 0 && y > i64::MIN {
            -y
        } else if y == i64::MIN {
            return false;
        } else {
            y
        };
        proof {
            crate::num64::lemma_mul_bound_128(ax as int, DIR_SCALE as int, i64::MAX as int, DIR_SCALE as int);
            crate::num64::lemma_mul_bound_128(TAN_FOV2 as int, z as int, TAN_FOV2 as int, i64::MAX as int + 1);
        }
        z > 0 && (ax as i128) * (DIR_SCALE as i128) < (TAN_FOV2 as i128) * (z as i128) && (
        ay as i128) * (DIR_SCALE as i128) < (TAN_FOV2 as i128) * (z as i128)
    }

    /// The boresight's binary angle `t_ns` nanoseconds after the epoch.
    fn angle_x(&self, t_ns: i64) -> (r: i64)
        ensures
            r as int == angle_at(self@, t_ns as int),
            0 <= r < TURN_BAM,
    {
        proof {
            lemma_mul_bound_128(t_ns as int, BAM_PER_1000S as int, i64::MAX as int + 1, BAM_PER_1000S as int);
        }
        let p: i128 = (t_ns as i128) * (BAM_PER_1000S as i128);
        let q: i128 = div_trunc_i128(p, 1_000_000_000_000);
        let w: i128 = (ANGLE_EPOCH_BAM as i128) + q;
        let r: i128 = w.checked_rem_euclid(TURN_BAM as i128).unwrap();
        proof {
            vstd::arithmetic::div_mod::lemma_mod_bound(w as int, TURN_BAM as int);
        }
        r as i64
    }

    /// The boresight direction `t_ns` nanoseconds after the epoch.
    pub fn looking_dir(&self, t_ns: i64) -> (r: Vec3)
        requires
            observer_wf(self@),
        ensures
            r@ == looking_dir_at(self@, t_ns as int),
            r@.bounded(2 * DIR_SCALE),
    {
        let a = self.angle_x(t_ns);
        let cb = cos_bam_x(a);
        let sb = sin_bam_x(a);
        let x = -dirmul_x(self.v2.x, sb);
        let y = -dirmul_x(self.v1.y, cb);
        let z = -dirmul_x(self.v1.z, cb);
        proof {
            assert(dirmul(self@.v1.x, cb as int) == 0) by {
                assert(self@.v1.x * (cb as int) == 0) by (nonlinear_arith)
                    requires
                        self@.v1.x == 0,
                ;
            }
            assert(dirmul(self@.v2.y, sb as int) == 0) by {
                assert(self@.v2.y * (sb as int) == 0) by (nonlinear_arith)
                    requires
                        self@.v2.y == 0,
                ;
            }
            assert(dirmul(self@.v2.z, sb as int) == 0) by {
                assert(self@.v2.z * (sb as int) == 0) by (nonlinear_arith)
                    requires
                        self@.v2.z == 0,
                ;
            }
        }
        Vec3 { x, y, z }
    }

    /// The observer's geocentric position `t_ns` nanoseconds after the
    /// epoch.
    pub fn pos(&self, t_ns: i64) -> (r: Vec3)
        requires
            observer_wf(self@),
        ensures
            r@ == observer_pos_at(self@, t_ns as int),
            r@.bounded(2 * ORBIT_RADIUS),
    {
        let d = self.looking_dir(t_ns);
        let x = -dirmul_big(ORBIT_RADIUS, d.x);
        let y = -dirmul_big(ORBIT_RADIUS, d.y);
        let z = -dirmul_big(ORBIT_RADIUS, d.z);
        Vec3 { x, y, z }
    }
}

/// `c * s / DIR_SCALE` for a unit-bounded factor `s` and a unit-bounded
/// coefficient `c`.
fn dirmul_x(c: i64, s: i64) -> (r: i64)
    requires
        -DIR_SCALE <= c <= DIR_SCALE,
        -DIR_SCALE <= s <= DIR_SCALE,
    ensures
        r as int == dirmul(c as int, s as int),
        -DIR_SCALE <= r <= DIR_SCALE,
{
    proof {
        lemma_mul_bound_128(c as int, s as int, DIR_SCALE as int, DIR_SCALE as int);
    }
    let p: i128 = (c as i128) * (s as i128);
    let q: i128 = div_trunc_i128(p, DIR_SCALE as i128);
    proof {
        lemma_sdiv_bound(p as int, 1_000_000_000_000, DIR_SCALE as int);
        lemma_sdiv_div_scale(p as int);
    }
    q as i64
}

/// `div_trunc(x, 10^6)` of a trillion-bounded value is a million-bounded
/// value.
proof fn lemma_sdiv_div_scale(p: int)
    requires
        -1_000_000_000_000 <= p <= 1_000_000_000_000,
    ensures
        -1_000_000 <= div_trunc(p, 1_000_000) <= 1_000_000,
{
    if p >= 0 {
        vstd::arithmetic::div_mod::lemma_div_is_ordered(p, 1_000_000_000_000, 1_000_000);
        vstd::arithmetic::div_mod::lemma_div_pos_is_pos(p, 1_000_000);
    } else {
        vstd::arithmetic::div_mod::lemma_div_is_ordered(-p, 1_000_000_000_000, 1_000_000);
        vstd::arithmetic::div_mod::lemma_div_pos_is_pos(-p, 1_000_000);
    }
}

/// `c * s / DIR_SCALE` for an orbit-radius coefficient.
fn dirmul_big(c: i64, s: i64) -> (r: i64)
    requires
        0 <= c <= ORBIT_RADIUS,
        -2 * DIR_SCALE <= s <= 2 * DIR_SCALE,
    ensures
        r as int == dirmul(c as int, s as int),
        -2 * ORBIT_RADIUS <= r <= 2 * ORBIT_RADIUS,
{
    proof {
        lemma_mul_bound_128(c as int, s as int, ORBIT_RADIUS as int, 2 * DIR_SCALE as int);
    }
    let p: i128 = (c as i128) * (s as i128);
    let q: i128 = div_trunc_i128(p, DIR_SCALE as i128);
    proof {
        lemma_sdiv_orbit(p as int);
    }
    q as i64
}

/// `div_trunc(x, 10^6)` of an orbit-scaled product is orbit-bounded.
proof fn lemma_sdiv_orbit(p: int)
    requires
        -(ORBIT_RADIUS as int) * (2 * DIR_SCALE as int) <= p <= (ORBIT_RADIUS as int) * (2
            * DIR_SCALE as int),
    ensures
        -2 * (ORBIT_RADIUS as int) <= div_trunc(p, 1_000_000) <= 2 * (ORBIT_RADIUS as int),
{
    assert((ORBIT_RADIUS as int) * (2 * DIR_SCALE as int) == 84_342_000_000_000_000int && (-(
    ORBIT_RADIUS as int)) * (2 * DIR_SCALE as int) == -84_342_000_000_000_000int)
        by (nonlinear_arith);
    if p >= 0 {
        vstd::arithmetic::div_mod::lemma_div_is_ordered(
            p,
            84_342_000_000_000_000,
            1_000_000,
        );
        vstd::arithmetic::div_mod::lemma_div_pos_is_pos(p, 1_000_000);
    } else {
        vstd::arithmetic::div_mod::lemma_div_is_ordered(
            -p,
            84_342_000_000_000_000,
            1_000_000,
        );
        vstd::arithmetic::div_mod::lemma_div_pos_is_pos(-p, 1_000_000);
    }
}

/// Cross product scaled down by `DIR_SCALE`, for unit-scale direction
/// vectors.
fn cross_scaled_x(a: &Vec3, b: &Vec3) -> (r: Vec3)
    requires
        a@.bounded(2 * DIR_SCALE),
        b@.bounded(2 * DIR_SCALE),
    ensures
        r@ == cross_scaled(a@, b@),
        r@.bounded(8 * DIR_SCALE),
{
    let x = cross_term(a.y, b.z, a.z, b.y);
    let y = cross_term(a.z, b.x, a.x, b.z);
    let z = cross_term(a.x, b.y, a.y, b.x);
    Vec3 { x, y, z }
}

/// One component of the scaled cross product.
fn cross_term(p: i64, q: i64, u: i64, w: i64) -> (r: i64)
    requires
        abs_int(p as int) <= 2 * DIR_SCALE,
        abs_int(q as int) <= 2 * DIR_SCALE,
        abs_int(u as int) <= 2 * DIR_SCALE,
        abs_int(w as int) <= 2 * DIR_SCALE,
    ensures
        r as int == div_trunc(p * q - u * w, DIR_SCALE as int),
        abs_int(r as int) <= 8 * DIR_SCALE,
{
    proof {
        lemma_mul_bound_128(p as int, q as int, 2 * DIR_SCALE as int, 2 * DIR_SCALE as int);
        lemma_mul_bound_128(u as int, w as int, 2 * DIR_SCALE as int, 2 * DIR_SCALE as int);
        assert((2 * DIR_SCALE as int) * (2 * DIR_SCALE as int) == 4_000_000_000_000int)
            by (nonlinear_arith);
    }
    let d: i128 = (p as i128) * (q as i128) - (u as i128) * (w as i128);
    let r: i128 = div_trunc_i128(d, DIR_SCALE as i128);
    proof {
        lemma_sdiv_bound(d as int, 8_000_000_000_000, DIR_SCALE as int);
        lemma_sdiv_cross(d as int);
    }
    r as i64
}

/// `div_trunc(x, 10^6)` of a value within 8 * 10^12 is within 8 * 10^6.
proof fn lemma_sdiv_cross(p: int)
    requires
        -8_000_000_000_000 <= p <= 8_000_000_000_000,
    ensures
        -8_000_000 <= div_trunc(p, 1_000_000) <= 8_000_000,
{
    if p >= 0 {
        vstd::arithmetic::div_mod::lemma_div_is_ordered(p, 8_000_000_000_000, 1_000_000);
        vstd::arithmetic::div_mod::lemma_div_pos_is_pos(p, 1_000_000);
    } else {
        vstd::arithmetic::div_mod::lemma_div_is_ordered(-p, 8_000_000_000_000, 1_000_000);
        vstd::arithmetic::div_mod::lemma_div_pos_is_pos(-p, 1_000_000);
    }
}

/// Dot product against a direction vector of bounded components; always
/// representable.
fn dot_dir(d: &Vec3, e: &Vec3) -> (r: i128)
    requires
        e@.bounded(8 * DIR_SCALE),
    ensures
        r as int == d@.dot(e@),
        abs_int(r as int) <= 0x8000_0000_0000_0000 * (24 * DIR_SCALE as int),
{
    proof {
        crate::vec3::lemma_abs_mul(d@.x, e@.x);
        crate::vec3::lemma_abs_mul(d@.y, e@.y);
        crate::vec3::lemma_abs_mul(d@.z, e@.z);
        lemma_mul_bound_128(d@.x, e@.x, 0x8000_0000_0000_0000, 8 * DIR_SCALE as int);
        lemma_mul_bound_128(d@.y, e@.y, 0x8000_0000_0000_0000, 8 * DIR_SCALE as int);
        lemma_mul_bound_128(d@.z, e@.z, 0x8000_0000_0000_0000, 8 * DIR_SCALE as int);
        assert(0x8000_0000_0000_0000 * (8 * DIR_SCALE as int) <= 0x7fff_ffff_ffff_ffff_ffff_ffff
            && 3 * (0x8000_0000_0000_0000 * (8 * DIR_SCALE as int)) == 0x8000_0000_0000_0000 * (24
            * DIR_SCALE as int)) by (nonlinear_arith);
    }
    let xx: i128 = (d.x as i128) * (e.x as i128);
    let yy: i128 = (d.y as i128) * (e.y as i128);
    let zz: i128 = (d.z as i128) * (e.z as i128);
    xx + yy + zz
}

impl Himawari {
    /// The unnormalized direction from the observer to the target body at
    /// the state's instant.
    fn target_dir(&self, target: &Vec3, earth: &Vec3, tn: i64) -> (r: Vec3)
        requires
            observer_wf(self@),
        ensures
            r@ == dir_to_target(self@, target@, earth@, tn as int),
    {
        let op = self.pos(tn);
        Vec3 {
            x: target.x.wrapping_sub(earth.x.wrapping_add(op.x)),
            y: target.y.wrapping_sub(earth.y.wrapping_add(op.y)),
            z: target.z.wrapping_sub(earth.z.wrapping_add(op.z)),
        }
    }

    /// Whether the Moon lies inside the observer's field-of-view cone at
    /// the state's instant; the body set must hold `Moon` and `Earth`.
    pub fn within_frame(&self, sim: &SimState) -> (r: bool)
        requires
            observer_wf(self@),
            has_named(sim@.bodies, moon_name()),
            has_named(sim@.bodies, earth_name()),
        ensures
            r == state_within(self@, sim@.bodies, sim@.time),
    {
        proof {
            reveal(state_within);
        }
        let (moon, earth) = self.lookup_pair(sim);
        let tn = sim.time().wrapping_sub(self.epoch_ns);
        let dir = self.looking_dir(tn);
        let up = self.axis;
        let right = cross_scaled_x(&dir, &up);
        let d = self.target_dir(&moon, &earth, tn);
        let x = dot_dir(&d, &right);
        let y = dot_dir(&d, &up);
        let z = dot_dir(&d, &dir);
        let ax: i128 = if x < 0 {
            -x
        } else {
            x
        };
        let ay: i128 = if y < 0 {
            -y
        } else {
            y
        };
        proof {
            lemma_frame_products_fit(x as int, y as int, z as int);
        }
        z > 0 && ax * (DIR_SCALE as i128) < (TAN_FOV2 as i128) * z && ay * (DIR_SCALE as i128) < (
        TAN_FOV2 as i128) * z
    }

    /// Whether the Moon sits within the obscuration half angle of the
    /// boresight at the state's instant.
    pub fn obscured(&self, sim: &SimState) -> (r: bool)
        requires
            observer_wf(self@),
            has_named(sim@.bodies, moon_name()),
            has_named(sim@.bodies, earth_name()),
        ensures
            r == state_obscured(self@, sim@.bodies, sim@.time),
    {
        proof {
            reveal(state_obscured);
        }
        let (moon, earth) = self.lookup_pair(sim);
        let tn = sim.time().wrapping_sub(self.epoch_ns);
        let dir = self.looking_dir(tn);
        let d = self.target_dir(&moon, &earth, tn);
        let dp = dot_dir(&d, &dir);
        if dp <= 0 {
            return false;
        }
        let nd = d.norm();
        let ndir = dir.norm();
        proof {
            lemma_obscured_products_fit(dp as int, nd as int, ndir as int, dir@);
        }
        (dp as u128) * (DIR_SCALE as u128) > (COS_OBSC as u128) * (nd * ndir)
    }

    /// The three-valued classification: visible in frame, in frame but
    /// obscured, or out of frame.
    #[verifier::rlimit(100)]
    pub fn classify(&self, sim: &SimState) -> (r: Visibility)
        requires
            observer_wf(self@),
            has_named(sim@.bodies, moon_name()),
            has_named(sim@.bodies, earth_name()),
        ensures
            r == state_classify(self@, sim@.bodies, sim@.time),
    {
        let wf = self.within_frame(sim);
        let ob = self.obscured(sim);
        if wf {
            if ob {
                Visibility::InFrameObscured
            } else {
                Visibility::VisibleInFrame
            }
        } else {
            Visibility::OutOfFrame
        }
    }

    /// Positions of the first `Moon` and `Earth` bodies.
    fn lookup_pair(&self, sim: &SimState) -> (r: (Vec3, Vec3))
        requires
            has_named(sim@.bodies, moon_name()),
            has_named(sim@.bodies, earth_name()),
        ensures
            r.0@ == sim@.bodies[first_named_index(sim@.bodies, moon_name())].pos,
            r.1@ == sim@.bodies[first_named_index(sim@.bodies, earth_name())].pos,
    {
        proof {
            lemma_has_first(sim@.bodies, moon_name());
            lemma_has_first(sim@.bodies, earth_name());
            lemma_first_named_unique(sim@.bodies, moon_name());
            lemma_first_named_unique(sim@.bodies, earth_name());
        }
        let moon_bytes: Vec<u8> = vec![0x4d, 0x6f, 0x6f, 0x6e];
        let earth_bytes: Vec<u8> = vec![0x45, 0x61, 0x72, 0x74, 0x68];
        proof {
            assert(moon_bytes@ =~= moon_name());
            assert(earth_bytes@ =~= earth_name());
        }
        let mp: Vec3;
        match sim.body_index_by_name(moon_bytes.as_slice()) {
            Some(i) => {
                mp = sim.get_body(i).pos;
            },
            None => {
                proof {
                    assert(false);
                }
                mp = Vec3 { x: 0, y: 0, z: 0 };
            },
        }
        let ep: Vec3;
        match sim.body_index_by_name(earth_bytes.as_slice()) {
            Some(i) => {
                ep = sim.get_body(i).pos;
            },
            None => {
                proof {
                    assert(false);
                }
                ep = Vec3 { x: 0, y: 0, z: 0 };
            },
        }
        (mp, ep)
    }
}

/// At most one index is the first carrying a name.
pub proof fn lemma_first_named_unique(bodies: Seq<BodyView>, name: Seq<u8>)
    ensures
        forall|i: int, j: int|
            is_first_named(bodies, name, i) && is_first_named(bodies, name, j) ==> i == j,
{
    assert forall|i: int, j: int|
        is_first_named(bodies, name, i) && is_first_named(bodies, name, j) implies i == j by {
        if i < j {
            assert(bodies[i].name != name);
        }
        if j < i {
            assert(bodies[j].name != name);
        }
    }
}

/// The cross-multiplied frame comparisons stay inside `i128`.
proof fn lemma_frame_products_fit(x: int, y: int, z: int)
    requires
        abs_int(x) <= 0x8000_0000_0000_0000 * (24 * DIR_SCALE as int),
        abs_int(y) <= 0x8000_0000_0000_0000 * (24 * DIR_SCALE as int),
        abs_int(z) <= 0x8000_0000_0000_0000 * (24 * DIR_SCALE as int),
    ensures
        abs_int(x) * (DIR_SCALE as int) <= 0x7fff_ffff_ffff_ffff_ffff_ffff_ffff_ffff,
        abs_int(y) * (DIR_SCALE as int) <= 0x7fff_ffff_ffff_ffff_ffff_ffff_ffff_ffff,
        abs_int((TAN_FOV2 as int) * z) <= 0x7fff_ffff_ffff_ffff_ffff_ffff_ffff_ffff,
{
    lemma_mul_bound_128(
        abs_int(x),
        DIR_SCALE as int,
        0x8000_0000_0000_0000 * (24 * DIR_SCALE as int),
        DIR_SCALE as int,
    );
    lemma_mul_bound_128(
        abs_int(y),
        DIR_SCALE as int,
        0x8000_0000_0000_0000 * (24 * DIR_SCALE as int),
        DIR_SCALE as int,
    );
    lemma_mul_bound_128(
        TAN_FOV2 as int,
        z,
        TAN_FOV2 as int,
        0x8000_0000_0000_0000 * (24 * DIR_SCALE as int),
    );
    crate::vec3::lemma_abs_mul(TAN_FOV2 as int, z);
    assert((0x8000_0000_0000_0000 * (24 * DIR_SCALE as int)) * (DIR_SCALE as int)
        <= 0x7fff_ffff_ffff_ffff_ffff_ffff_ffff_ffff && (TAN_FOV2 as int) * (0x8000_0000_0000_0000
        * (24 * DIR_SCALE as int)) <= 0x7fff_ffff_ffff_ffff_ffff_ffff_ffff_ffff)
        by (nonlinear_arith);
}

/// The obscuration comparison stays inside `u128`.
proof fn lemma_obscured_products_fit(dp: int, nd: int, ndir: int, dir: V3i)
    requires
        0 < dp <= 0x8000_0000_0000_0000 * (24 * DIR_SCALE as int),
        0 <= nd < 0x1_0000_0000_0000_0000,
        0 <= ndir,
        ndir * ndir <= dir.norm2(),
        dir.bounded(2 * DIR_SCALE),
    ensures
        dp * (DIR_SCALE as int) <= 0xffff_ffff_ffff_ffff_ffff_ffff_ffff_ffff,
        nd * ndir <= 0xffff_ffff_ffff_ffff_ffff_ffff_ffff_ffff,
        (COS_OBSC as int) * (nd * ndir) <= 0xffff_ffff_ffff_ffff_ffff_ffff_ffff_ffff,
{
    lemma_mul_bound_128(
        dp,
        DIR_SCALE as int,
        0x8000_0000_0000_0000 * (24 * DIR_SCALE as int),
        DIR_SCALE as int,
    );
    assert((0x8000_0000_0000_0000 * (24 * DIR_SCALE as int)) * (DIR_SCALE as int)
        <= 0xffff_ffff_ffff_ffff_ffff_ffff_ffff_ffff) by (nonlinear_arith);
    // ndir is at most 4 * 10^6 because its square is at most 3 * (2 * 10^6)^2
    assert(dir.norm2() <= 12_000_000_000_000) by (nonlinear_arith)
        requires
            dir.bounded(2 * DIR_SCALE),
            DIR_SCALE == 1_000_000i64,
    ;
    assert(ndir <= 4_000_000) by {
        if ndir > 4_000_000 {
            assert(ndir * ndir > 12_000_000_000_000) by (nonlinear_arith)
                requires
                    ndir > 4_000_000,
            ;
        }
    }
    lemma_mul_bound_128(nd, ndir, 0x1_0000_0000_0000_0000, 4_000_000);
    assert(0x1_0000_0000_0000_0000 * 4_000_000int <= 0xffff_ffff_ffff_ffff_ffff_ffff
        && (COS_OBSC as int) * (0x1_0000_0000_0000_0000 * 4_000_000int)
        <= 0xffff_ffff_ffff_ffff_ffff_ffff_ffff_ffff) by (nonlinear_arith);
    lemma_mul_bound_128(COS_OBSC as int, nd * ndir, COS_OBSC as int, 0x1_0000_0000_0000_0000int
        * 4_000_000);
}

/// A target placed exactly on the field-of-view half-angle boundary is
/// excluded from the frame: the test is strict.
pub proof fn lemma_frame_boundary_excluded(x: int, y: int, z: int)
    requires
        abs_int(x) * (DIR_SCALE as int) == (TAN_FOV2 as int) * z || abs_int(y) * (DIR_SCALE as int)
            == (TAN_FOV2 as int) * z,
    ensures
        !frame_cond(x, y, z),
{
}

} // verus!
