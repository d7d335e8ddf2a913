//! Time-reversible symplectic integration.
//!
//! A stepper is a fixed sequence of position and momentum sub-shifts
//! (`(true, c)` shifts positions by `c / COEFF_DEN` of the step, `(false, c)`
//! shifts velocities).  The primary stepper is a fourth-order Suzuki
//! composition of five leapfrogs; its coefficient sequence is a palindrome,
//! and because every sub-shift commutes exactly with negation of the step in
//! fixed-point arithmetic, one step of `-h` exactly undoes one step of `h`:
//! `lemma_step_reversible` below is the proof.

use vstd::prelude::*;
use crate::body::BodyView;
use crate::num64::{
    abs_int, lemma_scaled_inc_antisym, lemma_wrapping_add_inverse, scaled_inc, wadd64, INC_CLAMP,
};
use crate::sim::{
    accel_flat, apply_mom_shift, apply_pos_shift, axis_comp, bodies_wf, kin_in_range, pos_shifted,
    vel_flat, vel_shifted, SimState, COEFF_DEN, KMOM, KPOS,
};

verus! {

/// Step selector: an explicit signed step in nanoseconds, or the stepper's
/// configured default.
#[derive(Clone, Copy, PartialEq, Eq, Structural)]
pub enum StepSize {
    UseDefault,
    Step(i64),
}

/// The signed step a selector denotes, given the configured default.
pub open spec fn step_val(step: StepSize, dflt: int) -> int {
    match step {
        StepSize::UseDefault => dflt,
        StepSize::Step(h) => h as int,
    }
}

/// Half coefficient of the outer leapfrogs of the Suzuki composition:
/// `1 / (2 * (4 - 4^(1/3)))`, scaled by `COEFF_DEN`.
pub const SUZUKI_H1: i64 = 414_491;

/// Full coefficient of the outer leapfrogs: twice `SUZUKI_H1`.
pub const SUZUKI_W1: i64 = 828_982;

/// Half coefficient of the middle leapfrog, chosen so the ten position
/// shifts sum exactly to `COEFF_DEN`.
pub const SUZUKI_H0: i64 = -657_964;

/// Full coefficient of the middle leapfrog: twice `SUZUKI_H0`.
pub const SUZUKI_W0: i64 = -1_315_928;

/// One sub-shift applied to the body list: a position shift uses the
/// state's own velocities as derivative, a momentum shift its own
/// accelerations.
pub open spec fn apply_op(bodies: Seq<BodyView>, op: (bool, int), a: int) -> Seq<BodyView> {
    if op.0 {
        apply_pos_shift(bodies, vel_flat(bodies), op.1, a)
    } else {
        apply_mom_shift(bodies, accel_flat(bodies), op.1, a)
    }
}

/// A sequence of sub-shifts, applied left to right.
pub open spec fn apply_ops(bodies: Seq<BodyView>, ops: Seq<(bool, int)>, a: int) -> Seq<BodyView>
    decreases ops.len(),
{
    if ops.len() == 0 {
        bodies
    } else {
        apply_ops(apply_op(bodies, ops[0], a), ops.subrange(1, ops.len() as int), a)
    }
}

/// The three sub-shifts of one leapfrog: half a position shift, a full
/// momentum shift, half a position shift.
pub open spec fn lf_ops(ch: int, cw: int) -> Seq<(bool, int)> {
    seq![(true, ch), (false, cw), (true, ch)]
}

/// The Suzuki fourth-order composition: five leapfrogs with coefficients
/// `w1, w1, w0, w1, w1` where `w0 = 1 - 4 * w1`.  A palindrome.
pub open spec fn suzuki_ops() -> Seq<(bool, int)> {
    lf_ops(SUZUKI_H1 as int, SUZUKI_W1 as int) + lf_ops(SUZUKI_H1 as int, SUZUKI_W1 as int)
        + lf_ops(SUZUKI_H0 as int, SUZUKI_W0 as int) + lf_ops(SUZUKI_H1 as int, SUZUKI_W1 as int)
        + lf_ops(SUZUKI_H1 as int, SUZUKI_W1 as int)
}

/// The single leapfrog used by the plain comparison stepper.
pub open spec fn leapfrog_ops() -> Seq<(bool, int)> {
    lf_ops((COEFF_DEN / 2) as int, COEFF_DEN as int)
}

/// For an index `k` of a flat derivative over `n` bodies, the body index
/// `k / 3` is in range.
proof fn lemma_idx3(k: int, n: int)
    requires
        0 <= k < 3 * n,
    ensures
        0 <= k / 3 < n,
        0 <= k % 3 < 3,
{
    vstd::arithmetic::div_mod::lemma_div_pos_is_pos(k, 3);
    if k / 3 >= n {
        vstd::arithmetic::div_mod::lemma_fundamental_div_mod(k, 3);
        assert(3 * (k / 3) >= 3 * n) by (nonlinear_arith)
            requires
                k / 3 >= n,
        ;
    }
}

/// Position shifts leave velocities, names and constants alone; momentum
/// shifts leave positions, names and constants alone; both keep length,
/// well-formedness and range.
pub proof fn lemma_shift_frame(bodies: Seq<BodyView>, dir: Seq<int>, c: int, a: int)
    requires
        dir.len() == 3 * bodies.len(),
    ensures
        apply_pos_shift(bodies, dir, c, a).len() == bodies.len(),
        apply_mom_shift(bodies, dir, c, a).len() == bodies.len(),
        forall|i: int|
            0 <= i < bodies.len() ==> {
                let b = #[trigger] apply_pos_shift(bodies, dir, c, a)[i];
                b.vel == bodies[i].vel && b.name == bodies[i].name && b.gm == bodies[i].gm
                    && b.radius == bodies[i].radius && i64::MIN <= b.pos.x <= i64::MAX && i64::MIN
                    <= b.pos.y <= i64::MAX && i64::MIN <= b.pos.z <= i64::MAX
            },
        forall|i: int|
            0 <= i < bodies.len() ==> {
                let b = #[trigger] apply_mom_shift(bodies, dir, c, a)[i];
                b.pos == bodies[i].pos && b.name == bodies[i].name && b.gm == bodies[i].gm
                    && b.radius == bodies[i].radius && i64::MIN <= b.vel.x <= i64::MAX && i64::MIN
                    <= b.vel.y <= i64::MAX && i64::MIN <= b.vel.z <= i64::MAX
            },
        bodies_wf(bodies) ==> bodies_wf(apply_pos_shift(bodies, dir, c, a)) && bodies_wf(
            apply_mom_shift(bodies, dir, c, a),
        ),
        kin_in_range(bodies) ==> kin_in_range(apply_pos_shift(bodies, dir, c, a)) && kin_in_range(
            apply_mom_shift(bodies, dir, c, a),
        ),
{
}

/// An `apply_op` keeps length, well-formedness and range.
pub proof fn lemma_op_frame(bodies: Seq<BodyView>, op: (bool, int), a: int)
    ensures
        apply_op(bodies, op, a).len() == bodies.len(),
        bodies_wf(bodies) ==> bodies_wf(apply_op(bodies, op, a)),
        kin_in_range(bodies) ==> kin_in_range(apply_op(bodies, op, a)),
{
    if op.0 {
        lemma_shift_frame(bodies, vel_flat(bodies), op.1, a);
    } else {
        lemma_shift_frame(bodies, accel_flat(bodies), op.1, a);
    }
}

/// An `apply_ops` keeps length, well-formedness and range.
pub proof fn lemma_ops_frame(bodies: Seq<BodyView>, ops: Seq<(bool, int)>, a: int)
    ensures
        apply_ops(bodies, ops, a).len() == bodies.len(),
        bodies_wf(bodies) ==> bodies_wf(apply_ops(bodies, ops, a)),
        kin_in_range(bodies) ==> kin_in_range(apply_ops(bodies, ops, a)),
    decreases ops.len(),
{
    if ops.len() > 0 {
        lemma_op_frame(bodies, ops[0], a);
        lemma_ops_frame(apply_op(bodies, ops[0], a), ops.subrange(1, ops.len() as int), a);
    }
}

/// Sub-shifts never touch a body's name: lookups by name survive any
/// number of steps.
pub proof fn lemma_ops_names(bodies: Seq<BodyView>, ops: Seq<(bool, int)>, a: int)
    ensures
        apply_ops(bodies, ops, a).len() == bodies.len(),
        forall|i: int|
            0 <= i < bodies.len() ==> (#[trigger] apply_ops(bodies, ops, a)[i]).name
                == bodies[i].name,
    decreases ops.len(),
{
    if ops.len() > 0 {
        let b1 = apply_op(bodies, ops[0], a);
        if ops[0].0 {
            lemma_shift_frame(bodies, vel_flat(bodies), ops[0].1, a);
        } else {
            lemma_shift_frame(bodies, accel_flat(bodies), ops[0].1, a);
        }
        lemma_ops_names(b1, ops.subrange(1, ops.len() as int), a);
    }
}

/// Splitting a sub-shift sequence splits its application.
pub proof fn lemma_apply_ops_concat(
    bodies: Seq<BodyView>,
    o1: Seq<(bool, int)>,
    o2: Seq<(bool, int)>,
    a: int,
)
    ensures
        apply_ops(bodies, o1 + o2, a) == apply_ops(apply_ops(bodies, o1, a), o2, a),
    decreases o1.len(),
{
    if o1.len() == 0 {
        assert(o1 + o2 =~= o2);
    } else {
        assert((o1 + o2)[0] == o1[0]);
        assert((o1 + o2).subrange(1, (o1 + o2).len() as int) =~= o1.subrange(1, o1.len() as int)
            + o2);
        lemma_apply_ops_concat(apply_op(bodies, o1[0], a), o1.subrange(1, o1.len() as int), o2, a);
    }
}

/// Applying a three-element sequence, unfolded.
pub proof fn lemma_apply_ops3(
    bodies: Seq<BodyView>,
    o1: (bool, int),
    o2: (bool, int),
    o3: (bool, int),
    a: int,
)
    ensures
        apply_ops(bodies, seq![o1, o2, o3], a) == apply_op(
            apply_op(apply_op(bodies, o1, a), o2, a),
            o3,
            a,
        ),
{
    let s = seq![o1, o2, o3];
    let b1 = apply_op(bodies, o1, a);
    let b2 = apply_op(b1, o2, a);
    let b3 = apply_op(b2, o3, a);
    assert(s.subrange(1, 3) =~= seq![o2, o3]);
    assert(seq![o2, o3].subrange(1, 2) =~= seq![o3]);
    assert(seq![o3].subrange(1, 1) =~= Seq::<(bool, int)>::empty());
    assert(apply_ops(bodies, s, a) == apply_ops(b1, seq![o2, o3], a));
    assert(apply_ops(b1, seq![o2, o3], a) == apply_ops(b2, seq![o3], a));
    assert(apply_ops(b2, seq![o3], a) == apply_ops(b3, Seq::<(bool, int)>::empty(), a));
    assert(apply_ops(b3, Seq::<(bool, int)>::empty(), a) == b3);
}

/// The flat velocity sequences of two body lists with equal velocities are
/// equal.
proof fn lemma_vel_flat_congruent(b1: Seq<BodyView>, b2: Seq<BodyView>)
    requires
        b1.len() == b2.len(),
        forall|i: int| 0 <= i < b1.len() ==> (#[trigger] b1[i]).vel == b2[i].vel,
    ensures
        vel_flat(b1) == vel_flat(b2),
{
    assert forall|k: int| 0 <= k < 3 * b1.len() implies #[trigger] vel_flat(b1)[k] == vel_flat(
        b2,
    )[k] by {
        lemma_idx3(k, b1.len() as int);
    }
    assert(vel_flat(b1) =~= vel_flat(b2));
}

/// The gravitational accelerations of two body lists with equal positions
/// and gravitational parameters are equal.
proof fn lemma_accel_flat_congruent(b1: Seq<BodyView>, b2: Seq<BodyView>)
    requires
        b1.len() == b2.len(),
        forall|i: int|
            0 <= i < b1.len() ==> (#[trigger] b1[i]).pos == b2[i].pos && b1[i].gm == b2[i].gm,
    ensures
        accel_flat(b1) == accel_flat(b2),
{
    assert forall|i: int, ax: int, j: nat|
        0 <= i < b1.len() && 0 <= ax < 3 && j <= b1.len() implies #[trigger] crate::sim::accel_sum(
        b1,
        i,
        ax,
        j,
    ) == crate::sim::accel_sum(b2, i, ax, j) by {
        lemma_accel_sum_congruent(b1, b2, i, ax, j);
    }
    assert forall|k: int| 0 <= k < 3 * b1.len() implies #[trigger] accel_flat(b1)[k] == accel_flat(
        b2,
    )[k] by {
        lemma_idx3(k, b1.len() as int);
    }
    assert(accel_flat(b1) =~= accel_flat(b2));
}

proof fn lemma_accel_sum_congruent(b1: Seq<BodyView>, b2: Seq<BodyView>, i: int, ax: int, j: nat)
    requires
        b1.len() == b2.len(),
        0 <= i < b1.len(),
        j <= b1.len(),
        forall|k: int|
            0 <= k < b1.len() ==> (#[trigger] b1[k]).pos == b2[k].pos && b1[k].gm == b2[k].gm,
    ensures
        crate::sim::accel_sum(b1, i, ax, j) == crate::sim::accel_sum(b2, i, ax, j),
    decreases j,
{
    if j > 0 {
        lemma_accel_sum_congruent(b1, b2, i, ax, (j - 1) as nat);
        if j - 1 != i {
            assert(crate::sim::grav_contrib(b1[i], b1[j - 1], ax) == crate::sim::grav_contrib(
                b2[i],
                b2[j - 1],
                ax,
            ));
        }
    }
}

/// Shifting a 64-bit scalar by an increment and then by the increment of
/// the negated step restores it: the scalar core of reversibility.
proof fn lemma_shift_scalar_inverse(p: int, d: int, c: int, a: int, k: int)
    requires
        k > 0,
        i64::MIN <= p <= i64::MAX,
    ensures
        wadd64(wadd64(p, scaled_inc(d, c, a, k)), scaled_inc(d, c, -a, k)) == p,
{
    lemma_scaled_inc_antisym(d, c, a, k);
    let inc = scaled_inc(d, c, a, k);
    assert(-INC_CLAMP <= inc <= INC_CLAMP);
    lemma_wrapping_add_inverse(p as i64, inc as i64);
}

/// One sub-shift taken with `-a` exactly undoes the same sub-shift taken
/// with `a`.
#[verifier::rlimit(100)]
pub proof fn lemma_op_inverse(bodies: Seq<BodyView>, op: (bool, int), a: int)
    requires
        kin_in_range(bodies),
    ensures
        apply_op(apply_op(bodies, op, a), op, -a) == bodies,
{
    let c = op.1;
    let b1 = apply_op(bodies, op, a);
    if op.0 {
        lemma_shift_frame(bodies, vel_flat(bodies), c, a);
        lemma_vel_flat_congruent(b1, bodies);
        let b2 = apply_pos_shift(b1, vel_flat(bodies), c, -a);
        assert forall|i: int| 0 <= i < bodies.len() implies b2[i] == bodies[i] by {
            lemma_shift_scalar_inverse(bodies[i].pos.x, vel_flat(bodies)[3 * i], c, a, KPOS as int);
            lemma_shift_scalar_inverse(
                bodies[i].pos.y,
                vel_flat(bodies)[3 * i + 1],
                c,
                a,
                KPOS as int,
            );
            lemma_shift_scalar_inverse(
                bodies[i].pos.z,
                vel_flat(bodies)[3 * i + 2],
                c,
                a,
                KPOS as int,
            );
            assert(b2[i] =~= bodies[i]);
        }
        assert(b2 =~= bodies);
    } else {
        lemma_shift_frame(bodies, accel_flat(bodies), c, a);
        lemma_accel_flat_congruent(b1, bodies);
        let b2 = apply_mom_shift(b1, accel_flat(bodies), c, -a);
        assert forall|i: int| 0 <= i < bodies.len() implies b2[i] == bodies[i] by {
            lemma_shift_scalar_inverse(
                bodies[i].vel.x,
                accel_flat(bodies)[3 * i],
                c,
                a,
                KMOM as int,
            );
            lemma_shift_scalar_inverse(
                bodies[i].vel.y,
                accel_flat(bodies)[3 * i + 1],
                c,
                a,
                KMOM as int,
            );
            lemma_shift_scalar_inverse(
                bodies[i].vel.z,
                accel_flat(bodies)[3 * i + 2],
                c,
                a,
                KMOM as int,
            );
            assert(b2[i] =~= bodies[i]);
        }
        assert(b2 =~= bodies);
    }
}

/// Applying a sub-shift sequence with `a` and then its reverse with `-a`
/// restores the body list exactly.
pub proof fn lemma_ops_reverse(bodies: Seq<BodyView>, ops: Seq<(bool, int)>, a: int)
    requires
        kin_in_range(bodies),
    ensures
        apply_ops(apply_ops(bodies, ops, a), ops.reverse(), -a) == bodies,
    decreases ops.len(),
{
    if ops.len() == 0 {
        assert(ops.reverse() =~= ops);
    } else {
        let o = ops[0];
        let rest = ops.subrange(1, ops.len() as int);
        let b1 = apply_op(bodies, o, a);
        lemma_op_frame(bodies, o, a);
        lemma_ops_reverse(b1, rest, a);
        // reverse(ops) == reverse(rest) + [o]
        assert(ops.reverse() =~= rest.reverse() + seq![o]);
        lemma_apply_ops_concat(apply_ops(b1, rest, a), rest.reverse(), seq![o], -a);
        assert(seq![o].subrange(1, 1) =~= Seq::<(bool, int)>::empty());
        assert(apply_ops(b1, seq![o], -a) == apply_ops(
            apply_op(b1, o, -a),
            Seq::<(bool, int)>::empty(),
            -a,
        ));
        lemma_op_inverse(bodies, o, a);
    }
}

/// The Suzuki coefficient sequence is a palindrome.
pub proof fn lemma_suzuki_palindrome()
    ensures
        suzuki_ops().reverse() == suzuki_ops(),
{
    let s = suzuki_ops();
    assert(s.len() == 15);
    assert(s.reverse() =~= s);
}

/// The single-leapfrog sequence is a palindrome too.
pub proof fn lemma_leapfrog_palindrome()
    ensures
        leapfrog_ops().reverse() == leapfrog_ops(),
{
    let s = leapfrog_ops();
    assert(s.len() == 3);
    assert(s.reverse() =~= s);
}

/// Reversibility of the plain leapfrog stepper, for the same reason.
pub proof fn lemma_leapfrog_reversible(bodies: Seq<BodyView>, h: int)
    requires
        kin_in_range(bodies),
    ensures
        apply_ops(apply_ops(bodies, leapfrog_ops(), h), leapfrog_ops(), -h) == bodies,
{
    lemma_leapfrog_palindrome();
    lemma_ops_reverse(bodies, leapfrog_ops(), h);
}

/// Reversibility of the Suzuki stepper: one step of `h` followed by one
/// step of `-h` restores every position and velocity exactly.
pub proof fn lemma_step_reversible(bodies: Seq<BodyView>, h: int)
    requires
        kin_in_range(bodies),
    ensures
        apply_ops(apply_ops(bodies, suzuki_ops(), h), suzuki_ops(), -h) == bodies,
{
    lemma_suzuki_palindrome();
    lemma_ops_reverse(bodies, suzuki_ops(), h);
}

/// A stepper: advances or reverses a `SimState` by one application of its
/// sub-shift sequence.  `op_seq` is the stepper's scheme; the contract of
/// `propagate_in_place` pins the new state to an exact function of the old
/// one.
pub trait Integrator: Sized {
    /// The stepper's sub-shift sequence.
    spec fn op_seq(&self) -> Seq<(bool, int)>;

    /// The configured default step, nanoseconds.
    spec fn default_step_spec(&self) -> int;

    /// The configured default step, nanoseconds.
    fn default_step(&self) -> (r: i64)
        ensures
            r as int == self.default_step_spec(),
            r >= 1,
    ;

    /// Apply exactly one step of the scheme; `step` may be negative to
    /// integrate backward.  The clock advances by exactly the step.
    fn propagate_in_place(&self, sim: &mut SimState, step: StepSize)
        requires
            old(sim)@.wf(),
        ensures
            final(sim)@.bodies == apply_ops(
                old(sim)@.bodies,
                self.op_seq(),
                step_val(step, self.default_step_spec()),
            ),
            final(sim)@.time == wadd64(
                old(sim)@.time,
                step_val(step, self.default_step_spec()),
            ),
            final(sim)@.wf(),
    ;
}

/// One leapfrog: half position shift, full momentum shift, half position
/// shift, with coefficients over `COEFF_DEN`.
fn leapfrog_step(sim: &mut SimState, ch: i64, cw: i64, h: i64)
    requires
        old(sim)@.wf(),
        -COEFF_DEN <= 2 * ch <= COEFF_DEN,
        -COEFF_DEN <= cw <= COEFF_DEN,
    ensures
        final(sim)@.bodies == apply_ops(old(sim)@.bodies, lf_ops(ch as int, cw as int), h as int),
        final(sim)@.wf(),
        final(sim)@.bodies.len() == old(sim)@.bodies.len(),
{
    let ghost b0 = sim@.bodies;
    let d1 = sim.position_derivative();
    sim.shift_position_in_place(&d1, ch, h);
    proof {
        assert(sim@.bodies == apply_op(b0, (true, ch as int), h as int));
        lemma_op_frame(b0, (true, ch as int), h as int);
    }
    let ghost b1 = sim@.bodies;
    let d2 = sim.momentum_derivative();
    sim.shift_momentum_in_place(&d2, cw, h);
    proof {
        assert(sim@.bodies == apply_op(b1, (false, cw as int), h as int));
        lemma_op_frame(b1, (false, cw as int), h as int);
    }
    let ghost b2 = sim@.bodies;
    let d3 = sim.position_derivative();
    sim.shift_position_in_place(&d3, ch, h);
    proof {
        assert(sim@.bodies == apply_op(b2, (true, ch as int), h as int));
        lemma_op_frame(b2, (true, ch as int), h as int);
        lemma_apply_ops3(
            b0,
            (true, ch as int),
            (false, cw as int),
            (true, ch as int),
            h as int,
        );
    }
}

/// The fourth-order, time-reversible Suzuki composition stepper: the
/// primary integrator.
pub struct SuzukiIntegrator {
    step_ns: i64,
}

impl SuzukiIntegrator {
    /// A Suzuki stepper with the given default step (nanoseconds).
    pub fn new(step_ns: i64) -> (r: SuzukiIntegrator)
        requires
            step_ns >= 1,
        ensures
            r.default_step_spec() == step_ns as int,
    {
        SuzukiIntegrator { step_ns }
    }
}

impl Integrator for SuzukiIntegrator {
    open spec fn op_seq(&self) -> Seq<(bool, int)> {
        suzuki_ops()
    }

    closed spec fn default_step_spec(&self) -> int {
        if self.step_ns < 1 {
            1
        } else {
            self.step_ns as int
        }
    }

    fn default_step(&self) -> (r: i64) {
        if self.step_ns < 1 {
            1
        } else {
            self.step_ns
        }
    }

    fn propagate_in_place(&self, sim: &mut SimState, step: StepSize) {
        let h = match step {
            StepSize::Step(h) => h,
            StepSize::UseDefault => self.default_step(),
        };
        let t0 = sim.time();
        let ghost b0 = sim@.bodies;
        leapfrog_step(sim, SUZUKI_H1, SUZUKI_W1, h);
        let ghost s1 = lf_ops(SUZUKI_H1 as int, SUZUKI_W1 as int);
        let ghost s0 = lf_ops(SUZUKI_H0 as int, SUZUKI_W0 as int);
        leapfrog_step(sim, SUZUKI_H1, SUZUKI_W1, h);
        proof {
            lemma_apply_ops_concat(b0, s1, s1, h as int);
        }
        leapfrog_step(sim, SUZUKI_H0, SUZUKI_W0, h);
        proof {
            lemma_apply_ops_concat(b0, s1 + s1, s0, h as int);
        }
        leapfrog_step(sim, SUZUKI_H1, SUZUKI_W1, h);
        proof {
            lemma_apply_ops_concat(b0, s1 + s1 + s0, s1, h as int);
        }
        leapfrog_step(sim, SUZUKI_H1, SUZUKI_W1, h);
        proof {
            lemma_apply_ops_concat(b0, s1 + s1 + s0 + s1, s1, h as int);
            assert(s1 + s1 + s0 + s1 + s1 == suzuki_ops());
        }
        sim.set_time(t0.wrapping_add(h));
    }
}

/// A single plain leapfrog per step: the simpler comparison stepper.
pub struct LeapfrogIntegrator {
    step_ns: i64,
}

impl LeapfrogIntegrator {
    /// A leapfrog stepper with the given default step (nanoseconds).
    pub fn new(step_ns: i64) -> (r: LeapfrogIntegrator)
        requires
            step_ns >= 1,
        ensures
            r.default_step_spec() == step_ns as int,
    {
        LeapfrogIntegrator { step_ns }
    }
}

impl Integrator for LeapfrogIntegrator {
    open spec fn op_seq(&self) -> Seq<(bool, int)> {
        leapfrog_ops()
    }

    closed spec fn default_step_spec(&self) -> int {
        if self.step_ns < 1 {
            1
        } else {
            self.step_ns as int
        }
    }

    fn default_step(&self) -> (r: i64) {
        if self.step_ns < 1 {
            1
        } else {
            self.step_ns
        }
    }

    fn propagate_in_place(&self, sim: &mut SimState, step: StepSize) {
        let h = match step {
            StepSize::Step(h) => h,
            StepSize::UseDefault => self.default_step(),
        };
        let t0 = sim.time();
        leapfrog_step(sim, COEFF_DEN / 2, COEFF_DEN, h);
        sim.set_time(t0.wrapping_add(h));
    }
}

/// What repeatedly stepping toward `target` with steps of at most `step`
/// does to the body list: the specification of `propagate_to`.
pub open spec fn propagate_to_bodies(
    bodies: Seq<BodyView>,
    t: int,
    target: int,
    step: int,
    ops: Seq<(bool, int)>,
) -> Seq<BodyView>
    decreases abs_int(target - t) when step >= 1
{
    if t == target || step < 1 {
        bodies
    } else if target > t {
        let h = if target - t < step {
            target - t
        } else {
            step
        };
        propagate_to_bodies(apply_ops(bodies, ops, h), t + h, target, step, ops)
    } else {
        let h = if t - target < step {
            t - target
        } else {
            step
        };
        propagate_to_bodies(apply_ops(bodies, ops, -h), t - h, target, step, ops)
    }
}

impl SimState {
    /// Step once forward by the stepper's default step.
    pub fn step_forwards<I: Integrator>(&mut self, integrator: &I)
        requires
            old(self)@.wf(),
        ensures
            final(self)@.bodies == apply_ops(
                old(self)@.bodies,
                integrator.op_seq(),
                integrator.default_step_spec(),
            ),
            final(self)@.time == wadd64(old(self)@.time, integrator.default_step_spec()),
            final(self)@.wf(),
    {
        integrator.propagate_in_place(self, StepSize::UseDefault);
    }

    /// Integrate (forward or backward) until the clock reads exactly
    /// `target_ns`, in steps of at most the stepper's default.
    pub fn propagate_to<I: Integrator>(&mut self, integrator: &I, target_ns: i64)
        requires
            old(self)@.wf(),
        ensures
            final(self)@.time == target_ns as int,
            final(self)@.bodies == propagate_to_bodies(
                old(self)@.bodies,
                old(self)@.time,
                target_ns as int,
                integrator.default_step_spec(),
                integrator.op_seq(),
            ),
            final(self)@.wf(),
    {
        let step = integrator.default_step();
        let ghost b0 = self@.bodies;
        let ghost t0 = self@.time;
        let ghost tgt = target_ns as int;
        let ghost stp = integrator.default_step_spec();
        let ghost ops = integrator.op_seq();
        proof {
            crate::sim::lemma_sim_time_in_range(self);
        }
        loop
            invariant
                self@.wf(),
                tgt == target_ns as int,
                stp == integrator.default_step_spec(),
                ops == integrator.op_seq(),
                step as int == stp,
                step >= 1,
                propagate_to_bodies(b0, t0, tgt, stp, ops) == propagate_to_bodies(
                    self@.bodies,
                    self@.time,
                    tgt,
                    stp,
                    ops,
                ),
                i64::MIN <= self@.time <= i64::MAX,
                i64::MIN <= tgt <= i64::MAX,
            ensures
                self@.time == tgt,
                self@.bodies == propagate_to_bodies(b0, t0, tgt, stp, ops),
            decreases abs_int(tgt - self@.time),
        {
            let t = self.time();
            if t == target_ns {
                proof {
                    assert(propagate_to_bodies(self@.bodies, self@.time, tgt, stp, ops)
                        == self@.bodies);
                }
                break ;
            }
            let ghost bc = self@.bodies;
            let ghost tc = self@.time;
            if target_ns > t {
                let rem: i128 = (target_ns as i128) - (t as i128);
                let h: i64 = if rem < (step as i128) {
                    rem as i64
                } else {
                    step
                };
                integrator.propagate_in_place(self, StepSize::Step(h));
                proof {
                    assert(wadd64(tc, h as int) == tc + h);
                    assert(propagate_to_bodies(bc, tc, tgt, stp, ops) == propagate_to_bodies(
                        apply_ops(bc, ops, h as int),
                        tc + h,
                        tgt,
                        stp,
                        ops,
                    ));
                }
            } else {
                let rem: i128 = (t as i128) - (target_ns as i128);
                let h: i64 = if rem < (step as i128) {
                    rem as i64
                } else {
                    step
                };
                integrator.propagate_in_place(self, StepSize::Step(-h));
                proof {
                    assert(wadd64(tc, -h as int) == tc - h);
                    assert(propagate_to_bodies(bc, tc, tgt, stp, ops) == propagate_to_bodies(
                        apply_ops(bc, ops, -h as int),
                        tc - h,
                        tgt,
                        stp,
                        ops,
                    ));
                }
            }
        }
    }
}

/// `k` whole steps of the stepper's scheme, applied in sequence.
pub open spec fn iter_steps(bodies: Seq<BodyView>, ops: Seq<(bool, int)>, h: int, k: nat) -> Seq<
    BodyView,
>
    decreases k,
{
    if k == 0 {
        bodies
    } else {
        iter_steps(apply_ops(bodies, ops, h), ops, h, (k - 1) as nat)
    }
}

/// Iterated steps keep length, well-formedness and range.
pub proof fn lemma_iter_frame(bodies: Seq<BodyView>, ops: Seq<(bool, int)>, h: int, k: nat)
    ensures
        iter_steps(bodies, ops, h, k).len() == bodies.len(),
        bodies_wf(bodies) ==> bodies_wf(iter_steps(bodies, ops, h, k)),
        kin_in_range(bodies) ==> kin_in_range(iter_steps(bodies, ops, h, k)),
    decreases k,
{
    if k > 0 {
        lemma_ops_frame(bodies, ops, h);
        lemma_iter_frame(apply_ops(bodies, ops, h), ops, h, (k - 1) as nat);
    }
}

/// The last step of an iteration can be peeled off the end.
pub proof fn lemma_iter_snoc(bodies: Seq<BodyView>, ops: Seq<(bool, int)>, h: int, k: nat)
    requires
        k >= 1,
    ensures
        iter_steps(bodies, ops, h, k) == apply_ops(
            iter_steps(bodies, ops, h, (k - 1) as nat),
            ops,
            h,
        ),
    decreases k,
{
    reveal_with_fuel(iter_steps, 3);
    if k > 1 {
        lemma_iter_snoc(apply_ops(bodies, ops, h), ops, h, (k - 1) as nat);
    }
}

/// `k` Suzuki steps of `-h` exactly undo `k` Suzuki steps of `h`.
pub proof fn lemma_iter_suzuki_reverse(bodies: Seq<BodyView>, h: int, k: nat)
    requires
        kin_in_range(bodies),
    ensures
        iter_steps(iter_steps(bodies, suzuki_ops(), h, k), suzuki_ops(), -h, k) == bodies,
    decreases k,
{
    if k > 0 {
        let ops = suzuki_ops();
        let prev = iter_steps(bodies, ops, h, (k - 1) as nat);
        lemma_iter_frame(bodies, ops, h, (k - 1) as nat);
        lemma_iter_snoc(bodies, ops, h, k);
        lemma_step_reversible(prev, h);
        lemma_iter_suzuki_reverse(bodies, h, (k - 1) as nat);
    }
}

/// Integrating forward by `k` whole steps is the iterated scheme.
proof fn lemma_ptb_is_iter_forward(bodies: Seq<BodyView>, t: int, k: nat, step: int)
    requires
        step >= 1,
    ensures
        propagate_to_bodies(bodies, t, t + k * step, step, suzuki_ops()) == iter_steps(
            bodies,
            suzuki_ops(),
            step,
            k,
        ),
    decreases k,
{
    if k == 0 {
        assert(k * step == 0) by (nonlinear_arith)
            requires
                k == 0,
        ;
    } else {
        assert(k * step - step == (k - 1) * step && k * step >= step) by (nonlinear_arith)
            requires
                k >= 1,
                step >= 1,
        ;
        lemma_ptb_is_iter_forward(apply_ops(bodies, suzuki_ops(), step), t + step, (k - 1) as nat, step);
        assert(propagate_to_bodies(bodies, t, t + k * step, step, suzuki_ops())
            == propagate_to_bodies(
            apply_ops(bodies, suzuki_ops(), step),
            t + step,
            t + k * step,
            step,
            suzuki_ops(),
        ));
    }
}

/// Integrating backward by `k` whole steps is the iterated reversed scheme.
proof fn lemma_ptb_is_iter_backward(bodies: Seq<BodyView>, t: int, k: nat, step: int)
    requires
        step >= 1,
    ensures
        propagate_to_bodies(bodies, t, t - k * step, step, suzuki_ops()) == iter_steps(
            bodies,
            suzuki_ops(),
            -step,
            k,
        ),
    decreases k,
{
    if k == 0 {
        assert(k * step == 0) by (nonlinear_arith)
            requires
                k == 0,
        ;
    } else {
        assert(k * step - step == (k - 1) * step && k * step >= step) by (nonlinear_arith)
            requires
                k >= 1,
                step >= 1,
        ;
        lemma_ptb_is_iter_backward(
            apply_ops(bodies, suzuki_ops(), -step),
            t - step,
            (k - 1) as nat,
            step,
        );
        assert(propagate_to_bodies(bodies, t, t - k * step, step, suzuki_ops())
            == propagate_to_bodies(
            apply_ops(bodies, suzuki_ops(), -step),
            t - step,
            t - k * step,
            step,
            suzuki_ops(),
        ));
    }
}

/// Reversibility through `propagate_to` with the Suzuki stepper, for
/// targets a whole number of steps away: integrating from `t0` to `t1`
/// and back to `t0` restores every position and velocity exactly.  With a
/// trailing partial step the reverse pass splits its sub-steps at
/// different instants and restoration is only approximate, so such
/// targets are excluded here.
pub proof fn lemma_propagate_to_round_trip(bodies: Seq<BodyView>, t0: int, t1: int, step: int)
    requires
        kin_in_range(bodies),
        step >= 1,
        t1 >= t0,
        (t1 - t0) % step == 0,
    ensures
        propagate_to_bodies(
            propagate_to_bodies(bodies, t0, t1, step, suzuki_ops()),
            t1,
            t0,
            step,
            suzuki_ops(),
        ) == bodies,
{
    let k = ((t1 - t0) / step) as nat;
    vstd::arithmetic::div_mod::lemma_fundamental_div_mod(t1 - t0, step);
    vstd::arithmetic::div_mod::lemma_div_pos_is_pos(t1 - t0, step);
    assert(t1 == t0 + k * step && t0 == t1 - k * step) by (nonlinear_arith)
        requires
            t1 - t0 == step * ((t1 - t0) / step),
            k == (t1 - t0) / step,
    ;
    lemma_ptb_is_iter_forward(bodies, t0, k, step);
    lemma_ptb_is_iter_backward(iter_steps(bodies, suzuki_ops(), step, k), t1, k, step);
    lemma_iter_suzuki_reverse(bodies, step, k);
}

/// Determinism: a stepper's result is a function of the body list and the
/// step alone, so two runs from equal states stay equal.
pub proof fn lemma_step_deterministic(
    b1: Seq<BodyView>,
    b2: Seq<BodyView>,
    ops: Seq<(bool, int)>,
    h: int,
)
    requires
        b1 == b2,
    ensures
        apply_ops(b1, ops, h) == apply_ops(b2, ops, h),
{
}

} // verus!
