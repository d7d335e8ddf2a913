//! Transition refinement: when the visibility classification changes
//! between two coarse steps, a disposable clone of the state is stepped
//! backward one second at a time until the classification reads its
//! pre-change value again; the transition instant is then known to within
//! one second, and the reported timestamp is the midpoint of the last
//! one-second interval, so it lies strictly inside the coarse bracket.
//!
//! A refined timestamp can afterwards be corrected from the uniform
//! simulation timescale to a civil timescale with the two-regime
//! polynomial `delta_t` model.

use vstd::prelude::*;
use crate::body::BodyView;
use crate::calendar::{civil_from_days, days_before_month, days_before_year, days_in_month, days_in_year, days_from_civil, DAY_NS, SEC_NS, YEAR_MAX};
use crate::integrator::{apply_ops, Integrator, StepSize};
use crate::num64::{div_trunc, div_trunc_i128, wadd64, wsub64};
use crate::observer::{
    earth_name, has_named, moon_name, observer_wf, state_classify, Himawari, ObserverView,
    Visibility,
};
use crate::sim::SimState;

verus! {

/// Refinement failed: the classification flipped more often within one
/// coarse step than the step budget allows, which indicates a step size
/// too large for the event dynamics or a detector defect.  The window
/// searched and the two classifications involved are reported.
#[derive(Clone, Copy, PartialEq, Eq, Structural, Debug)]
pub struct RefineDiverged {
    pub window_start_ns: i64,
    pub window_end_ns: i64,
    /// The classification before the observed change.
    pub value_before: Visibility,
    /// The classification observed after the change.
    pub value_after: Visibility,
}

/// The body list after `k` one-second reverse steps of the stepper's
/// scheme from a given list.
pub open spec fn probe_bodies(bodies: Seq<BodyView>, ops: Seq<(bool, int)>, k: nat) -> Seq<
    BodyView,
>
    decreases k,
{
    if k == 0 {
        bodies
    } else {
        apply_ops(probe_bodies(bodies, ops, (k - 1) as nat), ops, -(SEC_NS as int))
    }
}

/// Whether the classification `k` reverse seconds before `t0` reads
/// `before` again.
#[verifier::opaque]
pub open spec fn probe_matches(
    obs: ObserverView,
    bodies: Seq<BodyView>,
    ops: Seq<(bool, int)>,
    t0: int,
    k: int,
    before: Visibility,
) -> bool
    recommends
        k >= 0,
{
    state_classify(obs, probe_bodies(bodies, ops, k as nat), t0 - k * (SEC_NS as int)) == before
}

/// Narrow a classification change to one second.
///
/// `sim` is the state just after the change was observed (it is cloned,
/// never disturbed), `before` the classification at the previous coarse
/// step, `coarse_step_ns` the coarse step.  Refinement succeeds exactly
/// when some reverse second within the coarse step reads `before` again;
/// the reported instant is the midpoint of the first such second, strictly
/// inside the coarse bracket.  Otherwise the bracket and the two
/// classifications are reported as the fatal divergence context.
#[verifier::rlimit(100)]
pub fn refine_transition<I: Integrator>(
    integrator: &I,
    himawari: &Himawari,
    sim: &SimState,
    before: Visibility,
    coarse_step_ns: i64,
) -> (r: Result<i64, RefineDiverged>)
    requires
        sim@.wf(),
        observer_wf(himawari@),
        has_named(sim@.bodies, moon_name()),
        has_named(sim@.bodies, earth_name()),
        SEC_NS <= coarse_step_ns <= 86_400 * SEC_NS,
        i64::MIN + 2 * coarse_step_ns < sim@.time < i64::MAX - coarse_step_ns,
    ensures
        match r {
            Ok(ts) => sim@.time - coarse_step_ns < ts < sim@.time && exists|k: int|
                {
                    &&& 1 <= k <= coarse_step_ns / SEC_NS
                    &&& #[trigger] probe_matches(
                        himawari@,
                        sim@.bodies,
                        integrator.op_seq(),
                        sim@.time,
                        k,
                        before,
                    )
                    &&& forall|k2: int|
                        1 <= k2 < k ==> !#[trigger] probe_matches(
                            himawari@,
                            sim@.bodies,
                            integrator.op_seq(),
                            sim@.time,
                            k2,
                            before,
                        )
                    &&& ts == sim@.time - k * SEC_NS + SEC_NS / 2
                },
            Err(e) => {
                &&& forall|k: int|
                    1 <= k <= coarse_step_ns / SEC_NS ==> !#[trigger] probe_matches(
                        himawari@,
                        sim@.bodies,
                        integrator.op_seq(),
                        sim@.time,
                        k,
                        before,
                    )
                &&& e.window_end_ns == sim@.time
                &&& e.window_start_ns == sim@.time - coarse_step_ns
                &&& e.value_before == before
                &&& e.value_after == state_classify(himawari@, sim@.bodies, sim@.time)
            },
        },
{
    let t_after = sim.time();
    let after_value = himawari.classify(sim);
    let budget = coarse_step_ns / SEC_NS;
    let mut probe = sim.clone();
    let ghost ops = integrator.op_seq();
    let mut k: i64 = 0;
    let mut found = false;
    proof {
        vstd::arithmetic::div_mod::lemma_div_is_ordered(SEC_NS as int, coarse_step_ns as int, SEC_NS as int);
        vstd::arithmetic::div_mod::lemma_div_is_ordered(
            coarse_step_ns as int,
            86_400 * (SEC_NS as int),
            SEC_NS as int,
        );
        vstd::arithmetic::div_mod::lemma_div_by_self(SEC_NS as int);
        vstd::arithmetic::div_mod::lemma_div_multiples_vanish(86_400, SEC_NS as int);
        assert((SEC_NS as int) * 86_400 == 86_400 * (SEC_NS as int)) by (nonlinear_arith);
    }
    loop
        invariant_except_break
            !found,
            forall|k2: int|
                1 <= k2 <= k ==> !#[trigger] probe_matches(
                    himawari@,
                    sim@.bodies,
                    ops,
                    sim@.time,
                    k2,
                    before,
                ),
        invariant
            probe@.wf(),
            observer_wf(himawari@),
            0 <= k <= budget,
            1 <= budget <= 86_400,
            budget == coarse_step_ns / SEC_NS,
            SEC_NS <= coarse_step_ns <= 86_400 * SEC_NS,
            t_after as int == sim@.time,
            i64::MIN + 2 * coarse_step_ns < sim@.time < i64::MAX - coarse_step_ns,
            ops == integrator.op_seq(),
            probe@.time == sim@.time - k * SEC_NS,
            probe@.bodies == probe_bodies(sim@.bodies, ops, k as nat),
            has_named(probe@.bodies, moon_name()),
            has_named(probe@.bodies, earth_name()),
        ensures
            0 <= k <= budget,
            1 <= budget <= 86_400,
            budget == coarse_step_ns / SEC_NS,
            t_after as int == sim@.time,
            ops == integrator.op_seq(),
            found ==> 1 <= k && probe_matches(himawari@, sim@.bodies, ops, sim@.time, k as int, before)
                && forall|k2: int|
                1 <= k2 < k ==> !#[trigger] probe_matches(
                    himawari@,
                    sim@.bodies,
                    ops,
                    sim@.time,
                    k2,
                    before,
                ),
            !found ==> k == budget && forall|k2: int|
                1 <= k2 <= budget ==> !#[trigger] probe_matches(
                    himawari@,
                    sim@.bodies,
                    ops,
                    sim@.time,
                    k2,
                    before,
                ),
        decreases budget - k,
    {
        if k == budget {
            break ;
        }
        proof {
            assert((k + 1) * SEC_NS == k * SEC_NS + SEC_NS) by (nonlinear_arith);
            assert(0 <= k * SEC_NS <= 86_400 * (SEC_NS as int)) by (nonlinear_arith)
                requires
                    0 <= k <= 86_400,
            ;
            assert(wadd64(probe@.time, -(SEC_NS as int)) == probe@.time - SEC_NS);
        }
        let ghost names_pre = probe@.bodies;
        integrator.propagate_in_place(&mut probe, StepSize::Step(-SEC_NS));
        proof {
            crate::integrator::lemma_ops_names(names_pre, ops, -(SEC_NS as int));
            assert((k + 1) * SEC_NS == k * SEC_NS + SEC_NS) by (nonlinear_arith);
            assert(probe@.bodies == probe_bodies(sim@.bodies, ops, (k + 1) as nat));
            assert(has_named(probe@.bodies, moon_name())) by {
                let i = choose|i: int|
                    0 <= i < names_pre.len() && (#[trigger] names_pre[i]).name == moon_name();
                assert(probe@.bodies[i].name == names_pre[i].name);
            }
            assert(has_named(probe@.bodies, earth_name())) by {
                let i = choose|i: int|
                    0 <= i < names_pre.len() && (#[trigger] names_pre[i]).name == earth_name();
                assert(probe@.bodies[i].name == names_pre[i].name);
            }
        }
        k = k + 1;
        let v = himawari.classify(&probe);
        if v == before {
            proof {
                reveal(probe_matches);
                assert(probe_matches(himawari@, sim@.bodies, ops, sim@.time, k as int, before));
            }
            found = true;
            break ;
        }
        proof {
            reveal(probe_matches);
            assert(!probe_matches(himawari@, sim@.bodies, ops, sim@.time, k as int, before));
        }
    }
    if found {
        // the flip lies within the second just stepped over
        proof {
            assert(k * SEC_NS <= (coarse_step_ns / SEC_NS) * SEC_NS) by (nonlinear_arith)
                requires
                    1 <= k <= coarse_step_ns / SEC_NS,
                    SEC_NS == 1_000_000_000i64,
            ;
            assert((coarse_step_ns / SEC_NS) * (SEC_NS as int) <= coarse_step_ns) by {
                vstd::arithmetic::div_mod::lemma_fundamental_div_mod(
                    coarse_step_ns as int,
                    SEC_NS as int,
                );
                vstd::arithmetic::div_mod::lemma_mod_bound(
                    coarse_step_ns as int,
                    SEC_NS as int,
                );
            }
            assert(k * SEC_NS >= SEC_NS && 0 <= k * SEC_NS <= 86_400 * (SEC_NS as int))
                by (nonlinear_arith)
                requires
                    1 <= k <= 86_400,
            ;
        }
        Ok(t_after - (k * SEC_NS) + SEC_NS / 2)
    } else {
        Err(
            RefineDiverged {
                window_start_ns: t_after - coarse_step_ns,
                window_end_ns: t_after,
                value_before: before,
                value_after: after_value,
            },
        )
    }
}

/// Milli-years since 2000 of a timestamp: the polynomial argument of the
/// `delta_t` model.
pub open spec fn milli_years_spec(y: int, doy: int, diy: int) -> int
    recommends
        diy > 0,
{
    (y - 2000) * 1000 + (doy * 1000) / diy
}

/// The two-regime polynomial difference between the uniform and the civil
/// timescale, in microseconds, on the milli-year argument `t`: a cubic fit
/// before 2005, a quadratic fit from 2005 on.
pub open spec fn delta_t_us(t: int) -> int {
    if t < 5000 {
        63_860_000 + div_trunc(334_500 * t, 1000) - div_trunc(60_374 * t * t, 1_000_000)
            + div_trunc(17_275 * t * t * t, 10_000_000_000)
    } else {
        62_920_000 + div_trunc(322_170 * t, 1000) + div_trunc(5_589 * t * t, 1_000_000)
    }
}

/// `(y, doy)` is the year and day-of-year containing the timestamp's day.
pub open spec fn year_day_brackets(ts: int, y: int, doy: int) -> bool {
    &&& 1970 <= y <= YEAR_MAX
    &&& 0 <= doy < days_in_year(y)
    &&& days_before_year(y) + doy == ts / (DAY_NS as int)
}

/// The year and day-of-year containing a timestamp; meaningful inside the
/// supported window.
pub open spec fn year_day_of(ts: int) -> (int, int) {
    choose|y: int, doy: int| year_day_brackets(ts, y, doy)
}

/// The `delta_t` polynomial argument of a timestamp, as a mathematical
/// function: milli-years since 2000.
pub open spec fn milli_years_of(ts: int) -> int {
    let (y, doy) = year_day_of(ts);
    milli_years_spec(y, doy, days_in_year(y))
}

/// Only one year contains a day number.
pub proof fn lemma_year_day_unique(ts: int, y1: int, d1: int, y2: int, d2: int)
    requires
        year_day_brackets(ts, y1, d1),
        year_day_brackets(ts, y2, d2),
    ensures
        y1 == y2 && d1 == d2,
{
    if y1 < y2 {
        crate::calendar::lemma_dby_monotonic(y1 + 1, y2);
    }
    if y2 < y1 {
        crate::calendar::lemma_dby_monotonic(y2 + 1, y1);
    }
}

/// The `delta_t` argument of a timestamp: its year and fraction of year in
/// milli-years since 2000.
pub fn milli_years(ts: i64) -> (r: i64)
    requires
        0 <= ts,
        (ts as int) < crate::calendar::month_start_ns(YEAR_MAX as int, 12),
    ensures
        r as int == milli_years_of(ts as int),
        -31_000 <= r <= 201_000,
{
    let day: i64 = ts / DAY_NS;
    proof {
        crate::calendar::lemma_dfc_bounds(YEAR_MAX as int, 12, 1);
        crate::calendar::lemma_months_sum(YEAR_MAX as int);
        crate::calendar::lemma_dbm_bounds(YEAR_MAX as int, 12);
        vstd::arithmetic::div_mod::lemma_div_pos_is_pos(ts as int, DAY_NS as int);
        assert((day as int) < days_before_year(YEAR_MAX as int + 1)) by {
            if day as int >= days_from_civil(YEAR_MAX as int, 12, 1) {
                vstd::arithmetic::mul::lemma_mul_inequality(
                    days_from_civil(YEAR_MAX as int, 12, 1),
                    day as int,
                    DAY_NS as int,
                );
                vstd::arithmetic::mul::lemma_mul_is_commutative(day as int, DAY_NS as int);
                vstd::arithmetic::div_mod::lemma_fundamental_div_mod(ts as int, DAY_NS as int);
            }
        }
    }
    let (y, m, d) = civil_from_days(day);
    let ys = crate::calendar::days_from_civil_x(y, 1, 1);
    proof {
        crate::calendar::lemma_dbm_bounds(y as int, m as int);
        assert(days_before_month(y as int, 1) == 0);
        assert(ys as int == days_before_year(y as int));
        assert(day as int >= ys as int);
    }
    let doy = day - ys;
    proof {
        crate::calendar::lemma_dbm_bounds(y as int, 12);
        crate::calendar::lemma_months_sum(y as int);
        assert(days_before_month(y as int, m as int) + (d - 1) < days_in_year(y as int)) by {
            lemma_dbm_step(y as int, m as int);
        }
    }
    let diy = crate::calendar::days_in_year_x(y);
    let q = (doy * 1000) / diy;
    proof {
        vstd::arithmetic::div_mod::lemma_div_pos_is_pos(doy as int * 1000, diy as int);
        vstd::arithmetic::div_mod::lemma_div_is_ordered(
            doy as int * 1000,
            diy as int * 1000,
            diy as int,
        );
        vstd::arithmetic::div_mod::lemma_div_multiples_vanish(1000, diy as int);
        assert(doy as int * 1000 <= diy as int * 1000 && diy as int * 1000 == (diy as int) * 1000)
            by (nonlinear_arith)
            requires
                doy as int <= diy as int,
        ;
    }
    let r = (y - 2000) * 1000 + q;
    proof {
        let yg = y as int;
        let dg = doy as int;
        assert(year_day_brackets(ts as int, yg, dg));
        let (yc, dc) = year_day_of(ts as int);
        assert(year_day_brackets(ts as int, yc, dc));
        lemma_year_day_unique(ts as int, yg, dg, yc, dc);
        assert(r as int == milli_years_spec(yg, dg, days_in_year(yg)));
    }
    r
}

/// Days before a month plus its length stay under the year's length.
proof fn lemma_dbm_step(y: int, m: int)
    requires
        1 <= m <= 12,
    ensures
        days_before_month(y, m) + days_in_month(y, m) <= days_in_year(y),
    decreases 13 - m,
{
    if m == 12 {
        crate::calendar::lemma_months_sum(y);
    } else {
        lemma_dbm_step(y, m + 1);
    }
}

/// Correct a refined uniform timestamp to the civil timescale by the
/// polynomial model: subtract `delta_t` of the timestamp's own milli-year
/// argument.
pub fn to_civil(ts: i64) -> (r: i64)
    requires
        0 <= ts,
        (ts as int) < crate::calendar::month_start_ns(YEAR_MAX as int, 12),
    ensures
        r as int == wsub64(ts as int, delta_t_us(milli_years_of(ts as int)) * 1000),
        ts as int - 20_000_000_000_000 <= r as int <= ts as int + 20_000_000_000_000,
{
    let t = milli_years(ts);
    let dt_us = delta_t_eval(t);
    let dt_ns: i64 = dt_us * 1000;
    proof {
        crate::calendar::lemma_dfc_bounds(YEAR_MAX as int, 12, 1);
        assert(wsub64(ts as int, dt_ns as int) == ts as int - dt_ns);
    }
    ts.wrapping_sub(dt_ns)
}

/// Evaluate the `delta_t` polynomial, exactly as `delta_t_us` states it.
fn delta_t_eval(t: i64) -> (r: i64)
    requires
        -31_000 <= t <= 201_000,
    ensures
        r as int == delta_t_us(t as int),
        -20_000_000_000 <= r <= 20_000_000_000,
{
    let t1: i128 = t as i128;
    proof {
        lemma_dt_terms(t as int);
    }
    if t < 5000 {
        let lin = div_trunc_i128(334_500 * t1, 1000);
        let sq = div_trunc_i128(60_374 * t1 * t1, 1_000_000);
        let cu = div_trunc_i128(17_275 * t1 * t1 * t1, 10_000_000_000);
        (63_860_000 + lin as i64) - sq as i64 + cu as i64
    } else {
        let lin = div_trunc_i128(322_170 * t1, 1000);
        let sq = div_trunc_i128(5_589 * t1 * t1, 1_000_000);
        62_920_000 + lin as i64 + sq as i64
    }
}

/// Size bounds of the polynomial terms.
proof fn lemma_dt_terms(t: int)
    requires
        -31_000 <= t <= 201_000,
    ensures
        -68_000_000_000 <= 334_500 * t <= 68_000_000_000,
        -68_000_000_000 <= 322_170 * t <= 68_000_000_000,
        -2_440_000_000_000_000 <= 60_374 * t * t <= 2_440_000_000_000_000,
        -226_000_000_000_000 <= 5_589 * t * t <= 226_000_000_000_000,
        -697_927_275_000_000 <= (17_275 * t) * t <= 697_927_275_000_000,
        -150_000_000_000_000_000_000 <= 17_275 * t * t * t <= 150_000_000_000_000_000_000,
        -68_000_000 <= div_trunc(334_500 * t, 1000) <= 68_000_000,
        -68_000_000 <= div_trunc(322_170 * t, 1000) <= 68_000_000,
        -2_440_000_000 <= div_trunc(60_374 * t * t, 1_000_000) <= 2_440_000_000,
        -226_000_000 <= div_trunc(5_589 * t * t, 1_000_000) <= 226_000_000,
        -15_000_000_000 <= div_trunc(17_275 * t * t * t, 10_000_000_000) <= 15_000_000_000,
{
    crate::num64::lemma_mul_bound_128(60_374 * t, t, 12_135_174_000, 201_000);
    crate::num64::lemma_mul_bound_128(5_589 * t, t, 1_123_389_000, 201_000);
    crate::num64::lemma_mul_bound_128(17_275 * t, t, 3_472_275_000, 201_000);
    crate::num64::lemma_mul_bound_128((17_275 * t) * t, t, 697_927_275_000_000, 201_000);
    assert(1000int * 68_000_000 == 68_000_000_000);
    assert(1_000_000int * 2_440_000_000 == 2_440_000_000_000_000);
    assert(1_000_000int * 226_000_000 == 226_000_000_000_000);
    assert(10_000_000_000int * 15_000_000_000 == 150_000_000_000_000_000_000);
    crate::num64::lemma_div_trunc_range(334_500 * t, 1000, 68_000_000);
    crate::num64::lemma_div_trunc_range(322_170 * t, 1000, 68_000_000);
    crate::num64::lemma_div_trunc_range(60_374 * t * t, 1_000_000, 2_440_000_000);
    crate::num64::lemma_div_trunc_range(5_589 * t * t, 1_000_000, 226_000_000);
    crate::num64::lemma_div_trunc_range(17_275 * t * t * t, 10_000_000_000, 15_000_000_000);
}

} // verus!
