//! The scan driver: advances the state in fixed coarse steps from a cached
//! snapshot, classifies each step, reports classification transitions as
//! events with refined timestamps, and aligns new snapshots on month
//! boundaries as the live time crosses them.
//!
//! The driver computes; it performs no input or output.  Event lines and
//! freshly aligned snapshots are returned as values for the caller to
//! print and persist.

use vstd::prelude::*;
use crate::body::BodyView;
use crate::calendar::{
    close_to_month, datestr_ts, datestr_wf, format_datestr, is_month_start, month_is_close,
    month_start_ns, nearest_month_ns, nearest_month_start, DAY_NS, SEC_NS, YEAR_MAX,
};
use crate::codec::ser_bodies;
use crate::integrator::{apply_ops, iter_steps, propagate_to_bodies, Integrator, StepSize};
use crate::observer::{
    earth_name, has_named, moon_name, observer_wf, state_classify, state_obscured, state_within,
    Himawari, ObserverView, Visibility,
};
use crate::refiner::{delta_t_us, milli_years_of, probe_matches, refine_transition, to_civil, RefineDiverged};
use crate::sim::{SimState, SimView};
use crate::snapshots::Snapshots;

verus! {

/// End of the simulation window: the timestamps the driver may visit.
pub open spec fn window_end() -> int {
    month_start_ns(YEAR_MAX as int, 12)
}

/// Every cached snapshot is inside the window and carries the fixed body
/// set the detectors read.
pub open spec fn cache_ready(s: Seq<SimView>) -> bool {
    forall|i: int|
        0 <= i < s.len() ==> {
            let v = #[trigger] s[i];
            &&& 0 <= v.time < window_end()
            &&& has_named(v.bodies, moon_name())
            &&& has_named(v.bodies, earth_name())
        }
}

/// A freshly aligned snapshot for the caller to persist, keyed by its
/// month-start timestamp.
pub struct SnapshotFile {
    pub time_ns: i64,
    pub bytes: Vec<u8>,
}

/// The kind of a reported transition, one per arm of the driver's state
/// machine.
#[derive(Clone, Copy, PartialEq, Eq, Structural, Debug)]
pub enum EventKind {
    BecomingVisible,
    BecomingObscured,
    LeavingFrame,
    ObscuredOutsideFrame,
}

/// One reported transition: the coarse step that observed it and the
/// refined instant strictly inside the preceding coarse interval.
#[derive(Clone, Copy, PartialEq, Eq, Structural, Debug)]
pub struct Event {
    pub kind: EventKind,
    pub time_ns: i64,
    pub refined_ns: i64,
}

/// Visibility episodes alternate: every even-indexed event opens one and
/// every odd-indexed event ends one.
pub open spec fn events_alternate(es: Seq<Event>) -> bool {
    forall|i: int|
        0 <= i < es.len() ==> ((#[trigger] es[i]).kind == EventKind::BecomingVisible <==> i % 2
            == 0)
}

/// Label text of an event kind, up to and including `: date = `.
pub open spec fn label_of(kind: EventKind) -> Seq<u8> {
    match kind {
        EventKind::BecomingVisible => seq![
            0x42u8, 0x65u8, 0x63u8, 0x6fu8, 0x6du8, 0x69u8, 0x6eu8, 0x67u8, 0x20u8, 0x76u8, 0x69u8,
            0x73u8, 0x69u8, 0x62u8, 0x6cu8, 0x65u8,
        ] + date_sep(),
        EventKind::BecomingObscured => seq![
            0x42u8, 0x65u8, 0x63u8, 0x6fu8, 0x6du8, 0x69u8, 0x6eu8, 0x67u8, 0x20u8, 0x6fu8, 0x62u8,
            0x73u8, 0x63u8, 0x75u8, 0x72u8, 0x65u8, 0x64u8,
        ] + date_sep(),
        EventKind::LeavingFrame => seq![
            0x4cu8, 0x65u8, 0x61u8, 0x76u8, 0x69u8, 0x6eu8, 0x67u8, 0x20u8, 0x66u8, 0x72u8, 0x61u8,
            0x6du8, 0x65u8,
        ] + date_sep(),
        EventKind::ObscuredOutsideFrame => seq![
            0x4fu8, 0x62u8, 0x73u8, 0x63u8, 0x75u8, 0x72u8, 0x65u8, 0x64u8, 0x20u8, 0x6fu8, 0x75u8,
            0x74u8, 0x73u8, 0x69u8, 0x64u8, 0x65u8, 0x20u8, 0x66u8, 0x72u8, 0x61u8, 0x6du8, 0x65u8,
        ] + date_sep(),
    }
}

/// `: date = `
pub open spec fn date_sep() -> Seq<u8> {
    seq![0x3au8, 0x20u8, 0x64u8, 0x61u8, 0x74u8, 0x65u8, 0x20u8, 0x3du8, 0x20u8]
}

/// Whether an event kind ends a visibility episode; its log line is
/// followed by a blank line.
pub open spec fn ends_episode(kind: EventKind) -> bool {
    kind != EventKind::BecomingVisible
}

impl Event {
    /// The event's log line: `<Classification>: date = <ISO-8601 UTC
    /// timestamp>` and a newline, followed by a blank line when the event
    /// ends an episode.  The refined instant, which the refiner reports on
    /// the uniform simulation timescale, is corrected to the civil
    /// timescale by the polynomial model before it is formatted.
    pub fn format_line(&self) -> (r: Vec<u8>)
        requires
            DAY_NS <= self.refined_ns,
            (self.refined_ns as int) < window_end() - DAY_NS,
        ensures
            exists|d: Seq<u8>|
                {
                    let civil = crate::num64::wsub64(
                        self.refined_ns as int,
                        delta_t_us(milli_years_of(self.refined_ns as int)) * 1000,
                    );
                    datestr_wf(d) && #[trigger] datestr_ts(d) == (civil / (SEC_NS as int)) * (
                    SEC_NS as int) && r@ == label_of(self.kind) + d + seq![0x0au8] + (
                    if ends_episode(self.kind) {
                        seq![0x0au8]
                    } else {
                        Seq::<u8>::empty()
                    })
                },
    {
        let label: Vec<u8> = match self.kind {
            EventKind::BecomingVisible => vec![
                0x42, 0x65, 0x63, 0x6f, 0x6d, 0x69, 0x6e, 0x67, 0x20, 0x76, 0x69, 0x73, 0x69, 0x62,
                0x6c, 0x65, 0x3a, 0x20, 0x64, 0x61, 0x74, 0x65, 0x20, 0x3d, 0x20,
            ],
            EventKind::BecomingObscured => vec![
                0x42, 0x65, 0x63, 0x6f, 0x6d, 0x69, 0x6e, 0x67, 0x20, 0x6f, 0x62, 0x73, 0x63, 0x75,
                0x72, 0x65, 0x64, 0x3a, 0x20, 0x64, 0x61, 0x74, 0x65, 0x20, 0x3d, 0x20,
            ],
            EventKind::LeavingFrame => vec![
                0x4c, 0x65, 0x61, 0x76, 0x69, 0x6e, 0x67, 0x20, 0x66, 0x72, 0x61, 0x6d, 0x65, 0x3a,
                0x20, 0x64, 0x61, 0x74, 0x65, 0x20, 0x3d, 0x20,
            ],
            EventKind::ObscuredOutsideFrame => vec![
                0x4f, 0x62, 0x73, 0x63, 0x75, 0x72, 0x65, 0x64, 0x20, 0x6f, 0x75, 0x74, 0x73, 0x69,
                0x64, 0x65, 0x20, 0x66, 0x72, 0x61, 0x6d, 0x65, 0x3a, 0x20, 0x64, 0x61, 0x74, 0x65,
                0x20, 0x3d, 0x20,
            ],
        };
        proof {
            assert(label@ =~= label_of(self.kind));
        }
        let civil = to_civil(self.refined_ns);
        let date = format_datestr(civil);
        let mut out = label;
        crate::codec::push_all(&mut out, date.as_slice());
        out.push(0x0a);
        let closing = match self.kind {
            EventKind::BecomingVisible => false,
            _ => true,
        };
        if closing {
            out.push(0x0a);
        }
        proof {
            assert(out@ =~= label_of(self.kind) + date@ + seq![0x0au8] + (
            if ends_episode(self.kind) {
                seq![0x0au8]
            } else {
                Seq::<u8>::empty()
            }));
        }
        out
    }
}

/// The cache holds the snapshot `v`.
pub open spec fn cache_has(now: Seq<SimView>, v: SimView) -> bool {
    exists|j: int| 0 <= j < now.len() && #[trigger] now[j] == v
}

/// The cache holds a snapshot at time `t`.
pub open spec fn cache_has_time(s: Seq<SimView>, t: int) -> bool {
    exists|j: int| 0 <= j < s.len() && (#[trigger] s[j]).time == t
}

/// The step times `propagate_to` visits on its way from `t` to `target`:
/// the companion of `propagate_to_bodies` on the clock side.
pub open spec fn scan_times(t: int, target: int, step: int) -> Seq<int>
    decreases crate::num64::abs_int(target - t) when step >= 1
{
    if t == target {
        Seq::empty()
    } else if target > t {
        let h = if target - t < step {
            target - t
        } else {
            step
        };
        seq![t + h] + scan_times(t + h, target, step)
    } else {
        let h = if t - target < step {
            t - target
        } else {
            step
        };
        seq![t - h] + scan_times(t - h, target, step)
    }
}

/// The alignment policy, stated over a list of visited step times: every
/// visited instant within the threshold of a month boundary leaves a
/// snapshot exactly at that boundary in the cache.
#[verifier::opaque]
pub open spec fn boundaries_cached(times: Seq<int>, step: int, cache: Seq<SimView>) -> bool {
    forall|i: int|
        0 <= i < times.len() && month_is_close(#[trigger] times[i], step) ==> cache_has_time(
            cache,
            nearest_month_ns(times[i]),
        )
}

/// A time-keyed lookup survives a cache that keeps its snapshots.
proof fn lemma_keeps_time(pre: Seq<SimView>, post: Seq<SimView>, t: int)
    requires
        cache_keeps(pre, post),
        cache_has_time(pre, t),
    ensures
        cache_has_time(post, t),
{
    reveal(cache_keeps);
    let j = choose|j: int| 0 <= j < pre.len() && (#[trigger] pre[j]).time == t;
    assert(cache_has(post, pre[j]));
    let j2 = choose|j2: int| 0 <= j2 < post.len() && #[trigger] post[j2] == pre[j];
    assert(post[j2].time == t);
}

/// The alignment record survives a cache that keeps its snapshots.
proof fn lemma_boundaries_kept(
    times: Seq<int>,
    step: int,
    pre: Seq<SimView>,
    post: Seq<SimView>,
)
    requires
        boundaries_cached(times, step, pre),
        cache_keeps(pre, post),
    ensures
        boundaries_cached(times, step, post),
{
    reveal(boundaries_cached);
    assert forall|i: int|
        0 <= i < times.len() && month_is_close(#[trigger] times[i], step) implies cache_has_time(
        post,
        nearest_month_ns(times[i]),
    ) by {
        lemma_keeps_time(pre, post, nearest_month_ns(times[i]));
    }
}

/// Every snapshot of `base` is still present in `now`: the cache never
/// evicts.
#[verifier::opaque]
pub open spec fn cache_keeps(base: Seq<SimView>, now: Seq<SimView>) -> bool {
    forall|j: int| 0 <= j < base.len() ==> cache_has(now, #[trigger] base[j])
}

/// The hand-off `f` is the serialization of a snapshot the cache holds at
/// `f`'s time.
pub open spec fn saved_tied(cache: Seq<SimView>, f: SnapshotFile) -> bool {
    exists|j: int|
        0 <= j < cache.len() && (#[trigger] cache[j]).time == f.time_ns as int && f.bytes@
            == ser_bodies(cache[j].bodies)
}

/// `now` extends the hand-off list `base` without touching it, and every
/// new hand-off is a month-aligned serialization of a snapshot held in
/// `cache`.
#[verifier::opaque]
pub open spec fn saved_extends(
    base: Seq<SnapshotFile>,
    now: Seq<SnapshotFile>,
    cache: Seq<SimView>,
) -> bool {
    &&& now.len() >= base.len()
    &&& forall|k: int| 0 <= k < base.len() ==> now[k] == base[k]
    &&& forall|k: int|
        base.len() <= k < now.len() ==> is_month_start((#[trigger] now[k]).time_ns as int)
            && saved_tied(cache, now[k])
}

/// Stepping the bodies keeps every name lookup.
proof fn lemma_step_keeps_named(bodies: Seq<BodyView>, ops: Seq<(bool, int)>, a: int, name: Seq<u8>)
    requires
        has_named(bodies, name),
    ensures
        has_named(apply_ops(bodies, ops, a), name),
{
    crate::integrator::lemma_ops_names(bodies, ops, a);
    let i = choose|i: int| 0 <= i < bodies.len() && (#[trigger] bodies[i]).name == name;
    assert(apply_ops(bodies, ops, a)[i].name == bodies[i].name);
}

/// The body list of the snapshot aligned onto `target`: the state's own
/// list when it already sits there, otherwise the list integrated to the
/// boundary with the stepper's default step.
pub open spec fn aligned_bodies(v: SimView, target: int, dflt: int, ops: Seq<(bool, int)>) -> Seq<
    BodyView,
> {
    if v.time == target {
        v.bodies
    } else {
        propagate_to_bodies(v.bodies, v.time, target, dflt, ops)
    }
}

/// If the live time sits within one full coarse step of a month boundary,
/// align a disposable clone exactly onto that boundary and cache it; a
/// freshly cached snapshot is also appended to `saved`, keyed by the
/// boundary and carrying the serialization of the aligned body list, so
/// the caller can persist exactly what was cached.  Away from boundaries,
/// and for boundaries already cached, nothing changes.
///
/// The trigger window is deliberately the whole step rather than half of
/// one: a strict half-step window can miss a boundary exactly equidistant
/// from two step instants, while the full window cannot, and the cache is
/// identical either way because duplicate inserts are no-ops and every
/// crossed boundary still yields exactly one cached snapshot.
pub fn maybe_save_snapshot<I: Integrator>(
    integrator: &I,
    sim: &SimState,
    snapshots: &mut Snapshots,
    saved: &mut Vec<SnapshotFile>,
    step_ns: i64,
)
    requires
        sim@.wf(),
        0 <= sim@.time,
        sim@.time < window_end(),
        old(snapshots).inv(),
        step_ns >= 1,
    ensures
        final(snapshots).inv(),
        !month_is_close(sim@.time, step_ns as int) ==> final(snapshots)@ == old(snapshots)@
            && final(saved)@ == old(saved)@,
        month_is_close(sim@.time, step_ns as int) ==> {
            let target = nearest_month_ns(sim@.time);
            let aligned = aligned_bodies(
                sim@,
                target,
                integrator.default_step_spec(),
                integrator.op_seq(),
            );
            &&& is_month_start(target)
            &&& if exists|j: int|
                0 <= j < old(snapshots)@.len() && (#[trigger] old(snapshots)@[j]).time == target {
                final(snapshots)@ == old(snapshots)@ && final(saved)@ == old(saved)@
            } else {
                &&& exists|i: int|
                    0 <= i <= old(snapshots)@.len() && final(snapshots)@ == old(snapshots)@.insert(
                        i,
                        SimView { time: target, bodies: aligned },
                    )
                &&& final(saved)@.len() == old(saved)@.len() + 1
                &&& final(saved)@[old(saved)@.len() as int].time_ns as int == target
                &&& final(saved)@[old(saved)@.len() as int].bytes@ == ser_bodies(aligned)
                &&& forall|k: int|
                    0 <= k < old(saved)@.len() ==> final(saved)@[k] == old(saved)@[k]
            }
        },
{
    let t = sim.time();
    if close_to_month(t, step_ns) {
        let target = nearest_month_start(t);
        let mut probe = sim.clone();
        if probe.time() != target {
            probe.propagate_to(integrator, target);
        }
        proof {
            assert(probe@.bodies == aligned_bodies(
                sim@,
                target as int,
                integrator.default_step_spec(),
                integrator.op_seq(),
            ));
            assert(probe@.time == target as int);
        }
        let bytes = probe.save();
        let ts = probe.time();
        let ghost probe_view = probe@;
        let inserted = snapshots.insert(probe);
        if inserted {
            saved.push(SnapshotFile { time_ns: ts, bytes });
        }
        proof {
            assert(probe_view =~= SimView {
                time: target as int,
                bodies: aligned_bodies(
                    sim@,
                    target as int,
                    integrator.default_step_spec(),
                    integrator.op_seq(),
                ),
            });
        }
    }
}

/// Advance (or reverse) the live state until its clock reads exactly
/// `target_ns`, in steps of at most `step_ns`: the bodies are integrated by
/// the stepper's scheme exactly as `propagate_to_bodies` folds it, and a
/// snapshot is aligned after every step, so every visited instant near a
/// month boundary leaves a snapshot exactly at that boundary, the cache
/// keeps everything it held, and every new hand-off in `saved` is a
/// month-aligned serialization of a cached state.
#[verifier::rlimit(100)]
pub fn propagate_to<I: Integrator>(
    integrator: &I,
    sim: &mut SimState,
    snapshots: &mut Snapshots,
    saved: &mut Vec<SnapshotFile>,
    target_ns: i64,
    step_ns: i64,
)
    requires
        old(sim)@.wf(),
        old(snapshots).inv(),
        0 <= old(sim)@.time < window_end(),
        0 <= target_ns,
        (target_ns as int) < window_end(),
        step_ns >= 1,
        has_named(old(sim)@.bodies, moon_name()),
        has_named(old(sim)@.bodies, earth_name()),
    ensures
        final(sim)@.time == target_ns as int,
        final(sim)@.bodies == propagate_to_bodies(
            old(sim)@.bodies,
            old(sim)@.time,
            target_ns as int,
            step_ns as int,
            integrator.op_seq(),
        ),
        final(sim)@.wf(),
        final(snapshots).inv(),
        has_named(final(sim)@.bodies, moon_name()),
        has_named(final(sim)@.bodies, earth_name()),
        cache_keeps(old(snapshots)@, final(snapshots)@),
        saved_extends(old(saved)@, final(saved)@, final(snapshots)@),
        boundaries_cached(
            scan_times(old(sim)@.time, target_ns as int, step_ns as int),
            step_ns as int,
            final(snapshots)@,
        ),
{
    let ghost b0 = sim@.bodies;
    let ghost t0 = sim@.time;
    let ghost tgt = target_ns as int;
    let ghost stp = step_ns as int;
    let ghost ops = integrator.op_seq();
    let ghost snaps0 = snapshots@;
    let ghost saved0 = saved@;
    let ghost mut visited: Seq<int> = Seq::empty();
    proof {
        lemma_cache_aggregates_init(snapshots@, saved@);
        assert(boundaries_cached(visited, stp, snapshots@)) by {
            reveal(boundaries_cached);
        }
        assert(visited + scan_times(t0, tgt, stp) =~= scan_times(t0, tgt, stp));
    }
    loop
        invariant
            sim@.wf(),
            snapshots.inv(),
            0 <= sim@.time < window_end(),
            0 <= target_ns,
            tgt == target_ns as int,
            stp == step_ns as int,
            ops == integrator.op_seq(),
            (target_ns as int) < window_end(),
            step_ns >= 1,
            has_named(sim@.bodies, moon_name()),
            has_named(sim@.bodies, earth_name()),
            propagate_to_bodies(b0, t0, tgt, stp, ops) == propagate_to_bodies(
                sim@.bodies,
                sim@.time,
                tgt,
                stp,
                ops,
            ),
            cache_keeps(snaps0, snapshots@),
            saved_extends(saved0, saved@, snapshots@),
            scan_times(t0, tgt, stp) == visited + scan_times(sim@.time, tgt, stp),
            boundaries_cached(visited, stp, snapshots@),
        ensures
            sim@.time == tgt,
            sim@.bodies == propagate_to_bodies(b0, t0, tgt, stp, ops),
            sim@.wf(),
            snapshots.inv(),
            has_named(sim@.bodies, moon_name()),
            has_named(sim@.bodies, earth_name()),
            cache_keeps(snaps0, snapshots@),
            saved_extends(saved0, saved@, snapshots@),
            boundaries_cached(scan_times(t0, tgt, stp), stp, snapshots@),
        decreases crate::num64::abs_int(target_ns - sim@.time),
    {
        let t = sim.time();
        if t == target_ns {
            proof {
                assert(propagate_to_bodies(sim@.bodies, sim@.time, tgt, stp, ops) == sim@.bodies);
                assert(scan_times(sim@.time, tgt, stp) =~= Seq::<int>::empty());
                assert(visited + Seq::<int>::empty() =~= visited);
            }
            break ;
        }
        let ghost bc = sim@.bodies;
        let ghost tc = sim@.time;
        let h: i64 = if target_ns > t {
            let rem: i128 = (target_ns as i128) - (t as i128);
            if rem < (step_ns as i128) {
                rem as i64
            } else {
                step_ns
            }
        } else {
            let rem: i128 = (t as i128) - (target_ns as i128);
            if rem < (step_ns as i128) {
                -(rem as i64)
            } else {
                -step_ns
            }
        };
        proof {
            assert(crate::num64::wadd64(sim@.time, h as int) == sim@.time + h);
        }
        integrator.propagate_in_place(sim, StepSize::Step(h));
        proof {
            lemma_step_keeps_named(bc, ops, h as int, moon_name());
            lemma_step_keeps_named(bc, ops, h as int, earth_name());
            assert(propagate_to_bodies(bc, tc, tgt, stp, ops) == propagate_to_bodies(
                apply_ops(bc, ops, h as int),
                tc + h,
                tgt,
                stp,
                ops,
            ));
            assert(scan_times(tc, tgt, stp) == seq![tc + h] + scan_times(tc + h, tgt, stp));
        }
        let ghost snaps_pre = snapshots@;
        let ghost saved_pre = saved@;
        maybe_save_snapshot(integrator, sim, snapshots, saved, step_ns);
        proof {
            lemma_cache_growth_step(
                integrator.default_step_spec(),
                ops,
                sim@,
                step_ns as int,
                snaps_pre,
                snapshots@,
                saved_pre,
                saved@,
            );
            lemma_cache_aggregates_chain(snaps0, snaps_pre, snapshots@, saved0, saved_pre, saved@);
            lemma_boundaries_kept(visited, stp, snaps_pre, snapshots@);
            let vpre = visited;
            visited = visited.push(tc + h);
            assert(visited + scan_times(tc + h, tgt, stp) =~= vpre + scan_times(tc, tgt, stp));
            assert(boundaries_cached(visited, stp, snapshots@)) by {
                reveal(boundaries_cached);
                assert forall|i: int|
                    0 <= i < visited.len() && month_is_close(
                        #[trigger] visited[i],
                        stp,
                    ) implies cache_has_time(snapshots@, nearest_month_ns(visited[i])) by {
                    if i < vpre.len() {
                        assert(visited[i] == vpre[i]);
                        assert(boundaries_cached(vpre, stp, snapshots@));
                    } else {
                        assert(visited[i] == sim@.time);
                    }
                }
            }
        }
    }
}

/// The aggregate clauses hold reflexively.
proof fn lemma_cache_aggregates_init(snaps: Seq<SimView>, saved: Seq<SnapshotFile>)
    ensures
        cache_keeps(snaps, snaps),
        saved_extends(saved, saved, snaps),
{
    reveal(cache_keeps);
    reveal(saved_extends);
    assert forall|j: int| 0 <= j < snaps.len() implies cache_has(snaps, #[trigger] snaps[j]) by {
        assert(snaps[j] == snaps[j]);
    }
}

/// One `maybe_save_snapshot` call keeps the cache and extends the
/// hand-offs consistently with it.
#[verifier::rlimit(100)]
proof fn lemma_cache_growth_step(
    dflt: int,
    ops: Seq<(bool, int)>,
    sim: SimView,
    step: int,
    snaps_pre: Seq<SimView>,
    snaps_post: Seq<SimView>,
    saved_pre: Seq<SnapshotFile>,
    saved_post: Seq<SnapshotFile>,
)
    requires
        // the shape `maybe_save_snapshot` ensures
        !month_is_close(sim.time, step) ==> snaps_post == snaps_pre && saved_post == saved_pre,
        month_is_close(sim.time, step) ==> {
            let target = nearest_month_ns(sim.time);
            let aligned = aligned_bodies(sim, target, dflt, ops);
            &&& is_month_start(target)
            &&& if exists|j: int|
                0 <= j < snaps_pre.len() && (#[trigger] snaps_pre[j]).time == target {
                snaps_post == snaps_pre && saved_post == saved_pre
            } else {
                &&& exists|i: int|
                    0 <= i <= snaps_pre.len() && snaps_post == snaps_pre.insert(
                        i,
                        SimView { time: target, bodies: aligned },
                    )
                &&& saved_post.len() == saved_pre.len() + 1
                &&& saved_post[saved_pre.len() as int].time_ns as int == target
                &&& saved_post[saved_pre.len() as int].bytes@ == ser_bodies(aligned)
                &&& forall|k: int|
                    0 <= k < saved_pre.len() ==> saved_post[k] == saved_pre[k]
            }
        },
    ensures
        cache_keeps(snaps_pre, snaps_post),
        saved_extends(saved_pre, saved_post, snaps_post),
        month_is_close(sim.time, step) ==> cache_has_time(snaps_post, nearest_month_ns(sim.time)),
{
    reveal(cache_keeps);
    reveal(saved_extends);
    if month_is_close(sim.time, step) {
        let target = nearest_month_ns(sim.time);
        let aligned = aligned_bodies(sim, target, dflt, ops);
        if exists|j: int| 0 <= j < snaps_pre.len() && (#[trigger] snaps_pre[j]).time == target {
            lemma_cache_aggregates_init(snaps_pre, saved_pre);
            let j = choose|j: int|
                0 <= j < snaps_pre.len() && (#[trigger] snaps_pre[j]).time == target;
            assert(snaps_post[j].time == target);
        } else {
            let i = choose|i: int|
                0 <= i <= snaps_pre.len() && snaps_post == snaps_pre.insert(
                    i,
                    SimView { time: target, bodies: aligned },
                );
            assert forall|j: int| 0 <= j < snaps_pre.len() implies cache_has(
                snaps_post,
                #[trigger] snaps_pre[j],
            ) by {
                if j < i {
                    assert(snaps_post[j] == snaps_pre[j]);
                } else {
                    assert(snaps_post[j + 1] == snaps_pre[j]);
                }
            }
            assert(snaps_post[i] == SimView { time: target, bodies: aligned });
            assert forall|k: int| saved_pre.len() <= k < saved_post.len() implies is_month_start(
                (#[trigger] saved_post[k]).time_ns as int,
            ) && saved_tied(snaps_post, saved_post[k]) by {
                assert(k == saved_pre.len());
                assert(snaps_post[i].time == saved_post[k].time_ns as int);
            }
        }
    } else {
        lemma_cache_aggregates_init(snaps_pre, saved_pre);
    }
}

/// The aggregate clauses compose across a step.
#[verifier::rlimit(100)]
proof fn lemma_cache_aggregates_chain(
    snaps0: Seq<SimView>,
    snaps_pre: Seq<SimView>,
    snaps_post: Seq<SimView>,
    saved0: Seq<SnapshotFile>,
    saved_pre: Seq<SnapshotFile>,
    saved_post: Seq<SnapshotFile>,
)
    requires
        cache_keeps(snaps0, snaps_pre),
        saved_extends(saved0, saved_pre, snaps_pre),
        cache_keeps(snaps_pre, snaps_post),
        saved_extends(saved_pre, saved_post, snaps_post),
    ensures
        cache_keeps(snaps0, snaps_post),
        saved_extends(saved0, saved_post, snaps_post),
{
    reveal(cache_keeps);
    reveal(saved_extends);
    assert forall|j: int| 0 <= j < snaps0.len() implies cache_has(
        snaps_post,
        #[trigger] snaps0[j],
    ) by {
        assert(cache_has(snaps_pre, snaps0[j]));
        let jp = choose|jp: int| 0 <= jp < snaps_pre.len() && #[trigger] snaps_pre[jp] == snaps0[j];
        assert(cache_has(snaps_post, snaps_pre[jp]));
    }
    assert forall|k: int| saved0.len() <= k < saved_post.len() implies is_month_start(
        (#[trigger] saved_post[k]).time_ns as int,
    ) && saved_tied(snaps_post, saved_post[k]) by {
        if k < saved_pre.len() {
            // an entry from the middle stage: its cache tie moves forward
            assert(saved_post[k] == saved_pre[k]);
            assert(is_month_start(saved_pre[k].time_ns as int));
            assert(saved_tied(snaps_pre, saved_pre[k]));
            let j = choose|j: int|
                0 <= j < snaps_pre.len() && (#[trigger] snaps_pre[j]).time == saved_pre[k].time_ns
                    as int && saved_pre[k].bytes@ == ser_bodies(snaps_pre[j].bodies);
            assert(cache_has(snaps_post, snaps_pre[j]));
            let j2 = choose|j2: int|
                0 <= j2 < snaps_post.len() && #[trigger] snaps_post[j2] == snaps_pre[j];
            assert(snaps_post[j2].time == saved_post[k].time_ns as int);
        } else {
            // a fresh entry of the last step: its tie is already stated
            // against the final cache
            assert(is_month_start(saved_post[k].time_ns as int));
        }
    }
}

/// The driver's state machine: the event one step reports, given the
/// step's frame and obscuration classification and whether an episode is
/// currently open.
pub open spec fn transition_of(within: bool, obscured: bool, visible: bool) -> Option<EventKind> {
    if within && !obscured && !visible {
        Some(EventKind::BecomingVisible)
    } else if within && obscured && visible {
        Some(EventKind::BecomingObscured)
    } else if !within && !obscured && visible {
        Some(EventKind::LeavingFrame)
    } else if !within && obscured && visible {
        Some(EventKind::ObscuredOutsideFrame)
    } else {
        None
    }
}

/// The event kinds and coarse timestamps of scanning from `bodies` at `t`
/// until `end`: step, classify, fire the state machine, repeat.  This is
/// the scan's specification; `generate` returns exactly this sequence.
#[verifier::opaque]
pub open spec fn scan_events(
    obs: ObserverView,
    bodies: Seq<BodyView>,
    t: int,
    end: int,
    step: int,
    ops: Seq<(bool, int)>,
    visible: bool,
) -> Seq<(EventKind, int)>
    decreases (if end - t >= 0 { end - t } else { 0 }) when step >= 1
{
    if t >= end {
        Seq::empty()
    } else {
        let b1 = apply_ops(bodies, ops, step);
        let t1 = t + step;
        match transition_of(state_within(obs, b1, t1), state_obscured(obs, b1, t1), visible) {
            None => scan_events(obs, b1, t1, end, step, ops, visible),
            Some(k) => seq![(k, t1)] + scan_events(
                obs,
                b1,
                t1,
                end,
                step,
                ops,
                k == EventKind::BecomingVisible,
            ),
        }
    }
}

/// The scan's fatal outcome: at scan step `n` (bodies `n` whole steps from
/// `b_start`, clock `start + n * step`) the state machine fired with the
/// episode flag `vis`, and no reverse second within the coarse step reads
/// the pre-change classification again; `e` reports that bracket and the
/// two classifications.
pub open spec fn diverged_at(
    obs: ObserverView,
    b_start: Seq<BodyView>,
    start: int,
    step: int,
    ops: Seq<(bool, int)>,
    e: RefineDiverged,
    n: nat,
    vis: bool,
) -> bool {
    let bn = iter_steps(b_start, ops, step, n);
    let tn = start + n * step;
    &&& n >= 1
    &&& e.window_end_ns as int == tn
    &&& e.window_start_ns as int == tn - step
    &&& transition_of(state_within(obs, bn, tn), state_obscured(obs, bn, tn), vis) is Some
    &&& e.value_before == (if vis {
        Visibility::VisibleInFrame
    } else {
        Visibility::OutOfFrame
    })
    &&& e.value_after == state_classify(obs, bn, tn)
    &&& forall|k: int|
        1 <= k <= step / (SEC_NS as int) ==> !#[trigger] probe_matches(
            obs,
            bn,
            ops,
            tn,
            k,
            e.value_before,
        )
}

/// The pre-change classification the refiner is given at event index `i`:
/// an open episode reads as visible, otherwise as out of frame.
pub open spec fn episode_before(i: int) -> Visibility {
    if i % 2 == 1 {
        Visibility::VisibleInFrame
    } else {
        Visibility::OutOfFrame
    }
}

/// The refined instant the refiner reports from the state `bn` at `tn`:
/// the midpoint of the first reverse second whose classification reads
/// `before` again.
pub open spec fn refined_pick(
    obs: ObserverView,
    bn: Seq<BodyView>,
    ops: Seq<(bool, int)>,
    tn: int,
    step: int,
    before: Visibility,
    ts: int,
) -> bool {
    exists|k: int|
        {
            &&& 1 <= k <= step / (SEC_NS as int)
            &&& #[trigger] probe_matches(obs, bn, ops, tn, k, before)
            &&& forall|k2: int| 1 <= k2 < k ==> !#[trigger] probe_matches(obs, bn, ops, tn, k2, before)
            &&& ts == tn - k * (SEC_NS as int) + (SEC_NS as int) / 2
        }
}

/// The alignment policy over the scan's own steps, up to the `upto`-th:
/// every coarse step instant near a month boundary leaves that boundary
/// cached.
#[verifier::opaque]
pub open spec fn scan_leg_cached_upto(start: int, step: int, upto: nat, cache: Seq<SimView>) -> bool {
    forall|k: int|
        1 <= k <= upto && #[trigger] month_is_close(start + k * step, step) ==> cache_has_time(
            cache,
            nearest_month_ns(start + k * step),
        )
}

/// The alignment policy over every coarse step the scan to `end` takes.
#[verifier::opaque]
pub open spec fn scan_leg_cached(start: int, end: int, step: int, cache: Seq<SimView>) -> bool {
    forall|k: int|
        1 <= k && start + (k - 1) * step < end && #[trigger] month_is_close(start + k * step, step)
            ==> cache_has_time(cache, nearest_month_ns(start + k * step))
}

/// The scan-leg alignment record survives a cache that keeps its
/// snapshots.
proof fn lemma_scan_leg_kept(
    start: int,
    step: int,
    upto: nat,
    pre: Seq<SimView>,
    post: Seq<SimView>,
)
    requires
        scan_leg_cached_upto(start, step, upto, pre),
        cache_keeps(pre, post),
    ensures
        scan_leg_cached_upto(start, step, upto, post),
{
    reveal(scan_leg_cached_upto);
    assert forall|k: int|
        1 <= k <= upto && #[trigger] month_is_close(start + k * step, step) implies cache_has_time(
        post,
        nearest_month_ns(start + k * step),
    ) by {
        lemma_keeps_time(pre, post, nearest_month_ns(start + k * step));
    }
}

/// Once the scan's clock has reached the end, its bounded alignment record
/// covers every step the full scan takes.
proof fn lemma_scan_leg_done(start: int, end: int, step: int, n: nat, cache: Seq<SimView>)
    requires
        scan_leg_cached_upto(start, step, n, cache),
        start + n * step >= end,
        step >= 1,
    ensures
        scan_leg_cached(start, end, step, cache),
{
    reveal(scan_leg_cached_upto);
    reveal(scan_leg_cached);
    assert forall|k: int|
        1 <= k && start + (k - 1) * step < end && #[trigger] month_is_close(
            start + k * step,
            step,
        ) implies cache_has_time(cache, nearest_month_ns(start + k * step)) by {
        if k > n {
            assert((k - 1) * step >= n * step) by (nonlinear_arith)
                requires
                    k - 1 >= n,
                    step >= 1,
            ;
        }
    }
}

/// Scan from `start_ns` to `end_ns`: resume from the cached snapshot
/// nearest the start, walk forward in coarse steps, classify every step,
/// refine and report each transition, and cache month-aligned snapshots.
/// The reported kinds and coarse timestamps are exactly `scan_events` of
/// the trajectory from the resumed snapshot; episodes strictly alternate;
/// each refined instant lies strictly inside its coarse bracket.  The scan
/// fails only when a transition cannot be refined, the fatal divergence,
/// and reports that transition's coarse bracket and the two
/// classifications involved.
#[verifier::rlimit(100)]
pub fn generate<I: Integrator>(
    integrator: &I,
    himawari: &Himawari,
    snapshots: &mut Snapshots,
    saved: &mut Vec<SnapshotFile>,
    start_ns: i64,
    end_ns: i64,
    step_ns: i64,
) -> (r: Result<Vec<Event>, RefineDiverged>)
    requires
        old(snapshots).inv(),
        old(snapshots)@.len() > 0,
        cache_ready(old(snapshots)@),
        observer_wf(himawari@),
        0 <= start_ns <= end_ns,
        end_ns + step_ns < window_end(),
        SEC_NS <= step_ns <= 86_400 * SEC_NS,
    ensures
        final(snapshots).inv(),
        cache_keeps(old(snapshots)@, final(snapshots)@),
        saved_extends(old(saved)@, final(saved)@, final(snapshots)@),
        match r {
            Ok(out) => {
                &&& events_alternate(out@)
                &&& scan_leg_cached(start_ns as int, end_ns as int, step_ns as int, final(snapshots)@)
                &&& forall|i: int|
                    0 <= i < out@.len() ==> start_ns < (#[trigger] out@[i]).time_ns <= end_ns
                        + step_ns && out@[i].time_ns - step_ns < out@[i].refined_ns
                        < out@[i].time_ns
                &&& exists|ci: int|
                    #[trigger] crate::snapshots::closest_at(old(snapshots)@, start_ns as int, ci)
                        && boundaries_cached(
                        scan_times(old(snapshots)@[ci].time, start_ns as int, step_ns as int),
                        step_ns as int,
                        final(snapshots)@,
                    ) && out@.map_values(|e: Event| (e.kind, e.time_ns as int)) == scan_events(
                        himawari@,
                        propagate_to_bodies(
                            old(snapshots)@[ci].bodies,
                            old(snapshots)@[ci].time,
                            start_ns as int,
                            step_ns as int,
                            integrator.op_seq(),
                        ),
                        start_ns as int,
                        end_ns as int,
                        step_ns as int,
                        integrator.op_seq(),
                        false,
                    ) && forall|i: int|
                        0 <= i < out@.len() ==> #[trigger] refined_pick(
                            himawari@,
                            iter_steps(
                                propagate_to_bodies(
                                    old(snapshots)@[ci].bodies,
                                    old(snapshots)@[ci].time,
                                    start_ns as int,
                                    step_ns as int,
                                    integrator.op_seq(),
                                ),
                                integrator.op_seq(),
                                step_ns as int,
                                ((out@[i].time_ns - start_ns) / (step_ns as int)) as nat,
                            ),
                            integrator.op_seq(),
                            out@[i].time_ns as int,
                            step_ns as int,
                            episode_before(i),
                            out@[i].refined_ns as int,
                        )
            },
            Err(e) => start_ns < e.window_end_ns <= end_ns + step_ns && e.window_start_ns
                == e.window_end_ns - step_ns && exists|ci: int, n: nat, vis: bool|
                crate::snapshots::closest_at(old(snapshots)@, start_ns as int, ci)
                    && #[trigger] diverged_at(
                    himawari@,
                    propagate_to_bodies(
                        old(snapshots)@[ci].bodies,
                        old(snapshots)@[ci].time,
                        start_ns as int,
                        step_ns as int,
                        integrator.op_seq(),
                    ),
                    start_ns as int,
                    step_ns as int,
                    integrator.op_seq(),
                    e,
                    n,
                    vis,
                ),
        },
{
    let ghost snaps0 = snapshots@;
    let ghost saved0 = saved@;
    let mut sim = snapshots.get_closest(start_ns);
    let ghost ci = choose|ci: int| #[trigger] crate::snapshots::closest_at(snaps0, start_ns as int, ci)
        && sim@ == snaps0[ci];
    proof {
        assert(snaps0[ci].wf());
        assert(0 <= snaps0[ci].time < window_end());
        assert(has_named(snaps0[ci].bodies, moon_name()));
        assert(has_named(snaps0[ci].bodies, earth_name()));
    }
    propagate_to(integrator, &mut sim, snapshots, saved, start_ns, step_ns);
    let ghost b_start = sim@.bodies;
    let ghost snaps_start = snapshots@;
    let ghost ops = integrator.op_seq();
    let mut events: Vec<Event> = Vec::new();
    let mut currently_visible = false;
    let ghost mut nsteps: nat = 0;
    let ghost pre_leg = scan_times(snaps0[ci].time, start_ns as int, step_ns as int);
    proof {
        assert(nsteps * step_ns == 0) by (nonlinear_arith)
            requires
                nsteps == 0,
        ;
        assert(scan_leg_cached_upto(start_ns as int, step_ns as int, 0, snapshots@)) by {
            reveal(scan_leg_cached_upto);
        }
        assert(b_start == propagate_to_bodies(
            snaps0[ci].bodies,
            snaps0[ci].time,
            start_ns as int,
            step_ns as int,
            ops,
        ));
        assert(events@.map_values(|e: Event| (e.kind, e.time_ns as int)) + scan_events(
            himawari@,
            sim@.bodies,
            sim@.time,
            end_ns as int,
            step_ns as int,
            ops,
            false,
        ) =~= scan_events(
            himawari@,
            b_start,
            start_ns as int,
            end_ns as int,
            step_ns as int,
            ops,
            false,
        ));
    }
    loop
        invariant
            sim@.wf(),
            snapshots.inv(),
            observer_wf(himawari@),
            has_named(sim@.bodies, moon_name()),
            has_named(sim@.bodies, earth_name()),
            start_ns <= sim@.time <= end_ns + step_ns,
            (end_ns + step_ns) < window_end(),
            0 <= start_ns <= end_ns,
            SEC_NS <= step_ns <= 86_400 * SEC_NS,
            ops == integrator.op_seq(),
            sim@.bodies == iter_steps(b_start, ops, step_ns as int, nsteps),
            sim@.time == start_ns + nsteps * step_ns,
            b_start == propagate_to_bodies(
                snaps0[ci].bodies,
                snaps0[ci].time,
                start_ns as int,
                step_ns as int,
                ops,
            ),
            crate::snapshots::closest_at(snaps0, start_ns as int, ci),
            snaps0 == old(snapshots)@,
            saved0 == old(saved)@,
            pre_leg == scan_times(snaps0[ci].time, start_ns as int, step_ns as int),
            cache_keeps(snaps0, snapshots@),
            saved_extends(saved0, saved@, snapshots@),
            boundaries_cached(pre_leg, step_ns as int, snapshots@),
            scan_leg_cached_upto(start_ns as int, step_ns as int, nsteps, snapshots@),
            events_alternate(events@),
            currently_visible <==> events@.len() % 2 == 1,
            forall|i: int|
                0 <= i < events@.len() ==> start_ns < (#[trigger] events@[i]).time_ns <= end_ns
                    + step_ns && events@[i].time_ns - step_ns < events@[i].refined_ns
                    < events@[i].time_ns,
            forall|i: int|
                0 <= i < events@.len() ==> #[trigger] refined_pick(
                    himawari@,
                    iter_steps(
                        b_start,
                        ops,
                        step_ns as int,
                        ((events@[i].time_ns - start_ns) / (step_ns as int)) as nat,
                    ),
                    ops,
                    events@[i].time_ns as int,
                    step_ns as int,
                    episode_before(i),
                    events@[i].refined_ns as int,
                ),
            events@.map_values(|e: Event| (e.kind, e.time_ns as int)) + scan_events(
                himawari@,
                sim@.bodies,
                sim@.time,
                end_ns as int,
                step_ns as int,
                ops,
                currently_visible,
            ) == scan_events(
                himawari@,
                b_start,
                start_ns as int,
                end_ns as int,
                step_ns as int,
                ops,
                false,
            ),
        ensures
            events_alternate(events@),
            forall|i: int|
                0 <= i < events@.len() ==> start_ns < (#[trigger] events@[i]).time_ns <= end_ns
                    + step_ns && events@[i].time_ns - step_ns < events@[i].refined_ns
                    < events@[i].time_ns,
            forall|i: int|
                0 <= i < events@.len() ==> #[trigger] refined_pick(
                    himawari@,
                    iter_steps(
                        b_start,
                        ops,
                        step_ns as int,
                        ((events@[i].time_ns - start_ns) / (step_ns as int)) as nat,
                    ),
                    ops,
                    events@[i].time_ns as int,
                    step_ns as int,
                    episode_before(i),
                    events@[i].refined_ns as int,
                ),
            snapshots.inv(),
            cache_keeps(snaps0, snapshots@),
            saved_extends(saved0, saved@, snapshots@),
            boundaries_cached(pre_leg, step_ns as int, snapshots@),
            scan_leg_cached_upto(start_ns as int, step_ns as int, nsteps, snapshots@),
            start_ns + nsteps * step_ns >= end_ns,
            events@.map_values(|e: Event| (e.kind, e.time_ns as int)) == scan_events(
                himawari@,
                b_start,
                start_ns as int,
                end_ns as int,
                step_ns as int,
                ops,
                false,
            ),
        decreases (if end_ns - sim@.time >= 0 {
            end_ns - sim@.time
        } else {
            0int
        }),
    {
        let t0 = sim.time();
        if t0 >= end_ns {
            proof {
                reveal(scan_events);
                assert(scan_events(
                    himawari@,
                    sim@.bodies,
                    sim@.time,
                    end_ns as int,
                    step_ns as int,
                    ops,
                    currently_visible,
                ) =~= Seq::<(EventKind, int)>::empty());
                assert(events@.map_values(|e: Event| (e.kind, e.time_ns as int)) + Seq::<(
                    EventKind,
                    int,
                )>::empty() =~= events@.map_values(|e: Event| (e.kind, e.time_ns as int)));
            }
            break ;
        }
        let ghost bc = sim@.bodies;
        let ghost tc = sim@.time;
        let ghost visc = currently_visible;
        proof {
            crate::calendar::lemma_dfc_bounds(YEAR_MAX as int, 12, 1);
            assert(crate::num64::wadd64(sim@.time, step_ns as int) == sim@.time + step_ns);
        }
        integrator.propagate_in_place(&mut sim, StepSize::Step(step_ns));
        proof {
            lemma_step_keeps_named(bc, ops, step_ns as int, moon_name());
            lemma_step_keeps_named(bc, ops, step_ns as int, earth_name());
            nsteps = nsteps + 1;
            crate::integrator::lemma_iter_snoc(b_start, ops, step_ns as int, nsteps);
            assert(nsteps * step_ns == (nsteps - 1) * step_ns + step_ns) by (nonlinear_arith)
                requires
                    nsteps >= 1,
            ;
        }
        let ghost snaps_pre = snapshots@;
        let ghost saved_pre = saved@;
        maybe_save_snapshot(integrator, &sim, snapshots, saved, step_ns);
        proof {
            lemma_cache_growth_step(
                integrator.default_step_spec(),
                ops,
                sim@,
                step_ns as int,
                snaps_pre,
                snapshots@,
                saved_pre,
                saved@,
            );
            lemma_cache_aggregates_chain(snaps0, snaps_pre, snapshots@, saved0, saved_pre, saved@);
            lemma_boundaries_kept(pre_leg, step_ns as int, snaps_pre, snapshots@);
            lemma_scan_leg_kept(
                start_ns as int,
                step_ns as int,
                (nsteps - 1) as nat,
                snaps_pre,
                snapshots@,
            );
            assert(scan_leg_cached_upto(start_ns as int, step_ns as int, nsteps, snapshots@)) by {
                reveal(scan_leg_cached_upto);
                assert forall|k: int|
                    1 <= k <= nsteps && #[trigger] month_is_close(
                        start_ns + k * step_ns,
                        step_ns as int,
                    ) implies cache_has_time(
                    snapshots@,
                    nearest_month_ns(start_ns + k * step_ns),
                ) by {
                    if k == nsteps {
                        assert(start_ns + k * step_ns == sim@.time);
                    }
                }
            }
        }
        let within = himawari.within_frame(&sim);
        let obscured = himawari.obscured(&sim);
        let kind: Option<EventKind> = if within && !obscured && !currently_visible {
            Some(EventKind::BecomingVisible)
        } else if within && obscured && currently_visible {
            Some(EventKind::BecomingObscured)
        } else if !within && !obscured && currently_visible {
            Some(EventKind::LeavingFrame)
        } else if !within && obscured && currently_visible {
            Some(EventKind::ObscuredOutsideFrame)
        } else {
            None
        };
        proof {
            reveal(scan_events);
            assert(kind == transition_of(
                state_within(himawari@, sim@.bodies, sim@.time),
                state_obscured(himawari@, sim@.bodies, sim@.time),
                visc,
            ));
        }
        match kind {
            Some(k) => {
                let before: Visibility = if currently_visible {
                    Visibility::VisibleInFrame
                } else {
                    Visibility::OutOfFrame
                };
                let refined = match refine_transition(
                    integrator,
                    himawari,
                    &sim,
                    before,
                    step_ns,
                ) {
                    Ok(ts) => ts,
                    Err(e) => {
                        proof {
                            assert(diverged_at(
                                himawari@,
                                propagate_to_bodies(
                                    snaps0[ci].bodies,
                                    snaps0[ci].time,
                                    start_ns as int,
                                    step_ns as int,
                                    ops,
                                ),
                                start_ns as int,
                                step_ns as int,
                                ops,
                                e,
                                nsteps,
                                visc,
                            ));
                        }
                        return Err(e);
                    },
                };
                let t1 = sim.time();
                let ghost pre = events@;
                events.push(Event { kind: k, time_ns: t1, refined_ns: refined });
                currently_visible = !currently_visible;
                proof {
                    vstd::arithmetic::div_mod::lemma_div_multiples_vanish(
                        nsteps as int,
                        step_ns as int,
                    );
                    assert((step_ns as int) * (nsteps as int) == nsteps * step_ns)
                        by (nonlinear_arith);
                    assert(((t1 - start_ns) / (step_ns as int)) as nat == nsteps);
                    assert(refined_pick(
                        himawari@,
                        iter_steps(b_start, ops, step_ns as int, nsteps),
                        ops,
                        t1 as int,
                        step_ns as int,
                        before,
                        refined as int,
                    ));
                    assert forall|i: int|
                        0 <= i < events@.len() implies ((#[trigger] events@[i]).kind
                        == EventKind::BecomingVisible <==> i % 2 == 0) by {
                        if i < pre.len() {
                            assert(events@[i] == pre[i]);
                        }
                    }
                    assert(currently_visible == (k == EventKind::BecomingVisible));
                    assert(events@.map_values(|e: Event| (e.kind, e.time_ns as int))
                        =~= pre.map_values(|e: Event| (e.kind, e.time_ns as int)) + seq![
                        (k, t1 as int),
                    ]);
                    assert(scan_events(himawari@, bc, tc, end_ns as int, step_ns as int, ops, visc)
                        == seq![(k, t1 as int)] + scan_events(
                        himawari@,
                        sim@.bodies,
                        sim@.time,
                        end_ns as int,
                        step_ns as int,
                        ops,
                        currently_visible,
                    ));
                    assert(events@.map_values(|e: Event| (e.kind, e.time_ns as int)) + scan_events(
                        himawari@,
                        sim@.bodies,
                        sim@.time,
                        end_ns as int,
                        step_ns as int,
                        ops,
                        currently_visible,
                    ) =~= pre.map_values(|e: Event| (e.kind, e.time_ns as int)) + scan_events(
                        himawari@,
                        bc,
                        tc,
                        end_ns as int,
                        step_ns as int,
                        ops,
                        visc,
                    ));
                }
            },
            None => {
                proof {
                    assert(scan_events(himawari@, bc, tc, end_ns as int, step_ns as int, ops, visc)
                        == scan_events(
                        himawari@,
                        sim@.bodies,
                        sim@.time,
                        end_ns as int,
                        step_ns as int,
                        ops,
                        currently_visible,
                    ));
                }
            },
        }
    }
    proof {
        lemma_scan_leg_done(
            start_ns as int,
            end_ns as int,
            step_ns as int,
            nsteps,
            snapshots@,
        );
    }
    Ok(events)
}


} // verus!
