//! Channel router: turns device batches without per-sample timestamps into
//! per-channel appends with synthetic, evenly spaced nanosecond timestamps.
//!
//! A measurement batch interleaves ECG scalars and accelerometer triples.
//! Each kind continues from its channel's last timestamp plus one nominal
//! interval, or — for a first batch — is spread backward from the batch's
//! wall-clock time so its last sample lands there. Heart-rate updates are
//! stamped with the wall clock directly; beat intervals are spread evenly
//! over the time since the previous update, and the trailing 30 seconds of
//! them yield one new variability (RMSSD) sample.

use vstd::arithmetic::div_mod::lemma_fundamental_div_mod;
use vstd::prelude::*;

use crate::timeseries::{
    first_at_or_after, lemma_first_at_or_after_char, rmssd, sat_add, sat_mul, sat_sub,
    sq_diff_total, Point, TimeSeries, NANOS_PER_SECOND,
};

verus! {

/// Default ECG sampling rate in Hz, until the device reports its own.
pub const ECG_SAMPLE_RATE_HZ: u64 = 130;

/// Default accelerometer sampling rate in Hz, until the device reports its
/// own.
pub const ACC_SAMPLE_RATE_HZ: u64 = 200;

/// Window for the rolling variability computation, in nanoseconds.
pub const RMSSD_WINDOW_NS: u64 = 30_000_000_000;

/// Default spacing for beat intervals when none have been seen yet.
pub const DEFAULT_RR_SPACING_NS: u64 = 1_000_000_000;

/// One sample of a measurement batch: an ECG scalar or an accelerometer
/// triple.
#[derive(Clone, Copy, PartialEq, Eq, Structural, Debug)]
pub enum MeasurementSample {
    Ecg(i32),
    Acc(i32, i32, i32),
}

/// The ECG values of a batch, in batch order.
pub open spec fn ecg_values(batch: Seq<MeasurementSample>) -> Seq<i32> {
    batch.filter(|s: MeasurementSample| s is Ecg).map_values(
        |s: MeasurementSample| s->Ecg_0,
    )
}

/// The accelerometer values of a batch along one axis (0, 1 or 2), in
/// batch order.
pub open spec fn acc_axis_values(batch: Seq<MeasurementSample>, axis: int) -> Seq<i32> {
    batch.filter(|s: MeasurementSample| s is Acc).map_values(
        |s: MeasurementSample| if axis == 0 {
            s->Acc_0
        } else if axis == 1 {
            s->Acc_1
        } else {
            s->Acc_2
        },
    )
}

/// Extending a batch by one sample extends its ECG values by that sample's
/// value exactly when the sample is an ECG scalar.
pub proof fn lemma_ecg_values_step(batch: Seq<MeasurementSample>, b: int)
    requires
        0 <= b < batch.len(),
    ensures
        ecg_values(batch.subrange(0, b + 1)) == (if batch[b] is Ecg {
            ecg_values(batch.subrange(0, b)).push(batch[b]->Ecg_0)
        } else {
            ecg_values(batch.subrange(0, b))
        }),
{
    reveal(Seq::filter);
    let pre = batch.subrange(0, b);
    let post = batch.subrange(0, b + 1);
    assert(post.drop_last() =~= pre);
    let fpre = pre.filter(|s: MeasurementSample| s is Ecg);
    if batch[b] is Ecg {
        assert(post.filter(|s: MeasurementSample| s is Ecg) == fpre.push(batch[b]));
        assert(fpre.push(batch[b]).map_values(|s: MeasurementSample| s->Ecg_0)
            =~= fpre.map_values(|s: MeasurementSample| s->Ecg_0).push(batch[b]->Ecg_0));
    }
}

/// Extending a batch by one sample extends each axis of its accelerometer
/// values exactly when the sample is a triple.
pub proof fn lemma_acc_values_step(batch: Seq<MeasurementSample>, b: int, axis: int)
    requires
        0 <= b < batch.len(),
    ensures
        acc_axis_values(batch.subrange(0, b + 1), axis) == (if batch[b] is Acc {
            acc_axis_values(batch.subrange(0, b), axis).push(
                if axis == 0 {
                    batch[b]->Acc_0
                } else if axis == 1 {
                    batch[b]->Acc_1
                } else {
                    batch[b]->Acc_2
                },
            )
        } else {
            acc_axis_values(batch.subrange(0, b), axis)
        }),
{
    reveal(Seq::filter);
    let pre = batch.subrange(0, b);
    let post = batch.subrange(0, b + 1);
    assert(post.drop_last() =~= pre);
    let fpre = pre.filter(|s: MeasurementSample| s is Acc);
    let fval = |s: MeasurementSample| if axis == 0 {
        s->Acc_0
    } else if axis == 1 {
        s->Acc_1
    } else {
        s->Acc_2
    };
    if batch[b] is Acc {
        assert(post.filter(|s: MeasurementSample| s is Acc) == fpre.push(batch[b]));
        assert(fpre.push(batch[b]).map_values(fval) =~= fpre.map_values(fval).push(
            fval(batch[b]),
        ));
    }
}

/// The time of the last point, if any.
pub open spec fn last_time_opt(s: Seq<Point>) -> Option<u64> {
    if s.len() == 0 {
        None
    } else {
        Some(s.last().time)
    }
}

/// The synthetic points a batch contributes to one channel: `values[i]` at
/// `start + i * step` (saturating).
pub open spec fn routed_points(values: Seq<i32>, start: u64, step: u64) -> Seq<Point> {
    Seq::new(
        values.len(),
        |i: int| Point { time: sat_add(start, sat_mul(i as u64, step)), value: values[i] },
    )
}

/// What `calculate_start_time` returns.
pub open spec fn spec_calculate_start_time(
    last_point_time: Option<u64>,
    now: u64,
    sample_count: u64,
    timestep_ns: u64,
) -> u64 {
    match last_point_time {
        Some(t) => sat_add(t, timestep_ns),
        None => if sample_count > 0 {
            sat_sub(now, sat_mul((sample_count - 1) as u64, timestep_ns))
        } else {
            now
        },
    }
}

/// Saturating addition never decreases its first argument.
pub proof fn lemma_sat_add_geq(a: u64, b: u64)
    ensures
        sat_add(a, b) >= a,
{
}

/// Saturating multiplication is monotone in its first argument.
pub proof fn lemma_sat_mul_mono(a: u64, b: u64, s: u64)
    requires
        a <= b,
    ensures
        sat_mul(a, s) <= sat_mul(b, s),
{
    assert(a * s <= b * s) by (nonlinear_arith)
        requires
            a <= b,
            s >= 0,
    {}
}

/// Executable saturating addition.
pub fn sat_add_exec(a: u64, b: u64) -> (r: u64)
    ensures
        r == sat_add(a, b),
{
    if a <= u64::MAX - b {
        a + b
    } else {
        u64::MAX
    }
}

/// Executable saturating multiplication.
pub fn sat_mul_exec(a: u64, b: u64) -> (r: u64)
    ensures
        r == sat_mul(a, b),
{
    proof {
        assert(a as u128 * b as u128 <= u128::MAX) by (nonlinear_arith)
            requires
                a <= 0xffff_ffff_ffff_ffffu64,
                b <= 0xffff_ffff_ffff_ffffu64,
        {}
    }
    let p: u128 = a as u128 * b as u128;
    if p > u64::MAX as u128 {
        u64::MAX
    } else {
        p as u64
    }
}

/// Executable saturating subtraction.
pub fn sat_sub_exec(a: u64, b: u64) -> (r: u64)
    ensures
        r == sat_sub(a, b),
{
    if a >= b {
        a - b
    } else {
        0
    }
}

/// The spacing between spread beat-interval points: the time since the
/// previous update divided evenly, or a one-second default when no beat
/// interval has been seen yet.
pub open spec fn spec_rr_spacing(old_rr: Seq<Point>, now: u64, len: u64) -> u64
    recommends
        len > 0,
{
    if old_rr.len() > 0 {
        (sat_sub(now, old_rr.last().time) as u64 / len) as u64
    } else {
        DEFAULT_RR_SPACING_NS
    }
}

/// Beat intervals spread evenly backward from `now`: the `i`-th of `n`
/// lands at `now - (n - 1 - i) * spacing` (saturating).
pub open spec fn rr_spread_points(rrs: Seq<u16>, now: u64, spacing: u64) -> Seq<Point> {
    Seq::new(
        rrs.len(),
        |i: int| Point {
            time: sat_sub(now, sat_mul((rrs.len() - 1 - i) as u64, spacing)),
            value: rrs[i] as i32,
        },
    )
}

/// The trailing points of `s` whose time is within `window` of the last
/// point's time.
pub open spec fn recent_window(s: Seq<Point>, window: u64) -> Seq<Point>
    recommends
        s.len() > 0,
{
    let cutoff = sat_sub(s.last().time, window);
    s.subrange(first_at_or_after(s, cutoff), s.len() as int)
}

/// `rv` is the whole-number floor of the root-mean-square of successive
/// differences over `s`.
pub open spec fn rmssd_bounds(s: Seq<Point>, rv: u64) -> bool {
    &&& (rv * rv) * (s.len() - 1) <= sq_diff_total(s)
    &&& sq_diff_total(s) < ((rv + 1) * (rv + 1)) * (s.len() - 1)
}

/// A variability reading narrowed to an `i32` channel value.
pub open spec fn rmssd_clamped(rv: u64) -> i32 {
    if rv > i32::MAX as u64 {
        i32::MAX
    } else {
        rv as i32
    }
}

/// The three accelerometer axes agree on the timestamp at index `i`.
pub open spec fn acc_times_agree(c: Channels, i: int) -> bool {
    c.acc_y@[i].time == c.acc_x@[i].time && c.acc_z@[i].time == c.acc_x@[i].time
}

/// Container for all of the device's data channels.
pub struct Channels {
    pub ecg: TimeSeries,
    pub acc_x: TimeSeries,
    pub acc_y: TimeSeries,
    pub acc_z: TimeSeries,
    pub hr: TimeSeries,
    pub rr: TimeSeries,
    pub hrv: TimeSeries,
}

impl Channels {
    /// Well-formedness: every channel is well-formed, and the three
    /// accelerometer axes always carry the same timestamps.
    pub open spec fn wf(self) -> bool {
        &&& self.ecg.wf()
        &&& self.acc_x.wf()
        &&& self.acc_y.wf()
        &&& self.acc_z.wf()
        &&& self.hr.wf()
        &&& self.rr.wf()
        &&& self.hrv.wf()
        &&& self.acc_x@.len() == self.acc_y@.len()
        &&& self.acc_x@.len() == self.acc_z@.len()
        &&& forall|i: int| 0 <= i < self.acc_x@.len() ==> #[trigger] acc_times_agree(self, i)
    }

    /// A wall-clock reading no earlier than anything already stamped on the
    /// clock-driven channels.
    pub open spec fn accepts_update_at(self, now: u64) -> bool {
        &&& self.hr@.len() > 0 ==> now >= self.hr@.last().time
        &&& self.rr@.len() > 0 ==> now >= self.rr@.last().time
        &&& self.hrv@.len() > 0 ==> now >= self.hrv@.last().time
    }

    pub fn new() -> (r: Channels)
        ensures
            r.wf(),
            r.ecg@.len() == 0 && r.acc_x@.len() == 0 && r.acc_y@.len() == 0 && r.acc_z@.len()
                == 0 && r.hr@.len() == 0 && r.rr@.len() == 0 && r.hrv@.len() == 0,
            r.ecg.spec_sample_rate() == ECG_SAMPLE_RATE_HZ,
            r.acc_x.spec_sample_rate() == ACC_SAMPLE_RATE_HZ,
            r.acc_y.spec_sample_rate() == ACC_SAMPLE_RATE_HZ,
            r.acc_z.spec_sample_rate() == ACC_SAMPLE_RATE_HZ,
            r.hr.spec_sample_rate() == 1 && r.rr.spec_sample_rate() == 1
                && r.hrv.spec_sample_rate() == 1,
    {
        Channels {
            ecg: TimeSeries::new(ECG_SAMPLE_RATE_HZ),
            acc_x: TimeSeries::new(ACC_SAMPLE_RATE_HZ),
            acc_y: TimeSeries::new(ACC_SAMPLE_RATE_HZ),
            acc_z: TimeSeries::new(ACC_SAMPLE_RATE_HZ),
            hr: TimeSeries::new(1),
            rr: TimeSeries::new(1),
            hrv: TimeSeries::new(1),
        }
    }

    pub fn set_ecg_sample_rate(&mut self, rate: u64)
        ensures
            final(self).ecg.spec_sample_rate() == rate,
            final(self).ecg@ == old(self).ecg@,
            final(self).acc_x == old(self).acc_x,
            final(self).acc_y == old(self).acc_y,
            final(self).acc_z == old(self).acc_z,
            final(self).hr == old(self).hr,
            final(self).rr == old(self).rr,
            final(self).hrv == old(self).hrv,
            old(self).wf() ==> final(self).wf(),
    {
        self.ecg.set_sample_rate(rate);
        proof {
            if old(self).wf() {
                assert forall|i: int| 0 <= i < self.acc_x@.len() implies #[trigger] acc_times_agree(
                    *self,
                    i,
                ) by {
                    assert(acc_times_agree(*old(self), i));
                }
            }
        }
    }

    pub fn set_acc_sample_rate(&mut self, rate: u64)
        ensures
            final(self).acc_x.spec_sample_rate() == rate,
            final(self).acc_y.spec_sample_rate() == rate,
            final(self).acc_z.spec_sample_rate() == rate,
            final(self).acc_x@ == old(self).acc_x@,
            final(self).acc_y@ == old(self).acc_y@,
            final(self).acc_z@ == old(self).acc_z@,
            final(self).ecg == old(self).ecg,
            final(self).hr == old(self).hr,
            final(self).rr == old(self).rr,
            final(self).hrv == old(self).hrv,
            old(self).wf() ==> final(self).wf(),
    {
        self.acc_x.set_sample_rate(rate);
        self.acc_y.set_sample_rate(rate);
        self.acc_z.set_sample_rate(rate);
        proof {
            if old(self).wf() {
                assert forall|i: int| 0 <= i < self.acc_x@.len() implies #[trigger] acc_times_agree(
                    *self,
                    i,
                ) by {
                    assert(acc_times_agree(*old(self), i));
                }
            }
        }
    }

    /// The starting timestamp for one kind's run of samples: one interval
    /// past the channel's last timestamp, or — for a first-ever batch —
    /// spread backward from `now` so the last sample lands at `now`.
    pub fn calculate_start_time(
        last_point_time: Option<u64>,
        now: u64,
        sample_count: u64,
        timestep_ns: u64,
    ) -> (r: u64)
        ensures
            r == spec_calculate_start_time(last_point_time, now, sample_count, timestep_ns),
    {
        match last_point_time {
            Some(last_time) => sat_add_exec(last_time, timestep_ns),
            None => if sample_count > 0 {
                sat_sub_exec(now, sat_mul_exec(sample_count - 1, timestep_ns))
            } else {
                now
            },
        }
    }

    /// Routes one measurement batch: every ECG scalar and accelerometer
    /// triple is appended to its channel under a synthetic timestamp — the
    /// kind's start time plus its index times the kind's nominal interval.
    #[verifier::rlimit(100)]
    #[verifier::spinoff_prover]
    pub fn handle_measurement_data(&mut self, now: u64, batch: &Vec<MeasurementSample>)
        requires
            old(self).wf(),
            old(self).ecg.spec_sample_rate() > 0,
            old(self).acc_x.spec_sample_rate() > 0,
        ensures
            final(self).wf(),
            final(self).ecg@ == old(self).ecg@ + routed_points(
                ecg_values(batch@),
                spec_calculate_start_time(
                    last_time_opt(old(self).ecg@),
                    now,
                    ecg_values(batch@).len() as u64,
                    (NANOS_PER_SECOND as u64 / old(self).ecg.spec_sample_rate()) as u64,
                ),
                (NANOS_PER_SECOND as u64 / old(self).ecg.spec_sample_rate()) as u64,
            ),
            forall|axis: int|
                0 <= axis < 3 ==> #[trigger] final(self).acc_channel(axis)@ == old(
                    self,
                ).acc_channel(axis)@ + routed_points(
                    acc_axis_values(batch@, axis),
                    spec_calculate_start_time(
                        last_time_opt(old(self).acc_x@),
                        now,
                        acc_axis_values(batch@, 0).len() as u64,
                        (NANOS_PER_SECOND as u64 / old(self).acc_x.spec_sample_rate()) as u64,
                    ),
                    (NANOS_PER_SECOND as u64 / old(self).acc_x.spec_sample_rate()) as u64,
                ),
            final(self).hr == old(self).hr,
            final(self).rr == old(self).rr,
            final(self).hrv == old(self).hrv,
            final(self).ecg.spec_sample_rate() == old(self).ecg.spec_sample_rate(),
            final(self).acc_x.spec_sample_rate() == old(self).acc_x.spec_sample_rate(),
            final(self).acc_y.spec_sample_rate() == old(self).acc_y.spec_sample_rate(),
            final(self).acc_z.spec_sample_rate() == old(self).acc_z.spec_sample_rate(),
    {
        let (ecg_count, acc_count) = Self::count_samples(batch.as_slice());
        let ecg_timestep = NANOS_PER_SECOND / self.ecg.sample_rate();
        let acc_timestep = NANOS_PER_SECOND / self.acc_x.sample_rate();
        let ecg_last: Option<u64> = match self.ecg.last_point() {
            Some(p) => Some(p.time),
            None => None,
        };
        let acc_last: Option<u64> = match self.acc_x.last_point() {
            Some(p) => Some(p.time),
            None => None,
        };
        let ecg_start = Self::calculate_start_time(ecg_last, now, ecg_count, ecg_timestep);
        let acc_start = Self::calculate_start_time(acc_last, now, acc_count, acc_timestep);
        let mut ecg_idx: u64 = 0;
        let mut acc_idx: u64 = 0;
        let mut b: usize = 0;
        proof {
            assert(ecg_values(batch@.subrange(0, 0)) =~= Seq::<i32>::empty()) by {
                reveal(Seq::filter);
            }
            assert(acc_axis_values(batch@.subrange(0, 0), 0) =~= Seq::<i32>::empty()) by {
                reveal(Seq::filter);
            }
            assert(acc_axis_values(batch@.subrange(0, 0), 1) =~= Seq::<i32>::empty()) by {
                reveal(Seq::filter);
            }
            assert(acc_axis_values(batch@.subrange(0, 0), 2) =~= Seq::<i32>::empty()) by {
                reveal(Seq::filter);
            }
            assert(self.ecg@ =~= old(self).ecg@ + routed_points(
                ecg_values(batch@.subrange(0, 0)),
                ecg_start,
                ecg_timestep,
            ));
            assert(self.acc_x@ =~= old(self).acc_x@ + routed_points(
                acc_axis_values(batch@.subrange(0, 0), 0),
                acc_start,
                acc_timestep,
            ));
            assert(self.acc_y@ =~= old(self).acc_y@ + routed_points(
                acc_axis_values(batch@.subrange(0, 0), 1),
                acc_start,
                acc_timestep,
            ));
            assert(self.acc_z@ =~= old(self).acc_z@ + routed_points(
                acc_axis_values(batch@.subrange(0, 0), 2),
                acc_start,
                acc_timestep,
            ));
        }
        while b < batch.len()
            invariant
                b <= batch@.len(),
                ecg_idx == ecg_values(batch@.subrange(0, b as int)).len(),
                acc_idx == acc_axis_values(batch@.subrange(0, b as int), 0).len(),
                acc_idx == acc_axis_values(batch@.subrange(0, b as int), 1).len(),
                acc_idx == acc_axis_values(batch@.subrange(0, b as int), 2).len(),
                ecg_idx + acc_idx <= b,
                self.ecg@ == old(self).ecg@ + routed_points(
                    ecg_values(batch@.subrange(0, b as int)),
                    ecg_start,
                    ecg_timestep,
                ),
                self.acc_x@ == old(self).acc_x@ + routed_points(
                    acc_axis_values(batch@.subrange(0, b as int), 0),
                    acc_start,
                    acc_timestep,
                ),
                self.acc_y@ == old(self).acc_y@ + routed_points(
                    acc_axis_values(batch@.subrange(0, b as int), 1),
                    acc_start,
                    acc_timestep,
                ),
                self.acc_z@ == old(self).acc_z@ + routed_points(
                    acc_axis_values(batch@.subrange(0, b as int), 2),
                    acc_start,
                    acc_timestep,
                ),
                self.hr == old(self).hr,
                self.rr == old(self).rr,
                self.hrv == old(self).hrv,
                self.ecg.spec_sample_rate() == old(self).ecg.spec_sample_rate(),
                self.acc_x.spec_sample_rate() == old(self).acc_x.spec_sample_rate(),
                self.acc_y.spec_sample_rate() == old(self).acc_y.spec_sample_rate(),
                self.acc_z.spec_sample_rate() == old(self).acc_z.spec_sample_rate(),
                self.wf(),
                old(self).wf(),
                old(self).ecg@.len() > 0 ==> ecg_start >= old(self).ecg@.last().time,
                old(self).acc_x@.len() > 0 ==> acc_start >= old(self).acc_x@.last().time,
            decreases batch@.len() - b,
        {
            proof {
                lemma_ecg_values_step(batch@, b as int);
                lemma_acc_values_step(batch@, b as int, 0);
                lemma_acc_values_step(batch@, b as int, 1);
                lemma_acc_values_step(batch@, b as int, 2);
            }
            let ghost pre = *self;
            let sample = batch[b];
            match sample {
                MeasurementSample::Acc(x, y, z) => {
                    let t = sat_add_exec(acc_start, sat_mul_exec(acc_idx, acc_timestep));
                    proof {
                        if acc_idx > 0 {
                            lemma_sat_mul_mono((acc_idx - 1) as u64, acc_idx, acc_timestep);
                        }
                        lemma_sat_add_geq(acc_start, sat_mul(acc_idx, acc_timestep));
                        if self.acc_x@.len() > 0 {
                            assert(acc_times_agree(*self, self.acc_x@.len() - 1));
                            if acc_idx == 0 {
                                assert(self.acc_x@.last() == old(self).acc_x@.last());
                            } else {
                                assert(self.acc_x@.last() == routed_points(
                                    acc_axis_values(batch@.subrange(0, b as int), 0),
                                    acc_start,
                                    acc_timestep,
                                ).last());
                                assert(self.acc_x@.last().time == sat_add(
                                    acc_start,
                                    sat_mul((acc_idx - 1) as u64, acc_timestep),
                                ));
                            }
                        }
                    }
                    self.acc_x.add_point(t, x);
                    self.acc_y.add_point(t, y);
                    self.acc_z.add_point(t, z);
                    acc_idx = acc_idx + 1;
                    proof {
                        assert(self.acc_x@ =~= old(self).acc_x@ + routed_points(
                            acc_axis_values(batch@.subrange(0, b + 1), 0),
                            acc_start,
                            acc_timestep,
                        ));
                        assert(self.acc_y@ =~= old(self).acc_y@ + routed_points(
                            acc_axis_values(batch@.subrange(0, b + 1), 1),
                            acc_start,
                            acc_timestep,
                        ));
                        assert(self.acc_z@ =~= old(self).acc_z@ + routed_points(
                            acc_axis_values(batch@.subrange(0, b + 1), 2),
                            acc_start,
                            acc_timestep,
                        ));
                        assert(self.ecg@ =~= old(self).ecg@ + routed_points(
                            ecg_values(batch@.subrange(0, b + 1)),
                            ecg_start,
                            ecg_timestep,
                        ));
                        assert forall|i: int| 0 <= i < self.acc_x@.len() implies
                            #[trigger] acc_times_agree(*self, i) by {
                            assert(self.acc_x@ == pre.acc_x@.push(Point { time: t, value: x }));
                            assert(self.acc_y@ == pre.acc_y@.push(Point { time: t, value: y }));
                            assert(self.acc_z@ == pre.acc_z@.push(Point { time: t, value: z }));
                            if i < pre.acc_x@.len() {
                                assert(acc_times_agree(pre, i));
                            }
                        }
                    }
                },
                MeasurementSample::Ecg(v) => {
                    let t = sat_add_exec(ecg_start, sat_mul_exec(ecg_idx, ecg_timestep));
                    proof {
                        if ecg_idx > 0 {
                            lemma_sat_mul_mono((ecg_idx - 1) as u64, ecg_idx, ecg_timestep);
                        }
                        lemma_sat_add_geq(ecg_start, sat_mul(ecg_idx, ecg_timestep));
                        if self.ecg@.len() > 0 {
                            if ecg_idx == 0 {
                                assert(self.ecg@.last() == old(self).ecg@.last());
                            } else {
                                assert(self.ecg@.last() == routed_points(
                                    ecg_values(batch@.subrange(0, b as int)),
                                    ecg_start,
                                    ecg_timestep,
                                ).last());
                            }
                        }
                    }
                    self.ecg.add_point(t, v);
                    ecg_idx = ecg_idx + 1;
                    proof {
                        assert(self.ecg@ =~= old(self).ecg@ + routed_points(
                            ecg_values(batch@.subrange(0, b + 1)),
                            ecg_start,
                            ecg_timestep,
                        ));
                        assert(self.acc_x@ =~= old(self).acc_x@ + routed_points(
                            acc_axis_values(batch@.subrange(0, b + 1), 0),
                            acc_start,
                            acc_timestep,
                        ));
                        assert(self.acc_y@ =~= old(self).acc_y@ + routed_points(
                            acc_axis_values(batch@.subrange(0, b + 1), 1),
                            acc_start,
                            acc_timestep,
                        ));
                        assert(self.acc_z@ =~= old(self).acc_z@ + routed_points(
                            acc_axis_values(batch@.subrange(0, b + 1), 2),
                            acc_start,
                            acc_timestep,
                        ));
                        assert forall|i: int| 0 <= i < self.acc_x@.len() implies
                            #[trigger] acc_times_agree(*self, i) by {
                            assert(acc_times_agree(pre, i));
                        }
                    }
                },
            }
            b = b + 1;
        }
        proof {
            assert(batch@.subrange(0, batch@.len() as int) =~= batch@);
            assert forall|axis: int|
                0 <= axis < 3 implies #[trigger] self.acc_channel(axis)@ == old(
                self,
            ).acc_channel(axis)@ + routed_points(
                acc_axis_values(batch@, axis),
                acc_start,
                acc_timestep,
            ) by {}
        }
    }

    /// Handles one heart-rate update: the rate itself is stamped at `now`;
    /// absent beat intervals repeat the last known one; present beat
    /// intervals are spread evenly over the time since the previous update,
    /// after which the trailing window of them yields one new variability
    /// sample.
    #[verifier::rlimit(100)]
    #[verifier::spinoff_prover]
    pub fn handle_heart_rate(&mut self, now: u64, bpm: u16, rr_intervals: &Vec<u16>)
        requires
            old(self).wf(),
            old(self).accepts_update_at(now),
        ensures
            final(self).wf(),
            final(self).hr@ == old(self).hr@.push(Point { time: now, value: bpm as i32 }),
            final(self).ecg == old(self).ecg,
            final(self).acc_x == old(self).acc_x,
            final(self).acc_y == old(self).acc_y,
            final(self).acc_z == old(self).acc_z,
            final(self).hr.spec_sample_rate() == old(self).hr.spec_sample_rate(),
            final(self).rr.spec_sample_rate() == old(self).rr.spec_sample_rate(),
            final(self).hrv.spec_sample_rate() == old(self).hrv.spec_sample_rate(),
            rr_intervals@.len() == 0 ==> {
                &&& final(self).rr@ == (if old(self).rr@.len() > 0 {
                    old(self).rr@.push(Point { time: now, value: old(self).rr@.last().value })
                } else {
                    old(self).rr@
                })
                &&& final(self).hrv == old(self).hrv
            },
            rr_intervals@.len() > 0 ==> {
                let spacing = spec_rr_spacing(old(self).rr@, now, rr_intervals@.len() as u64);
                let new_rr = old(self).rr@ + rr_spread_points(rr_intervals@, now, spacing);
                let recent = recent_window(new_rr, RMSSD_WINDOW_NS);
                &&& final(self).rr@ == new_rr
                &&& if recent.len() >= 2 {
                    exists|rv: u64|
                        #[trigger] rmssd_bounds(recent, rv) && final(self).hrv@ == old(
                            self,
                        ).hrv@.push(Point { time: now, value: rmssd_clamped(rv) })
                } else {
                    final(self).hrv == old(self).hrv
                }
            },
    {
        self.hr.add_point(now, bpm as i32);
        let rr_len = rr_intervals.len();
        if rr_len == 0 {
            match self.rr.last_point() {
                Some(last) => {
                    self.rr.add_point(now, last.value);
                },
                None => {},
            }
        } else {
            let spacing: u64 = match self.rr.last_point() {
                Some(last) => (now - last.time) / (rr_len as u64),
                None => DEFAULT_RR_SPACING_NS,
            };
            proof {
                if old(self).rr@.len() > 0 {
                    let gap = now - old(self).rr@.last().time;
                    lemma_fundamental_div_mod(gap as int, rr_len as int);
                    assert((rr_len - 1) * spacing <= gap) by (nonlinear_arith)
                        requires
                            gap == rr_len * spacing + (gap as int % (rr_len as int)),
                            0 <= gap as int % (rr_len as int),
                            rr_len >= 1,
                            spacing >= 0,
                    {}
                }
            }
            let ghost spread = rr_spread_points(rr_intervals@, now, spacing);
            let mut i: usize = 0;
            proof {
                assert(self.rr@ =~= old(self).rr@ + spread.subrange(0, 0));
            }
            while i < rr_len
                invariant
                    i <= rr_len == rr_intervals@.len(),
                    spread == rr_spread_points(rr_intervals@, now, spacing),
                    self.rr@ == old(self).rr@ + spread.subrange(0, i as int),
                    self.rr.spec_sample_rate() == old(self).rr.spec_sample_rate(),
                    self.rr.wf(),
                    self.hr@ == old(self).hr@.push(Point { time: now, value: bpm as i32 }),
                    self.hr.wf(),
                    self.hr.spec_sample_rate() == old(self).hr.spec_sample_rate(),
                    self.hrv == old(self).hrv,
                    self.ecg == old(self).ecg,
                    self.acc_x == old(self).acc_x,
                    self.acc_y == old(self).acc_y,
                    self.acc_z == old(self).acc_z,
                    old(self).rr@.len() > 0 ==> (rr_len - 1) * spacing <= now - old(
                        self,
                    ).rr@.last().time,
                    old(self).wf(),
                    old(self).accepts_update_at(now),
                decreases rr_len - i,
            {
                let offs: u64 = (rr_len - 1 - i) as u64;
                let t = sat_sub_exec(now, sat_mul_exec(offs, spacing));
                proof {
                    if i == 0 {
                        if old(self).rr@.len() > 0 {
                            assert(sat_mul(offs, spacing) == offs * spacing);
                            assert(t >= old(self).rr@.last().time);
                        }
                    } else {
                        lemma_sat_mul_mono(offs, (rr_len - i) as u64, spacing);
                        assert(self.rr@.last() == spread[i - 1]);
                    }
                }
                self.rr.add_point(t, rr_intervals[i] as i32);
                proof {
                    assert(self.rr@ =~= old(self).rr@ + spread.subrange(0, (i + 1) as int));
                }
                i = i + 1;
            }
            proof {
                assert(spread.subrange(0, spread.len() as int) =~= spread);
            }
            let recent = self.rr.last_duration(RMSSD_WINDOW_NS);
            proof {
                let s = self.rr@;
                let cutoff = sat_sub(s.last().time, RMSSD_WINDOW_NS);
                lemma_first_at_or_after_char(s, cutoff);
                let i0 = first_at_or_after(s, cutoff);
                let from = choose|from: int|
                    {
                        &&& 0 <= from <= s.len()
                        &&& recent@ == s.subrange(from, s.len() as int)
                        &&& forall|k: int| 0 <= k < from ==> s[k].time < cutoff
                    };
                if from < i0 {
                    assert(s[from] == recent@[0]);
                    assert(s[from].time >= cutoff);
                    assert(s[from].time < cutoff);
                }
                if i0 < from {
                    assert(s[i0].time >= cutoff);
                    assert(s[i0].time < cutoff);
                }
                assert(recent@ == recent_window(s, RMSSD_WINDOW_NS));
            }
            if recent.len() >= 2 {
                let rv = rmssd(recent.as_slice());
                let value: i32 = if rv > i32::MAX as u64 {
                    i32::MAX
                } else {
                    rv as i32
                };
                self.hrv.add_point(now, value);
                proof {
                    assert(rmssd_bounds(recent@, rv));
                }
            }
        }
        proof {
            assert forall|i: int| 0 <= i < self.acc_x@.len() implies #[trigger] acc_times_agree(
                *self,
                i,
            ) by {
                assert(acc_times_agree(*old(self), i));
            }
        }
    }

    /// The accelerometer channel along one axis (0, 1 or 2).
    pub open spec fn acc_channel(self, axis: int) -> TimeSeries {
        if axis == 0 {
            self.acc_x
        } else if axis == 1 {
            self.acc_y
        } else {
            self.acc_z
        }
    }

    /// Counts the ECG and accelerometer samples of a batch in one pass.
    pub fn count_samples(data: &[MeasurementSample]) -> (r: (u64, u64))
        ensures
            r.0 == ecg_values(data@).len(),
            r.1 == acc_axis_values(data@, 0).len(),
    {
        let mut ecg_count: u64 = 0;
        let mut acc_count: u64 = 0;
        let mut b: usize = 0;
        proof {
            assert(ecg_values(data@.subrange(0, 0)) =~= Seq::<i32>::empty()) by {
                reveal(Seq::filter);
            }
            assert(acc_axis_values(data@.subrange(0, 0), 0) =~= Seq::<i32>::empty()) by {
                reveal(Seq::filter);
            }
        }
        while b < data.len()
            invariant
                b <= data@.len(),
                ecg_count == ecg_values(data@.subrange(0, b as int)).len(),
                acc_count == acc_axis_values(data@.subrange(0, b as int), 0).len(),
                ecg_count + acc_count <= b,
            decreases data@.len() - b,
        {
            proof {
                lemma_ecg_values_step(data@, b as int);
                lemma_acc_values_step(data@, b as int, 0);
            }
            match data[b] {
                MeasurementSample::Ecg(_) => {
                    ecg_count = ecg_count + 1;
                },
                MeasurementSample::Acc(_, _, _) => {
                    acc_count = acc_count + 1;
                },
            }
            b = b + 1;
        }
        proof {
            assert(data@.subrange(0, data@.len() as int) =~= data@);
        }
        (ecg_count, acc_count)
    }
}

} // verus!
