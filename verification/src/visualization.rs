//! Interpolation helpers that turn a sparse point window into a smooth,
//! evenly sampled curve for rendering.
//!
//! All value arithmetic is exact: a linear interpolation at time `t`
//! between points `p1` and `p2` yields
//! `p1.value + (p2.value - p1.value) * (t - p1.time) / (p2.time - p1.time)`,
//! rounded to the nearest whole number (halves away from zero).

use vstd::arithmetic::div_mod::lemma_fundamental_div_mod;
use vstd::prelude::*;

use crate::timeseries::{
    at_most_spec, before_spec, first_after, first_at_or_after, lemma_at_most_is_prefix,
    lemma_before_is_prefix, lemma_first_after_char, lemma_first_at_or_after_char, sat_sub,
    times_sorted, with_fill_spec, Point, TimeSeries,
};

verus! {

/// Display delay for smooth scrolling, in nanoseconds. Rendering this far
/// behind the wall clock hides the gap before low-rate samples arrive.
pub const DISPLAY_DELAY_NS: u64 = 1_500_000_000;

/// Time window duration for chart display.
#[derive(Debug, Clone, Copy)]
pub enum ChartWindow {
    TenSeconds,
    ThirtySeconds,
    OneMinute,
    TwoMinutes,
}

impl ChartWindow {
    /// The window duration in nanoseconds.
    pub fn as_nanos(&self) -> (r: u64)
        ensures
            r == (match self {
                ChartWindow::TenSeconds => 10_000_000_000u64,
                ChartWindow::ThirtySeconds => 30_000_000_000u64,
                ChartWindow::OneMinute => 60_000_000_000u64,
                ChartWindow::TwoMinutes => 120_000_000_000u64,
            }),
    {
        match self {
            ChartWindow::TenSeconds => 10_000_000_000,
            ChartWindow::ThirtySeconds => 30_000_000_000,
            ChartWindow::OneMinute => 60_000_000_000,
            ChartWindow::TwoMinutes => 120_000_000_000,
        }
    }
}

/// Relies on std::time::SystemTime::now: the wall clock, converted to
/// nanoseconds since the Unix epoch (0 if the clock reads before it).
#[verifier::external_body]
pub fn system_time_ns() -> u64 {
    match std::time::SystemTime::now().duration_since(std::time::UNIX_EPOCH) {
        Ok(d) => d.as_nanos() as u64,
        Err(_) => 0,
    }
}

/// The display reference time that `now` dictates: delayed by
/// `DISPLAY_DELAY_NS` when smooth streaming is on, `now` itself otherwise.
pub fn display_time_from(now: u64, smooth_streaming: bool) -> (r: u64)
    ensures
        r == (if smooth_streaming {
            sat_sub(now, DISPLAY_DELAY_NS)
        } else {
            now
        }),
{
    if smooth_streaming {
        if now >= DISPLAY_DELAY_NS {
            now - DISPLAY_DELAY_NS
        } else {
            0
        }
    } else {
        now
    }
}

/// The current display reference time. Reads the wall clock, so nothing
/// more is promised of the result; `display_time_from` carries the
/// verified relationship to the time read.
pub fn current_display_time(smooth_streaming: bool) -> u64 {
    let now = system_time_ns();
    display_time_from(now, smooth_streaming)
}

/// Division by `d > 0` rounded to the nearest whole number, with halves
/// rounded away from zero.
pub open spec fn round_div(n: int, d: int) -> int
    recommends
        d > 0,
{
    if n >= 0 {
        (2 * n + d) / (2 * d)
    } else {
        -((2 * (-n) + d) / (2 * d))
    }
}

/// Rounding a quotient that lies between `lo` and `hi` stays between them.
pub proof fn lemma_round_div_bounds(n: int, d: int, lo: int, hi: int)
    requires
        d > 0,
        lo * d <= n <= hi * d,
    ensures
        lo <= round_div(n, d) <= hi,
{
    if n >= 0 {
        let q = (2 * n + d) / (2 * d);
        lemma_fundamental_div_mod(2 * n + d, 2 * d);
        assert(lo <= q <= hi) by (nonlinear_arith)
            requires
                2 * n + d == 2 * d * q + ((2 * n + d) % (2 * d)),
                0 <= (2 * n + d) % (2 * d) < 2 * d,
                d > 0,
                lo * d <= n <= hi * d,
                n >= 0,
        {}
    } else {
        let q = (2 * (-n) + d) / (2 * d);
        lemma_fundamental_div_mod(2 * (-n) + d, 2 * d);
        assert(lo <= -q <= hi) by (nonlinear_arith)
            requires
                2 * (-n) + d == 2 * d * q + ((2 * (-n) + d) % (2 * d)),
                0 <= (2 * (-n) + d) % (2 * d) < 2 * d,
                d > 0,
                lo * d <= n <= hi * d,
                n < 0,
        {}
    }
}

/// Executable form of `round_div`, on magnitudes small enough that no
/// intermediate product overflows.
fn round_div_i128(n: i128, d: i128) -> (r: i128)
    requires
        0 < d <= 0x10_0000_0000_0000_0000_0000_0000i128,
        -0x10_0000_0000_0000_0000_0000_0000i128 <= n <= 0x10_0000_0000_0000_0000_0000_0000i128,
    ensures
        r == round_div(n as int, d as int),
{
    let neg = n < 0;
    let mag: u128 = if n >= 0 { n as u128 } else { (-n) as u128 };
    let du: u128 = d as u128;
    let q: u128 = (2 * mag + du) / (2 * du);
    proof {
        lemma_fundamental_div_mod((2 * mag + du) as int, (2 * du) as int);
        assert(q <= mag) by (nonlinear_arith)
            requires
                2 * mag + du == 2 * du * q + ((2 * mag + du) % (2 * du)),
                0 <= (2 * mag + du) % (2 * du) < 2 * du,
                du >= 1,
        {}
    }
    if neg {
        -(q as i128)
    } else {
        q as i128
    }
}

/// The exact interpolated value at time `t` on the segment from `p1` to
/// `p2`: `p1.value` plus the rounded proportional share of the value
/// difference.
pub open spec fn lerp_value(p1: Point, p2: Point, t: u64) -> int
    recommends
        p1.time < p2.time,
        p1.time <= t,
{
    p1.value + round_div((p2.value - p1.value) * (t - p1.time), p2.time - p1.time)
}

/// Linear interpolation between two points at a specific time. The result
/// always lies between the two values, so it fits in an `i32`.
pub fn interpolate_point(p1: &Point, p2: &Point, target_time: u64) -> (r: Point)
    requires
        p1.time < p2.time,
        p1.time <= target_time <= p2.time,
    ensures
        r.time == target_time,
        r.value == lerp_value(*p1, *p2, target_time),
        p1.value <= p2.value ==> p1.value <= r.value <= p2.value,
        p2.value <= p1.value ==> p2.value <= r.value <= p1.value,
{
    let dv: i128 = p2.value as i128 - p1.value as i128;
    let dt: i128 = (p2.time - p1.time) as i128;
    let dtp: i128 = (target_time - p1.time) as i128;
    proof {
        if dv >= 0 {
            assert(0 * dt <= dv * dtp <= dv * dt) by (nonlinear_arith)
                requires
                    0 <= dtp <= dt,
                    dv >= 0,
            {}
            assert(dv * dt <= 0x1_0000_0000_0000_0000_0000_0000i128) by (nonlinear_arith)
                requires
                    0 <= dv < 0x1_0000_0000i128,
                    0 < dt <= 0x1_0000_0000_0000_0000i128,
            {}
        } else {
            assert(dv * dt <= dv * dtp <= 0 * dt) by (nonlinear_arith)
                requires
                    0 <= dtp <= dt,
                    dv < 0,
            {}
            assert(dv * dt >= -0x1_0000_0000_0000_0000_0000_0000i128) by (nonlinear_arith)
                requires
                    -0x1_0000_0000i128 < dv < 0,
                    0 < dt <= 0x1_0000_0000_0000_0000i128,
            {}
        }
    }
    let num: i128 = dv * dtp;
    let rd = round_div_i128(num, dt);
    proof {
        if dv >= 0 {
            lemma_round_div_bounds(num as int, dt as int, 0, dv as int);
        } else {
            lemma_round_div_bounds(num as int, dt as int, dv as int, 0);
        }
    }
    let val: i128 = p1.value as i128 + rd;
    Point { time: target_time, value: val as i32 }
}

/// How many evenly spaced steps fill the gap between two points at roughly
/// `interval` nanoseconds apart (at least one).
pub open spec fn spec_num_steps(p1: Point, p2: Point, interval: u64) -> u64
    recommends
        interval > 0,
{
    let td = sat_sub(p2.time, p1.time);
    if td / interval >= 1 {
        (td / interval) as u64
    } else {
        1u64
    }
}

/// The time of the `k`-th interpolation step between two points.
pub open spec fn spec_step_time(p1: Point, p2: Point, interval: u64, k: int) -> u64 {
    let td = sat_sub(p2.time, p1.time);
    let ns = spec_num_steps(p1, p2, interval);
    (p1.time + (td * k) / (ns as int)) as u64
}

/// The value of the `k`-th interpolation step between two points.
pub open spec fn spec_step_value(p1: Point, p2: Point, interval: u64, k: int) -> int {
    p1.value + round_div((p2.value - p1.value) * k, spec_num_steps(p1, p2, interval) as int)
}

/// The `k`-th interpolation step between two points.
pub open spec fn spec_step_point(p1: Point, p2: Point, interval: u64, k: int) -> Point {
    Point {
        time: spec_step_time(p1, p2, interval, k),
        value: spec_step_value(p1, p2, interval, k) as i32,
    }
}

/// The first `count` interpolation steps that fall strictly inside the
/// window `(start, end)`.
pub open spec fn between_prefix_spec(
    p1: Point,
    p2: Point,
    interval: u64,
    start: u64,
    end: u64,
    count: int,
) -> Seq<Point> {
    Seq::new(count as nat, |k: int| spec_step_point(p1, p2, interval, k)).filter(
        |p: Point| start < p.time && p.time < end,
    )
}

/// All interpolation steps between two points that fall strictly inside
/// the window `(start, end)`.
pub open spec fn between_spec(p1: Point, p2: Point, interval: u64, start: u64, end: u64) -> Seq<
    Point,
> {
    between_prefix_spec(p1, p2, interval, start, end, spec_num_steps(p1, p2, interval) as int)
}

/// Evenly spaced interpolated points between two consecutive data points,
/// roughly `target_interval_ns` apart, restricted to the open display
/// window (the boundary instants are handled separately).
pub fn interpolate_between_points(
    p1: &Point,
    p2: &Point,
    target_interval_ns: u64,
    start_time: u64,
    end_time: u64,
) -> (r: Vec<Point>)
    requires
        target_interval_ns > 0,
    ensures
        r@ == between_spec(*p1, *p2, target_interval_ns, start_time, end_time),
{
    let mut result: Vec<Point> = Vec::new();
    let time_diff: u64 = if p2.time >= p1.time { p2.time - p1.time } else { 0 };
    let steps0: u64 = time_diff / target_interval_ns;
    let num_steps: u64 = if steps0 >= 1 { steps0 } else { 1 };
    let mut step: u64 = 0;
    proof {
        assert(between_prefix_spec(*p1, *p2, target_interval_ns, start_time, end_time, 0)
            =~= Seq::<Point>::empty()) by {
            reveal(Seq::filter);
        }
    }
    while step < num_steps
        invariant
            step <= num_steps,
            num_steps == spec_num_steps(*p1, *p2, target_interval_ns),
            time_diff == sat_sub(p2.time, p1.time),
            target_interval_ns > 0,
            result@ == between_prefix_spec(
                *p1,
                *p2,
                target_interval_ns,
                start_time,
                end_time,
                step as int,
            ),
        decreases num_steps - step,
    {
        proof {
            assert(time_diff as u128 * step as u128 <= u128::MAX) by (nonlinear_arith)
                requires
                    0 <= time_diff <= 0xffff_ffff_ffff_ffffu64,
                    0 <= step <= 0xffff_ffff_ffff_ffffu64,
            {}
        }
        let q128: u128 = (time_diff as u128 * step as u128) / (num_steps as u128);
        proof {
            lemma_fundamental_div_mod((time_diff as u128 * step as u128) as int,
                num_steps as int);
            assert(0 <= q128 <= time_diff) by (nonlinear_arith)
                requires
                    time_diff as u128 * step as u128 == num_steps as int * (q128 as int) + ((
                    time_diff as u128 * step as u128) as int % (num_steps as int)),
                    0 <= (time_diff as u128 * step as u128) as int % (num_steps as int),
                    0 <= step < num_steps,
                    time_diff >= 0,
            {}
            assert(p1.time + q128 <= p2.time || time_diff == 0);
        }
        let tk: u64 = p1.time + (q128 as u64);
        let dv: i128 = p2.value as i128 - p1.value as i128;
        proof {
            if dv >= 0 {
                assert(0 * (num_steps as i128) <= dv * (step as i128) <= dv * (num_steps
                    as i128) <= 0x1_0000_0000_0000_0000_0000_0000i128) by (nonlinear_arith)
                    requires
                        0 <= dv < 0x1_0000_0000i128,
                        0 <= step < num_steps <= 0xffff_ffff_ffff_ffffu64,
                {}
            } else {
                assert(-0x1_0000_0000_0000_0000_0000_0000i128 <= dv * (num_steps as i128) <= dv
                    * (step as i128) <= 0 * (num_steps as i128)) by (nonlinear_arith)
                    requires
                        -0x1_0000_0000i128 < dv < 0,
                        0 <= step < num_steps <= 0xffff_ffff_ffff_ffffu64,
                {}
            }
        }
        let num: i128 = dv * (step as i128);
        let rd = round_div_i128(num, num_steps as i128);
        proof {
            if dv >= 0 {
                lemma_round_div_bounds(num as int, num_steps as int, 0, dv as int);
            } else {
                lemma_round_div_bounds(num as int, num_steps as int, dv as int, 0);
            }
        }
        let val: i128 = p1.value as i128 + rd;
        let pt = Point { time: tk, value: val as i32 };
        proof {
            assert(pt == spec_step_point(*p1, *p2, target_interval_ns, step as int));
        }
        if tk > start_time && tk < end_time {
            result.push(pt);
        }
        proof {
            let f = |k: int| spec_step_point(*p1, *p2, target_interval_ns, k);
            let pred = |p: Point| start_time < p.time && p.time < end_time;
            let s_new = Seq::new((step + 1) as nat, f);
            assert(s_new.drop_last() =~= Seq::new(step as nat, f));
            assert(s_new.last() == pt);
            reveal(Seq::filter);
            assert(result@ == between_prefix_spec(
                *p1,
                *p2,
                target_interval_ns,
                start_time,
                end_time,
                step + 1,
            ));
        }
        step = step + 1;
    }
    result
}

/// An integer clamped to the `i32` range, the way a saturating narrowing
/// conversion behaves.
pub open spec fn clamp_i32(x: int) -> i32 {
    if x < i32::MIN {
        i32::MIN
    } else if x > i32::MAX {
        i32::MAX
    } else {
        x as i32
    }
}

/// Linear scan for the first index whose time is at least `t`.
fn scan_first_at_or_after(points: &[Point], t: u64) -> (i: usize)
    ensures
        i == first_at_or_after(points@, t),
{
    let n = points.len();
    let mut idx: usize = 0;
    while idx < n && points[idx].time < t
        invariant
            idx <= n == points@.len(),
            forall|k: int| 0 <= k < idx ==> points@[k].time < t,
        decreases n - idx,
    {
        idx = idx + 1;
    }
    proof {
        lemma_first_at_or_after_char(points@, t);
        let i_spec = first_at_or_after(points@, t);
        if idx < i_spec {
            assert(points@[idx as int].time >= t);
            assert(points@[idx as int].time < t);
        }
        if i_spec < idx {
            assert(points@[i_spec].time >= t);
            assert(points@[i_spec].time < t);
        }
    }
    idx
}

/// Linear scan for the first index whose time is strictly after `t`.
fn scan_first_after(points: &[Point], t: u64) -> (i: usize)
    ensures
        i == first_after(points@, t),
{
    let n = points.len();
    let mut idx: usize = 0;
    while idx < n && points[idx].time <= t
        invariant
            idx <= n == points@.len(),
            forall|k: int| 0 <= k < idx ==> points@[k].time <= t,
        decreases n - idx,
    {
        idx = idx + 1;
    }
    proof {
        lemma_first_after_char(points@, t);
        let i_spec = first_after(points@, t);
        if idx < i_spec {
            assert(points@[idx as int].time > t);
            assert(points@[idx as int].time <= t);
        }
        if i_spec < idx {
            assert(points@[i_spec].time > t);
            assert(points@[i_spec].time <= t);
        }
    }
    idx
}

/// What appending the start-boundary point does to an accumulator: when the
/// window's data starts late and a point precedes the window, the exact
/// interpolated point at the window start is appended.
pub open spec fn start_boundary_spec(acc: Seq<Point>, s: Seq<Point>, start: u64) -> Seq<Point> {
    let i = first_at_or_after(s, start);
    if 0 < i < s.len() {
        acc.push(Point { time: start, value: lerp_value(s[i - 1], s[i], start) as i32 })
    } else {
        acc
    }
}

/// Appends an interpolated point at the start boundary of the window, when
/// a pair of points straddles it.
pub fn add_start_boundary_point(result: &mut Vec<Point>, points: &[Point], start_time: u64)
    ensures
        final(result)@ == start_boundary_spec(old(result)@, points@, start_time),
{
    let idx = scan_first_at_or_after(points, start_time);
    proof {
        lemma_first_at_or_after_char(points@, start_time);
    }
    if idx > 0 && idx < points.len() {
        let p1 = points[idx - 1];
        let p2 = points[idx];
        let ip = interpolate_point(&p1, &p2, start_time);
        result.push(ip);
    }
}

/// What appending the end-boundary point does to an accumulator: an exact
/// interpolation when a pair straddles the window end, else a bounded
/// linear extrapolation from the last two points when the data has fallen
/// at most three natural gaps behind.
pub open spec fn end_boundary_spec(acc: Seq<Point>, s: Seq<Point>, end: u64) -> Seq<Point> {
    let j = first_after(s, end);
    if 0 < j < s.len() {
        acc.push(Point { time: end, value: lerp_value(s[j - 1], s[j], end) as i32 })
    } else if s.len() >= 2 && s[s.len() - 1].time < end {
        let p1 = s[s.len() - 2];
        let p2 = s[s.len() - 1];
        let td = p2.time - p1.time;
        if td > 0 && end - p2.time <= 3 * td {
            acc.push(
                Point {
                    time: end,
                    value: clamp_i32(
                        p2.value + round_div((p2.value - p1.value) * (end - p2.time), td),
                    ),
                },
            )
        } else {
            acc
        }
    } else {
        acc
    }
}

/// Appends an interpolated (or cautiously extrapolated) point at the end
/// boundary of the window.
pub fn add_end_boundary_point(result: &mut Vec<Point>, points: &[Point], end_time: u64)
    requires
        points@.len() >= 1,
        crate::timeseries::times_sorted(points@),
    ensures
        final(result)@ == end_boundary_spec(old(result)@, points@, end_time),
{
    let n = points.len();
    let j = scan_first_after(points, end_time);
    proof {
        lemma_first_after_char(points@, end_time);
    }
    if j > 0 && j < n {
        let p1 = points[j - 1];
        let p2 = points[j];
        let ip = interpolate_point(&p1, &p2, end_time);
        result.push(ip);
    } else if n >= 2 && points[n - 1].time < end_time {
        let p1 = points[n - 2];
        let p2 = points[n - 1];
        let td: u64 = p2.time - p1.time;
        let tfp2: u64 = end_time - p2.time;
        if td > 0 && tfp2 as u128 <= 3 * (td as u128) {
            let dv: i128 = p2.value as i128 - p1.value as i128;
            proof {
                if dv >= 0 {
                    assert(0 * (td as i128) <= dv * (tfp2 as i128) <= (3 * dv) * (td as i128)
                        <= 0x10_0000_0000_0000_0000_0000_0000i128) by (nonlinear_arith)
                        requires
                            0 <= dv < 0x1_0000_0000i128,
                            0 < td <= 0xffff_ffff_ffff_ffffu64,
                            0 <= tfp2 <= 3 * (td as i128),
                    {}
                } else {
                    assert((3 * dv) * (td as i128) <= dv * (tfp2 as i128) <= 0 * (td as i128)
                        && (3 * dv) * (td as i128) >= -0x10_0000_0000_0000_0000_0000_0000i128)
                        by (nonlinear_arith)
                        requires
                            -0x1_0000_0000i128 < dv < 0,
                            0 < td <= 0xffff_ffff_ffff_ffffu64,
                            0 <= tfp2 <= 3 * (td as i128),
                    {}
                }
            }
            let num: i128 = dv * (tfp2 as i128);
            let rd = round_div_i128(num, td as i128);
            proof {
                if dv >= 0 {
                    lemma_round_div_bounds(num as int, td as int, 0, 3 * dv as int);
                } else {
                    lemma_round_div_bounds(num as int, td as int, 3 * dv as int, 0);
                }
            }
            let val: i128 = p2.value as i128 + rd;
            let clamped: i32 = if val < i32::MIN as i128 {
                i32::MIN
            } else if val > i32::MAX as i128 {
                i32::MAX
            } else {
                val as i32
            };
            result.push(Point { time: end_time, value: clamped });
        }
    }
}

/// Sorts the accumulated points by time (insertion sort): afterwards the
/// times never decrease and the points are a rearrangement of the input.
pub fn sort_points_by_time(v: &mut Vec<Point>)
    ensures
        times_sorted(final(v)@),
        final(v)@.to_multiset() == old(v)@.to_multiset(),
{
    let n = v.len();
    if n <= 1 {
        return;
    }
    let mut i: usize = 1;
    while i < n
        invariant
            1 <= i <= n == v@.len(),
            v@.to_multiset() == old(v)@.to_multiset(),
            times_sorted(v@.subrange(0, i as int)),
        decreases n - i,
    {
        let mut j: usize = i;
        proof {
            assert forall|a: int, b: int|
                0 <= a <= b <= i && a != j && b != j implies #[trigger] v@[a].time
                <= #[trigger] v@[b].time by {
                assert(v@.subrange(0, i as int)[a] == v@[a]);
                assert(v@.subrange(0, i as int)[b] == v@[b]);
            }
        }
        while j > 0 && v[j - 1].time > v[j].time
            invariant
                0 <= j <= i < n == v@.len(),
                v@.to_multiset() == old(v)@.to_multiset(),
                forall|a: int, b: int|
                    0 <= a <= b <= i && a != j && b != j ==> v@[a].time <= v@[b].time,
                forall|b: int| j < b <= i ==> v@[j as int].time <= #[trigger] v@[b].time,
            decreases j,
        {
            let pa = v[j - 1];
            let pb = v[j];
            let ghost u = v@;
            v.set(j - 1, pb);
            v.set(j, pa);
            proof {
                broadcast use vstd::seq_lib::group_to_multiset_ensures;
                broadcast use vstd::seq_lib::to_multiset_update;

                assert(u.contains(u[j - 1]));
                assert(v@ =~= u.update(j - 1, u[j as int]).update(j as int, u[j - 1]));
                assert(v@.to_multiset() =~= u.to_multiset());
            }
            j = j - 1;
        }
        proof {
            assert forall|a: int, b: int| 0 <= a <= b <= i implies v@[a].time <= v@[b].time by {
                if a != j && b != j {
                } else if b == j && a < j {
                    assert(v@[j - 1].time <= v@[j as int].time);
                    if a < j - 1 {
                        assert(v@[a].time <= v@[j - 1].time);
                    }
                }
            }
            assert forall|a: int, b: int|
                0 <= a <= b < v@.subrange(0, (i + 1) as int).len() implies (#[trigger] v@.subrange(
                0,
                (i + 1) as int,
            )[a]).time <= (#[trigger] v@.subrange(0, (i + 1) as int)[b]).time by {
                assert(v@.subrange(0, (i + 1) as int)[a] == v@[a]);
                assert(v@.subrange(0, (i + 1) as int)[b] == v@[b]);
            }
            assert(times_sorted(v@.subrange(0, (i + 1) as int)));
        }
        i = i + 1;
    }
    proof {
        assert(v@.subrange(0, n as int) =~= v@);
    }
}

/// The interpolated points contributed by every consecutive pair of the
/// selection, in pair order.
pub open spec fn pairs_between_spec(sel: Seq<Point>, interval: u64, start: u64, end: u64) -> Seq<
    Point,
>
    decreases sel.len(),
{
    if sel.len() < 2 {
        Seq::empty()
    } else {
        pairs_between_spec(sel.drop_last(), interval, start, end) + between_spec(
            sel[sel.len() - 2],
            sel[sel.len() - 1],
            interval,
            start,
            end,
        )
    }
}

/// The real points of the selection that lie strictly inside the window.
pub open spec fn strict_inside_spec(sel: Seq<Point>, start: u64, end: u64) -> Seq<Point> {
    sel.filter(|p: Point| start < p.time && p.time < end)
}

/// Everything the interpolation pipeline accumulates before sorting: the
/// start-boundary point, the per-pair interpolated points, the real
/// interior points, and (on request) the end-boundary point.
pub open spec fn interp_accum_spec(
    sel: Seq<Point>,
    start: u64,
    end: u64,
    interval: u64,
    interpolate_end: bool,
) -> Seq<Point> {
    let a = start_boundary_spec(Seq::empty(), sel, start);
    let b = a + pairs_between_spec(sel, interval, start, end);
    let c = b + strict_inside_spec(sel, start, end);
    if interpolate_end {
        end_boundary_spec(c, sel, end)
    } else {
        c
    }
}

/// The slice of the series handed to the interpolation pipeline: the
/// in-window points widened by one point on each side, so boundary
/// interpolation has real neighbors.
pub open spec fn interp_selection(s: Seq<Point>, start: u64, end: u64) -> Seq<Point> {
    let lb = before_spec(s, start).len() as int;
    let ub = at_most_spec(s, end).len() as int;
    let lo = if lb > 0 {
        lb - 1
    } else {
        lb
    };
    let hi = if ub < s.len() {
        ub + 1
    } else {
        s.len() as int
    };
    s.subrange(lo, hi)
}

/// A smoothed point sequence across the window `[end_time - duration_ns,
/// end_time]`: exact boundary interpolation, evenly spaced interpolated
/// points at roughly `target_interval_ns`, and the real interior points,
/// sorted by time. Falls back to the forward-filled range when fewer than
/// two points surround the window.
#[verifier::rlimit(100)]
#[verifier::spinoff_prover]
pub fn range_from_time_interpolated(
    ts: &TimeSeries,
    end_time: u64,
    duration_ns: u64,
    target_interval_ns: u64,
    interpolate_end: bool,
) -> (r: Vec<Point>)
    requires
        ts.wf(),
        target_interval_ns > 0,
    ensures
        ts@.len() == 0 ==> r@ == Seq::<Point>::empty(),
        ts@.len() > 0 ==> {
            let start = sat_sub(end_time, duration_ns);
            let sel = interp_selection(ts@, start, end_time);
            if sel.len() < 2 {
                r@ == with_fill_spec(ts@, start, end_time)
            } else {
                times_sorted(r@) && r@.to_multiset() == interp_accum_spec(
                    sel,
                    start,
                    end_time,
                    target_interval_ns,
                    interpolate_end,
                ).to_multiset()
            }
        },
{
    if ts.is_empty() {
        return Vec::new();
    }
    let start_time = if end_time >= duration_ns {
        end_time - duration_ns
    } else {
        0
    };
    let start_idx = ts.lower_bound(start_time);
    let end_idx = ts.upper_bound(end_time);
    proof {
        lemma_before_is_prefix(ts@, start_time, start_idx as int);
        lemma_at_most_is_prefix(ts@, end_time, end_idx as int);
    }
    let actual_start = if start_idx > 0 {
        start_idx - 1
    } else {
        start_idx
    };
    let actual_end = if end_idx < ts.len() {
        end_idx + 1
    } else {
        ts.len()
    };
    proof {
        if start_idx > end_idx {
            assert(ts@[end_idx as int].time > end_time);
            assert(ts@[end_idx as int].time < start_time);
            assert(false);
        }
    }
    let sel = ts.slice(actual_start, actual_end);
    proof {
        assert(sel@ =~= interp_selection(ts@, start_time, end_time));
    }
    if sel.len() < 2 {
        return ts.range_from_time_with_fill(end_time, duration_ns);
    }
    let ghost a = start_boundary_spec(Seq::empty(), sel@, start_time);
    let mut result: Vec<Point> = Vec::new();
    add_start_boundary_point(&mut result, sel.as_slice(), start_time);
    let mut i: usize = 0;
    proof {
        assert(pairs_between_spec(sel@.subrange(0, 1), target_interval_ns, start_time, end_time)
            =~= Seq::<Point>::empty());
        assert(result@ =~= a + pairs_between_spec(
            sel@.subrange(0, 1),
            target_interval_ns,
            start_time,
            end_time,
        ));
    }
    let pair_end = sel.len() - 1;
    while i < pair_end
        invariant
            i <= pair_end,
            pair_end + 1 == sel@.len(),
            target_interval_ns > 0,
            result@ == a + pairs_between_spec(
                sel@.subrange(0, i + 1),
                target_interval_ns,
                start_time,
                end_time,
            ),
        decreases sel@.len() - i,
    {
        let p1 = sel[i];
        let p2 = sel[i + 1];
        let mut part = interpolate_between_points(&p1, &p2, target_interval_ns, start_time,
            end_time);
        result.append(&mut part);
        proof {
            let pre = sel@.subrange(0, i + 1);
            let post = sel@.subrange(0, i + 2);
            assert(post.drop_last() =~= pre);
            assert(post[post.len() - 2] == p1 && post[post.len() - 1] == p2);
        }
        i = i + 1;
    }
    proof {
        assert(sel@.subrange(0, sel@.len() as int) =~= sel@);
    }
    let ghost b = a + pairs_between_spec(sel@, target_interval_ns, start_time, end_time);
    let mut k: usize = 0;
    proof {
        assert(strict_inside_spec(sel@.subrange(0, 0), start_time, end_time)
            =~= Seq::<Point>::empty()) by {
            reveal(Seq::filter);
        }
        assert(result@ =~= b + strict_inside_spec(sel@.subrange(0, 0), start_time, end_time));
    }
    while k < sel.len()
        invariant
            k <= sel@.len(),
            result@ == b + strict_inside_spec(sel@.subrange(0, k as int), start_time, end_time),
        decreases sel@.len() - k,
    {
        let p = sel[k];
        if p.time > start_time && p.time < end_time {
            result.push(p);
        }
        proof {
            let pre = sel@.subrange(0, k as int);
            let post = sel@.subrange(0, (k + 1) as int);
            assert(post.drop_last() =~= pre);
            assert(post.last() == p);
            reveal(Seq::filter);
            assert(result@ =~= b + strict_inside_spec(post, start_time, end_time));
        }
        k = k + 1;
    }
    if interpolate_end {
        proof {
            assert forall|x: int, y: int| 0 <= x <= y < sel@.len() implies sel@[x].time
                <= sel@[y].time by {
                assert(sel@[x] == ts@[actual_start + x]);
                assert(sel@[y] == ts@[actual_start + y]);
            }
        }
        add_end_boundary_point(&mut result, sel.as_slice(), end_time);
    }
    proof {
        assert(result@ == interp_accum_spec(
            sel@,
            start_time,
            end_time,
            target_interval_ns,
            interpolate_end,
        ));
    }
    sort_points_by_time(&mut result);
    result
}


impl TimeSeries {
    /// The current display reference time, as `current_display_time`.
    pub fn current_display_time(smooth_streaming: bool) -> u64 {
        current_display_time(smooth_streaming)
    }

    /// The interpolation pipeline over this series, as the free
    /// `range_from_time_interpolated`.
    pub fn range_from_time_interpolated(
        &self,
        end_time: u64,
        duration_ns: u64,
        target_interval_ns: u64,
        interpolate_end: bool,
    ) -> (r: Vec<Point>)
        requires
            self.wf(),
            target_interval_ns > 0,
        ensures
            self@.len() == 0 ==> r@ == Seq::<Point>::empty(),
            self@.len() > 0 ==> {
                let start = sat_sub(end_time, duration_ns);
                let sel = interp_selection(self@, start, end_time);
                if sel.len() < 2 {
                    r@ == with_fill_spec(self@, start, end_time)
                } else {
                    times_sorted(r@) && r@.to_multiset() == interp_accum_spec(
                        sel,
                        start,
                        end_time,
                        target_interval_ns,
                        interpolate_end,
                    ).to_multiset()
                }
            },
    {
        range_from_time_interpolated(self, end_time, duration_ns, target_interval_ns,
            interpolate_end)
    }
}

} // verus!
