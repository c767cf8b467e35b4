//! Per-channel ordered store of timestamped samples.
//!
//! A `TimeSeries` owns an append-only sequence of `Point`s whose times are
//! non-decreasing, a nominal sample rate, and the time of its first sample.
//! Windowed queries (`last_points`, `last_duration`, `range_from_time`,
//! `range_from_time_with_fill`) locate their boundaries by binary search.

use vstd::prelude::*;

verus! {

/// Nanoseconds in one second.
pub const NANOS_PER_SECOND: u64 = 1_000_000_000;

/// One sample: a signed 32-bit value at a nanosecond timestamp.
#[derive(Clone, Copy, PartialEq, Eq, Structural, Debug)]
pub struct Point {
    pub time: u64,
    pub value: i32,
}

/// Saturating subtraction on u64, as a spec-level formula.
pub open spec fn sat_sub(a: u64, b: u64) -> u64 {
    if a >= b {
        (a - b) as u64
    } else {
        0u64
    }
}

/// Saturating addition on u64, as a spec-level formula.
pub open spec fn sat_add(a: u64, b: u64) -> u64 {
    if a + b <= u64::MAX {
        (a + b) as u64
    } else {
        u64::MAX
    }
}

/// Saturating multiplication on u64, as a spec-level formula.
pub open spec fn sat_mul(a: u64, b: u64) -> u64 {
    if a * b <= u64::MAX {
        (a * b) as u64
    } else {
        u64::MAX
    }
}

/// Times of the sequence never decrease.
pub open spec fn times_sorted(s: Seq<Point>) -> bool {
    forall|i: int, j: int| 0 <= i <= j < s.len() ==> s[i].time <= s[j].time
}

/// A point lies inside the closed window `[start, end]`.
pub open spec fn in_window(p: Point, start: u64, end: u64) -> bool {
    start <= p.time <= end
}

/// The nominal spacing between samples at `rate` Hz, in nanoseconds.
pub open spec fn spec_expected_interval(rate: u64) -> u64 {
    if rate == 0 {
        0u64
    } else {
        (NANOS_PER_SECOND as u64 / rate) as u64
    }
}

/// A gap: the spacing from the last point to `ts` exceeds 1.5 times the
/// expected interval.
pub open spec fn spec_has_gap(s: Seq<Point>, rate: u64, ts: u64) -> bool {
    let expected = spec_expected_interval(rate);
    s.len() > 0 && expected > 0 && sat_sub(ts, s.last().time) > expected + expected / 2
}

/// How many whole expected intervals fit in the spacing from the last point
/// to `ts`, beyond the one that is always expected.
pub open spec fn spec_missing_samples(s: Seq<Point>, rate: u64, ts: u64) -> usize {
    let expected = spec_expected_interval(rate);
    if s.len() > 0 && expected > 0 {
        let expected_samples = (sat_sub(ts, s.last().time) / expected) as usize;
        if expected_samples >= 1 {
            (expected_samples - 1) as usize
        } else {
            0usize
        }
    } else {
        0usize
    }
}

/// The in-window points of `s`, in order: what a range query over the
/// closed window `[start, end]` returns.
pub open spec fn window_spec(s: Seq<Point>, start: u64, end: u64) -> Seq<Point> {
    s.filter(|p: Point| in_window(p, start, end))
}

/// The points of `s` that lie strictly before `start`, in order.
pub open spec fn before_spec(s: Seq<Point>, start: u64) -> Seq<Point> {
    s.filter(|p: Point| p.time < start)
}

/// What a forward-filled range query returns: the in-window points, headed
/// by a synthetic point at the window start carrying the last prior value,
/// whenever the window's data starts late and prior data exists.
pub open spec fn with_fill_spec(s: Seq<Point>, start: u64, end: u64) -> Seq<Point> {
    let f = window_spec(s, start, end);
    let before = before_spec(s, start);
    if f.len() > 0 && f[0].time > start && before.len() > 0 {
        seq![Point { time: start, value: before.last().value }] + f
    } else {
        f
    }
}

/// In a sequence whose in-window points occupy exactly the index range
/// `[i, j)`, filtering by the window is the same as taking that subrange.
pub proof fn lemma_window_is_subrange(s: Seq<Point>, start: u64, end: u64, i: int, j: int)
    requires
        0 <= i <= j <= s.len(),
        forall|k: int| 0 <= k < i ==> !in_window(s[k], start, end),
        forall|k: int| i <= k < j ==> in_window(s[k], start, end),
        forall|k: int| j <= k < s.len() ==> !in_window(s[k], start, end),
    ensures
        window_spec(s, start, end) == s.subrange(i, j),
    decreases s.len(),
{
    reveal(Seq::filter);
    if s.len() == 0 {
        assert(window_spec(s, start, end) =~= s.subrange(i, j));
    } else {
        let dl = s.drop_last();
        if j == s.len() {
            if i < j {
                lemma_window_is_subrange(dl, start, end, i, j - 1);
                assert(dl.subrange(i, j - 1) =~= s.subrange(i, j - 1));
                assert(window_spec(s, start, end) =~= s.subrange(i, j));
            } else {
                lemma_window_is_subrange(dl, start, end, i - 1, j - 1);
                assert(dl.subrange(i - 1, j - 1) =~= s.subrange(i, j));
                assert(window_spec(s, start, end) =~= s.subrange(i, j));
            }
        } else {
            lemma_window_is_subrange(dl, start, end, i, j);
            assert(dl.subrange(i, j) =~= s.subrange(i, j));
            assert(window_spec(s, start, end) =~= s.subrange(i, j));
        }
    }
}

/// The points of `s` whose time is at most `t`, in order.
pub open spec fn at_most_spec(s: Seq<Point>, t: u64) -> Seq<Point> {
    s.filter(|p: Point| p.time <= t)
}

/// In a sequence whose points at or before `t` occupy exactly the index
/// range `[0, j)`, filtering by "at most `t`" is the same as taking that
/// prefix.
pub proof fn lemma_at_most_is_prefix(s: Seq<Point>, t: u64, j: int)
    requires
        0 <= j <= s.len(),
        forall|k: int| 0 <= k < j ==> s[k].time <= t,
        forall|k: int| j <= k < s.len() ==> s[k].time > t,
    ensures
        at_most_spec(s, t) == s.subrange(0, j),
    decreases s.len(),
{
    reveal(Seq::filter);
    if s.len() == 0 {
        assert(at_most_spec(s, t) =~= s.subrange(0, j));
    } else {
        let dl = s.drop_last();
        if j == s.len() {
            lemma_at_most_is_prefix(dl, t, j - 1);
            assert(dl.subrange(0, j - 1) =~= s.subrange(0, j - 1));
            assert(at_most_spec(s, t) =~= s.subrange(0, j));
        } else {
            lemma_at_most_is_prefix(dl, t, j);
            assert(dl.subrange(0, j) =~= s.subrange(0, j));
            assert(at_most_spec(s, t) =~= s.subrange(0, j));
        }
    }
}

/// In a sequence whose points before `start` occupy exactly the index range
/// `[0, i)`, filtering by "before start" is the same as taking that prefix.
pub proof fn lemma_before_is_prefix(s: Seq<Point>, start: u64, i: int)
    requires
        0 <= i <= s.len(),
        forall|k: int| 0 <= k < i ==> s[k].time < start,
        forall|k: int| i <= k < s.len() ==> s[k].time >= start,
    ensures
        before_spec(s, start) == s.subrange(0, i),
    decreases s.len(),
{
    reveal(Seq::filter);
    if s.len() == 0 {
        assert(before_spec(s, start) =~= s.subrange(0, i));
    } else {
        let dl = s.drop_last();
        if i == s.len() {
            lemma_before_is_prefix(dl, start, i - 1);
            assert(dl.subrange(0, i - 1) =~= s.subrange(0, i - 1));
            assert(before_spec(s, start) =~= s.subrange(0, i));
        } else {
            lemma_before_is_prefix(dl, start, i);
            assert(dl.subrange(0, i) =~= s.subrange(0, i));
            assert(before_spec(s, start) =~= s.subrange(0, i));
        }
    }
}

/// The first index whose time is at least `t` (the length, if none).
pub open spec fn first_at_or_after(s: Seq<Point>, t: u64) -> int
    decreases s.len(),
{
    if s.len() == 0 {
        0
    } else if s[0].time >= t {
        0
    } else {
        1 + first_at_or_after(s.drop_first(), t)
    }
}

/// The first index whose time is strictly after `t` (the length, if none).
pub open spec fn first_after(s: Seq<Point>, t: u64) -> int
    decreases s.len(),
{
    if s.len() == 0 {
        0
    } else if s[0].time > t {
        0
    } else {
        1 + first_after(s.drop_first(), t)
    }
}

/// `first_at_or_after` is the unique boundary: everything before it is
/// earlier than `t`, and the index itself (when in range) is not.
pub proof fn lemma_first_at_or_after_char(s: Seq<Point>, t: u64)
    ensures
        0 <= first_at_or_after(s, t) <= s.len(),
        forall|k: int| 0 <= k < first_at_or_after(s, t) ==> s[k].time < t,
        first_at_or_after(s, t) < s.len() ==> s[first_at_or_after(s, t)].time >= t,
    decreases s.len(),
{
    if s.len() == 0 {
    } else if s[0].time >= t {
    } else {
        lemma_first_at_or_after_char(s.drop_first(), t);
        assert forall|k: int| 0 <= k < first_at_or_after(s, t) implies s[k].time < t by {
            if k > 0 {
                assert(s.drop_first()[k - 1] == s[k]);
            }
        }
        if first_at_or_after(s, t) < s.len() {
            assert(s.drop_first()[first_at_or_after(s, t) - 1] == s[first_at_or_after(s, t)]);
        }
    }
}

/// `first_after` is the unique boundary: everything before it is at or
/// before `t`, and the index itself (when in range) is after.
pub proof fn lemma_first_after_char(s: Seq<Point>, t: u64)
    ensures
        0 <= first_after(s, t) <= s.len(),
        forall|k: int| 0 <= k < first_after(s, t) ==> s[k].time <= t,
        first_after(s, t) < s.len() ==> s[first_after(s, t)].time > t,
    decreases s.len(),
{
    if s.len() == 0 {
    } else if s[0].time > t {
    } else {
        lemma_first_after_char(s.drop_first(), t);
        assert forall|k: int| 0 <= k < first_after(s, t) implies s[k].time <= t by {
            if k > 0 {
                assert(s.drop_first()[k - 1] == s[k]);
            }
        }
        if first_after(s, t) < s.len() {
            assert(s.drop_first()[first_after(s, t) - 1] == s[first_after(s, t)]);
        }
    }
}


/// Monotonic append, observed: when points were appended in non-decreasing
/// time order, a windowed range query returns a contiguous run of the
/// stored sequence — exactly the appended order — and its times never
/// decrease.
pub proof fn lemma_monotonic_append_observed(s: Seq<Point>, start: u64, end: u64)
    requires
        times_sorted(s),
    ensures
        exists|i: int, j: int|
            0 <= i <= j <= s.len() && window_spec(s, start, end) == s.subrange(i, j),
        times_sorted(window_spec(s, start, end)),
{
    lemma_first_at_or_after_char(s, start);
    lemma_first_after_char(s, end);
    let j = first_after(s, end);
    let i = if start > end {
        j
    } else {
        first_at_or_after(s, start)
    };
    if i > j {
        if j < s.len() {
            assert(s[j].time > end);
            assert(s[j].time < start);
        }
        assert(false);
    }
    assert forall|k: int| i <= k < j implies in_window(s[k], start, end) by {
        assert(s[k].time >= start);
        assert(s[k].time <= end);
    }
    lemma_window_is_subrange(s, start, end, i, j);
    assert(0 <= i <= j <= s.len() && window_spec(s, start, end) == s.subrange(i, j));
    assert forall|a: int, b: int|
        0 <= a <= b < window_spec(s, start, end).len() implies (#[trigger] window_spec(
        s,
        start,
        end,
    )[a]).time <= (#[trigger] window_spec(s, start, end)[b]).time by {
        assert(window_spec(s, start, end)[a] == s[i + a]);
        assert(window_spec(s, start, end)[b] == s[i + b]);
    }
}

/// Time conversion units.
#[derive(Debug, Clone, Copy)]
pub enum TimeUnit {
    Nanoseconds,
    Seconds,
}

impl TimeUnit {
    /// Nanoseconds per one unit of this kind.
    pub fn nanos_per_unit(&self) -> (r: u64)
        ensures
            r == (match self {
                TimeUnit::Nanoseconds => 1u64,
                TimeUnit::Seconds => NANOS_PER_SECOND,
            }),
    {
        match self {
            TimeUnit::Nanoseconds => 1,
            TimeUnit::Seconds => NANOS_PER_SECOND,
        }
    }
}

/// Per-channel ordered store of points with a nominal sample rate.
pub struct TimeSeries {
    data: Vec<Point>,
    sample_rate: u64,
    start_time: Option<u64>,
}

impl View for TimeSeries {
    type V = Seq<Point>;

    closed spec fn view(&self) -> Seq<Point> {
        self.data@
    }
}

impl TimeSeries {
    /// The nominal sample rate, in Hz.
    pub closed spec fn spec_sample_rate(self) -> u64 {
        self.sample_rate
    }

    /// The time of the first point ever appended, if any.
    pub closed spec fn spec_start_time(self) -> Option<u64> {
        self.start_time
    }

    /// Well-formedness: times never decrease, and `start_time` is exactly
    /// the time of the first point (absent while the series is empty).
    pub open spec fn wf(self) -> bool {
        &&& times_sorted(self@)
        &&& self@.len() > 0 ==> self.spec_start_time() == Some(self@[0].time)
        &&& self@.len() == 0 ==> self.spec_start_time() is None
    }

    pub fn new(sample_rate: u64) -> (r: TimeSeries)
        ensures
            r.wf(),
            r@ =~= Seq::<Point>::empty(),
            r.spec_sample_rate() == sample_rate,
            r.spec_start_time() is None,
    {
        TimeSeries { data: Vec::new(), sample_rate, start_time: None }
    }

    pub fn set_sample_rate(&mut self, rate: u64)
        ensures
            final(self)@ == old(self)@,
            final(self).spec_sample_rate() == rate,
            final(self).spec_start_time() == old(self).spec_start_time(),
            old(self).wf() ==> final(self).wf(),
    {
        self.sample_rate = rate;
    }

    pub fn sample_rate(&self) -> (r: u64)
        ensures
            r == self.spec_sample_rate(),
    {
        self.sample_rate
    }

    pub fn len(&self) -> (r: usize)
        ensures
            r == self@.len(),
    {
        self.data.len()
    }

    pub fn is_empty(&self) -> (r: bool)
        ensures
            r == (self@.len() == 0),
    {
        self.data.len() == 0
    }

    /// The most recently appended point, if any.
    pub fn last_point(&self) -> (r: Option<Point>)
        ensures
            self@.len() == 0 ==> r is None,
            self@.len() > 0 ==> r == Some(self@.last()),
    {
        if self.data.len() == 0 {
            None
        } else {
            Some(self.data[self.data.len() - 1])
        }
    }

    /// Appends a point. Callers guarantee monotone times; ordering is not
    /// re-checked at run time, so out-of-order input is excluded here.
    pub fn add_point(&mut self, time: u64, value: i32)
        requires
            old(self).wf(),
            old(self)@.len() > 0 ==> time >= old(self)@.last().time,
        ensures
            final(self).wf(),
            final(self)@ == old(self)@.push(Point { time, value }),
            final(self).spec_sample_rate() == old(self).spec_sample_rate(),
            final(self).spec_start_time() == (if old(self)@.len() == 0 {
                Some(time)
            } else {
                old(self).spec_start_time()
            }),
    {
        if self.start_time.is_none() {
            self.start_time = Some(time);
        }
        self.data.push(Point { time, value });
    }

    /// First index whose time is at least `t` (all of the sequence, if none).
    pub fn lower_bound(&self, t: u64) -> (r: usize)
        requires
            self.wf(),
        ensures
            r <= self@.len(),
            forall|k: int| 0 <= k < r ==> self@[k].time < t,
            forall|k: int| r <= k < self@.len() ==> self@[k].time >= t,
    {
        let mut lo: usize = 0;
        let mut hi: usize = self.data.len();
        while lo < hi
            invariant
                lo <= hi <= self@.len(),
                self.wf(),
                forall|k: int| 0 <= k < lo ==> self@[k].time < t,
                forall|k: int| hi <= k < self@.len() ==> self@[k].time >= t,
            decreases hi - lo,
        {
            let mid = lo + (hi - lo) / 2;
            if self.data[mid].time < t {
                lo = mid + 1;
            } else {
                hi = mid;
            }
        }
        lo
    }

    /// First index whose time is strictly greater than `t`.
    pub fn upper_bound(&self, t: u64) -> (r: usize)
        requires
            self.wf(),
        ensures
            r <= self@.len(),
            forall|k: int| 0 <= k < r ==> self@[k].time <= t,
            forall|k: int| r <= k < self@.len() ==> self@[k].time > t,
    {
        let mut lo: usize = 0;
        let mut hi: usize = self.data.len();
        while lo < hi
            invariant
                lo <= hi <= self@.len(),
                self.wf(),
                forall|k: int| 0 <= k < lo ==> self@[k].time <= t,
                forall|k: int| hi <= k < self@.len() ==> self@[k].time > t,
            decreases hi - lo,
        {
            let mid = lo + (hi - lo) / 2;
            if self.data[mid].time <= t {
                lo = mid + 1;
            } else {
                hi = mid;
            }
        }
        lo
    }

    /// Copies `self@.subrange(from, to)` out as a fresh vector.
    fn copy_range(&self, from: usize, to: usize) -> (r: Vec<Point>)
        requires
            from <= to <= self@.len(),
        ensures
            r@ == self@.subrange(from as int, to as int),
    {
        let mut r: Vec<Point> = Vec::new();
        let mut i = from;
        while i < to
            invariant
                from <= i <= to <= self@.len(),
                r@ == self@.subrange(from as int, i as int),
            decreases to - i,
        {
            r.push(self.data[i]);
            proof {
                assert(r@ =~= self@.subrange(from as int, (i + 1) as int));
            }
            i = i + 1;
        }
        r
    }

    /// The points at indices `[from, to)`, as a fresh vector.
    pub fn slice(&self, from: usize, to: usize) -> (r: Vec<Point>)
        requires
            from <= to <= self@.len(),
        ensures
            r@ == self@.subrange(from as int, to as int),
    {
        self.copy_range(from, to)
    }

    /// The final `n` points (all of them, if fewer exist).
    pub fn last_points(&self, n: usize) -> (r: Vec<Point>)
        requires
            self.wf(),
        ensures
            r@ == self@.subrange(
                self@.len() - (if n <= self@.len() { n as int } else { self@.len() as int }),
                self@.len() as int,
            ),
    {
        let len = self.data.len();
        let from = if n <= len { len - n } else { 0 };
        self.copy_range(from, len)
    }

    /// All points from the last `duration_ns` nanoseconds, measured back
    /// from the latest timestamp.
    pub fn last_duration(&self, duration_ns: u64) -> (r: Vec<Point>)
        requires
            self.wf(),
        ensures
            self@.len() == 0 ==> r@ == Seq::<Point>::empty(),
            self@.len() > 0 ==> {
                let cutoff = sat_sub(self@.last().time, duration_ns);
                r@ == self@.subrange(first_at_or_after(self@, cutoff), self@.len() as int)
            },
    {
        if self.data.len() == 0 {
            return Vec::new();
        }
        let latest = self.data[self.data.len() - 1].time;
        let cutoff = if latest >= duration_ns { latest - duration_ns } else { 0 };
        let start_idx = self.lower_bound(cutoff);
        proof {
            lemma_first_at_or_after_char(self@, cutoff);
            let i0 = first_at_or_after(self@, cutoff);
            if start_idx < i0 {
                assert(self@[start_idx as int].time >= cutoff);
                assert(self@[start_idx as int].time < cutoff);
            }
            if i0 < start_idx {
                assert(self@[i0].time >= cutoff);
                assert(self@[i0].time < cutoff);
            }
        }
        self.copy_range(start_idx, self.data.len())
    }

    /// All points whose time lies in the closed window
    /// `[end_time - duration_ns, end_time]`, in stored order.
    pub fn range_from_time(&self, end_time: u64, duration_ns: u64) -> (r: Vec<Point>)
        requires
            self.wf(),
        ensures
            r@ == window_spec(self@, sat_sub(end_time, duration_ns), end_time),
    {
        let start_time = if end_time >= duration_ns { end_time - duration_ns } else { 0 };
        let i = self.lower_bound(start_time);
        let j = self.upper_bound(end_time);
        proof {
            if i > j {
                assert(self@[j as int].time > end_time);
                assert(self@[j as int].time < start_time);
                assert(false);
            }
            lemma_window_is_subrange(self@, start_time, end_time, i as int, j as int);
        }
        self.copy_range(i, j)
    }

    /// As `range_from_time`, but when the first in-window point sits strictly
    /// after the window start and an earlier point exists, a synthetic point
    /// at exactly the window start carries that earlier point's value forward.
    pub fn range_from_time_with_fill(&self, end_time: u64, duration_ns: u64) -> (r: Vec<Point>)
        requires
            self.wf(),
        ensures
            r@ == with_fill_spec(self@, sat_sub(end_time, duration_ns), end_time),
    {
        let start_time = if end_time >= duration_ns { end_time - duration_ns } else { 0 };
        let i = self.lower_bound(start_time);
        let j = self.upper_bound(end_time);
        proof {
            if i > j {
                assert(self@[j as int].time > end_time);
                assert(self@[j as int].time < start_time);
                assert(false);
            }
            lemma_window_is_subrange(self@, start_time, end_time, i as int, j as int);
            lemma_before_is_prefix(self@, start_time, i as int);
        }
        let in_range = self.copy_range(i, j);
        if in_range.len() > 0 && in_range[0].time > start_time && i > 0 {
            let fill = Point { time: start_time, value: self.data[i - 1].value };
            let mut result: Vec<Point> = Vec::new();
            result.push(fill);
            let mut k: usize = 0;
            while k < in_range.len()
                invariant
                    k <= in_range@.len(),
                    result@ == seq![fill] + in_range@.subrange(0, k as int),
                decreases in_range@.len() - k,
            {
                result.push(in_range[k]);
                proof {
                    assert(result@ =~= seq![fill] + in_range@.subrange(0, (k + 1) as int));
                }
                k = k + 1;
            }
            proof {
                assert(in_range@.subrange(0, in_range@.len() as int) =~= in_range@);
            }
            result
        } else {
            in_range
        }
    }

    /// The nominal spacing between samples, in nanoseconds (0 when the
    /// rate itself is 0).
    pub fn expected_interval_ns(&self) -> (r: u64)
        ensures
            r == spec_expected_interval(self.spec_sample_rate()),
    {
        if self.sample_rate == 0 {
            return 0;
        }
        NANOS_PER_SECOND / self.sample_rate
    }

    /// Whether the spacing from the last point to `new_timestamp` exceeds
    /// 1.5 times the expected interval.
    pub fn has_gap(&self, new_timestamp: u64) -> (r: bool)
        ensures
            r == spec_has_gap(self@, self.spec_sample_rate(), new_timestamp),
    {
        if let Some(last) = self.last_point() {
            let expected = self.expected_interval_ns();
            if expected > 0 {
                let actual_gap = if new_timestamp >= last.time {
                    new_timestamp - last.time
                } else {
                    0
                };
                return actual_gap > expected + expected / 2;
            }
        }
        false
    }

    /// How many samples appear to be missing before `new_timestamp`, going
    /// by the expected interval.
    pub fn missing_samples(&self, new_timestamp: u64) -> (r: usize)
        ensures
            r == spec_missing_samples(self@, self.spec_sample_rate(), new_timestamp),
    {
        if let Some(last) = self.last_point() {
            let expected = self.expected_interval_ns();
            if expected > 0 {
                let actual_gap = if new_timestamp >= last.time {
                    new_timestamp - last.time
                } else {
                    0
                };
                let expected_samples = (actual_gap / expected) as usize;
                return if expected_samples >= 1 { expected_samples - 1 } else { 0 };
            }
        }
        0
    }

    /// The fixed display window `[latest - duration_ns, latest]` (or
    /// `[0, duration_ns]` while empty).
    pub fn display_time_range(&self, duration_ns: u64) -> (r: (u64, u64))
        ensures
            self@.len() == 0 ==> r == (0u64, duration_ns),
            self@.len() > 0 ==> r == (sat_sub(self@.last().time, duration_ns), self@.last().time),
    {
        if self.data.len() == 0 {
            return (0, duration_ns);
        }
        let latest = self.data[self.data.len() - 1].time;
        let start = if latest >= duration_ns { latest - duration_ns } else { 0 };
        (start, latest)
    }
}

/// Sum of squared successive value differences over a run of points.
pub open spec fn sq_diff_total(s: Seq<Point>) -> int
    decreases s.len(),
{
    if s.len() < 2 {
        0
    } else {
        sq_diff_total(s.drop_last()) + (s[s.len() - 1].value - s[s.len() - 2].value) * (s[s.len()
            - 1].value - s[s.len() - 2].value)
    }
}

/// The earliest and latest timestamps among the points (`None` when empty).
pub fn min_max_time(points: &[Point]) -> (r: Option<(u64, u64)>)
    ensures
        r is None <==> points@.len() == 0,
        r is Some ==> {
            let (mn, mx) = r->Some_0;
            &&& forall|k: int| 0 <= k < points@.len() ==> mn <= #[trigger] points@[k].time <= mx
            &&& exists|k: int| 0 <= k < points@.len() && points@[k].time == mn
            &&& exists|k: int| 0 <= k < points@.len() && points@[k].time == mx
        },
{
    if points.len() == 0 {
        return None;
    }
    let mut mn = points[0].time;
    let mut mx = points[0].time;
    let mut i: usize = 1;
    while i < points.len()
        invariant
            1 <= i <= points@.len(),
            forall|k: int| 0 <= k < i ==> mn <= #[trigger] points@[k].time <= mx,
            exists|k: int| 0 <= k < i && points@[k].time == mn,
            exists|k: int| 0 <= k < i && points@[k].time == mx,
        decreases points@.len() - i,
    {
        let t = points[i].time;
        if t < mn {
            mn = t;
        }
        if t > mx {
            mx = t;
        }
        i = i + 1;
    }
    Some((mn, mx))
}

/// The smallest and largest values among the points (`None` when empty).
pub fn min_max_value(points: &[Point]) -> (r: Option<(i32, i32)>)
    ensures
        r is None <==> points@.len() == 0,
        r is Some ==> {
            let (mn, mx) = r->Some_0;
            &&& forall|k: int| 0 <= k < points@.len() ==> mn <= #[trigger] points@[k].value <= mx
            &&& exists|k: int| 0 <= k < points@.len() && points@[k].value == mn
            &&& exists|k: int| 0 <= k < points@.len() && points@[k].value == mx
        },
{
    if points.len() == 0 {
        return None;
    }
    let mut mn = points[0].value;
    let mut mx = points[0].value;
    let mut i: usize = 1;
    while i < points.len()
        invariant
            1 <= i <= points@.len(),
            forall|k: int| 0 <= k < i ==> mn <= #[trigger] points@[k].value <= mx,
            exists|k: int| 0 <= k < i && points@[k].value == mn,
            exists|k: int| 0 <= k < i && points@[k].value == mx,
        decreases points@.len() - i,
    {
        let v = points[i].value;
        if v < mn {
            mn = v;
        }
        if v > mx {
            mx = v;
        }
        i = i + 1;
    }
    Some((mn, mx))
}

/// Root-mean-square of successive differences, rounded down to a whole
/// number: the greatest `r` with `r * r <= mean`, where `mean` is the
/// average of the squared successive value differences.
pub fn rmssd(points: &[Point]) -> (r: u64)
    requires
        points@.len() >= 2,
    ensures
        (r * r) * (points@.len() - 1) <= sq_diff_total(points@),
        sq_diff_total(points@) < ((r + 1) * (r + 1)) * (points@.len() - 1),
        r <= 0xffff_ffffu64,
{
    let n = points.len();
    let mut sum: u128 = 0;
    let mut i: usize = 1;
    proof {
        assert(sq_diff_total(points@.subrange(0, 1)) == 0);
    }
    while i < n
        invariant
            1 <= i <= n == points@.len(),
            sum == sq_diff_total(points@.subrange(0, i as int)),
            sum <= (i - 1) * 0xffff_fffe_0000_0001,
        decreases n - i,
    {
        let x: i64 = points[i].value as i64;
        let y: i64 = points[i - 1].value as i64;
        proof {
            assert(0 <= (x - y) * (x - y) <= 0xffff_fffe_0000_0001int) by (nonlinear_arith)
                requires
                    -0xffff_ffffint <= x - y <= 0xffff_ffffint,
            {}
        }
        let d: i64 = x - y;
        let sq: u128 = (d as i128 * d as i128) as u128;
        proof {
            let pre = points@.subrange(0, i as int);
            let post = points@.subrange(0, i + 1);
            assert(post.drop_last() =~= pre);
            assert(sq_diff_total(post) == sq_diff_total(pre) + d * d);
        }
        sum = sum + sq;
        i = i + 1;
    }
    proof {
        assert(points@.subrange(0, n as int) =~= points@);
    }
    let count: u128 = (n - 1) as u128;
    let q: u128 = sum / count;
    proof {
        vstd::arithmetic::div_mod::lemma_fundamental_div_mod(sum as int, count as int);
        assert(q <= 0xffff_fffe_0000_0001u128) by (nonlinear_arith)
            requires
                sum as int == count as int * (q as int) + (sum as int % (count as int)),
                0 <= sum as int % (count as int),
                sum <= count * 0xffff_fffe_0000_0001,
                count >= 1,
        {}
    }
    // Greatest r with r * r <= q, by binary search on r.
    let mut lo: u64 = 0;
    let mut hi: u64 = 0xffff_ffffu64;
    proof {
        assert((lo as u128) * (lo as u128) <= q) by (nonlinear_arith)
            requires
                lo == 0u64,
        {}
        assert((hi as u128 + 1) * (hi as u128 + 1) > q) by (nonlinear_arith)
            requires
                hi == 0xffff_ffffu64,
                q <= 0xffff_fffe_0000_0001u128,
        {}
    }
    while lo < hi
        invariant
            lo <= hi <= 0xffff_ffffu64,
            (lo as u128) * (lo as u128) <= q,
            (hi as u128 + 1) * (hi as u128 + 1) > q,
        decreases hi - lo,
    {
        let mid = lo + (hi - lo + 1) / 2;
        proof {
            assert(mid as u128 * mid as u128 <= 0xffff_fffe_0000_0001u128) by (nonlinear_arith)
                requires
                    mid <= 0xffff_ffffu64,
            {}
        }
        if (mid as u128) * (mid as u128) <= q {
            lo = mid;
        } else {
            hi = mid - 1;
        }
    }
    proof {
        let r = lo as int;
        let c = points@.len() - 1;
        let s = sq_diff_total(points@);
        let rem = sum as int % (count as int);
        vstd::arithmetic::div_mod::lemma_fundamental_div_mod(sum as int, count as int);
        assert((r * r) * c <= s && s < ((r + 1) * (r + 1)) * c) by (nonlinear_arith)
            requires
                r * r <= q as int,
                (r + 1) * (r + 1) > q as int,
                s == (count as int) * (q as int) + rem,
                0 <= rem < count as int,
                c == count as int,
                c >= 1,
        {}
    }
    lo
}

} // verus!
