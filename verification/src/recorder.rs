//! Recorder state: per-channel staging buffers, a bounded
//! least-recently-used cache of closed time-range chunks, memory
//! accounting with a flush threshold, and the decision logic of the writer
//! loop. Disk I/O itself stays outside; this module computes exactly what
//! is to be written and folds flushed staging data into the cache.

use vstd::prelude::*;

use crate::timeseries::Point;

verus! {

/// Identifies one data channel.
#[derive(Clone, Copy, PartialEq, Eq, Structural, Debug, Hash)]
pub enum ChannelId {
    Ecg,
    AccX,
    AccY,
    AccZ,
    Hr,
    Rr,
    Hrv,
}

/// The number of channels.
pub const CHANNEL_COUNT: usize = 7;

impl ChannelId {
    /// The channel's position in per-channel tables.
    pub open spec fn spec_index(self) -> int {
        match self {
            ChannelId::Ecg => 0,
            ChannelId::AccX => 1,
            ChannelId::AccY => 2,
            ChannelId::AccZ => 3,
            ChannelId::Hr => 4,
            ChannelId::Rr => 5,
            ChannelId::Hrv => 6,
        }
    }

    /// The channel's position in per-channel tables.
    pub fn index(&self) -> (r: usize)
        ensures
            r == self.spec_index(),
            r < CHANNEL_COUNT,
    {
        match self {
            ChannelId::Ecg => 0,
            ChannelId::AccX => 1,
            ChannelId::AccY => 2,
            ChannelId::AccZ => 3,
            ChannelId::Hr => 4,
            ChannelId::Rr => 5,
            ChannelId::Hrv => 6,
        }
    }

    /// The on-disk group name of this channel.
    pub fn group_name(&self) -> (r: &'static str)
        ensures
            r@ == (match self {
                ChannelId::Ecg => "ecg"@,
                ChannelId::AccX => "acc_x"@,
                ChannelId::AccY => "acc_y"@,
                ChannelId::AccZ => "acc_z"@,
                ChannelId::Hr => "hr"@,
                ChannelId::Rr => "rr"@,
                ChannelId::Hrv => "hrv"@,
            }),
    {
        match self {
            ChannelId::Ecg => "ecg",
            ChannelId::AccX => "acc_x",
            ChannelId::AccY => "acc_y",
            ChannelId::AccZ => "acc_z",
            ChannelId::Hr => "hr",
            ChannelId::Rr => "rr",
            ChannelId::Hrv => "hrv",
        }
    }

    /// Every channel, in table order.
    pub fn all() -> (r: Vec<ChannelId>)
        ensures
            r@ == seq![
                ChannelId::Ecg,
                ChannelId::AccX,
                ChannelId::AccY,
                ChannelId::AccZ,
                ChannelId::Hr,
                ChannelId::Rr,
                ChannelId::Hrv,
            ],
    {
        let mut v: Vec<ChannelId> = Vec::new();
        v.push(ChannelId::Ecg);
        v.push(ChannelId::AccX);
        v.push(ChannelId::AccY);
        v.push(ChannelId::AccZ);
        v.push(ChannelId::Hr);
        v.push(ChannelId::Rr);
        v.push(ChannelId::Hrv);
        proof {
            assert(v@ =~= seq![
                ChannelId::Ecg,
                ChannelId::AccX,
                ChannelId::AccY,
                ChannelId::AccZ,
                ChannelId::Hr,
                ChannelId::Rr,
                ChannelId::Hrv,
            ]);
        }
        v
    }
}

/// A cache key: channel table position with the chunk's closed time range.
pub type CacheKey = (u64, u64, u64);

/// A cached chunk as plain pairs of time and value.
pub type CachedChunk = Vec<(u64, i32)>;

/// The least-recently-used cache of an outside crate, declared so its
/// values can stand in fields and signatures.
#[verifier::external_type_specification]
#[verifier::external_body]
#[verifier::reject_recursive_types(K)]
#[verifier::reject_recursive_types(V)]
#[verifier::reject_recursive_types(S)]
pub struct ExLruCache<K, V, S>(lru::LruCache<K, V, S>);

/// The concrete cache type the recorder uses.
pub type RangeCache = lru::LruCache<CacheKey, CachedChunk, std::collections::hash_map::RandomState>;

/// What the cache holds: its entries as key-chunk pairs, ordered from most
/// to least recently used.
pub uninterp spec fn cache_entries(c: RangeCache) -> Seq<(CacheKey, Seq<(u64, i32)>)>;

/// The fixed capacity the cache was created with.
pub uninterp spec fn cache_cap(c: RangeCache) -> nat;

/// Some entry of the cache carries this key.
pub open spec fn cache_has_key(es: Seq<(CacheKey, Seq<(u64, i32)>)>, k: CacheKey) -> bool {
    exists|i: int| 0 <= i < es.len() && (#[trigger] es[i]).0 == k
}

/// The position of a key among the entries (meaningful when present).
pub open spec fn cache_key_at(es: Seq<(CacheKey, Seq<(u64, i32)>)>, k: CacheKey) -> int {
    choose|i: int| 0 <= i < es.len() && (#[trigger] es[i]).0 == k
}

/// No two entries share a key.
pub open spec fn cache_keys_distinct(es: Seq<(CacheKey, Seq<(u64, i32)>)>) -> bool {
    forall|i: int, j: int|
        0 <= i < j < es.len() ==> (#[trigger] es[i]).0 != (#[trigger] es[j]).0
}

/// What putting a chunk does to the entries: an existing key is replaced
/// and promoted to the front; a fresh key is inserted at the front,
/// evicting the least recently used entry when the cache is full.
pub open spec fn cache_put_spec(
    es: Seq<(CacheKey, Seq<(u64, i32)>)>,
    cap: nat,
    k: CacheKey,
    v: Seq<(u64, i32)>,
) -> Seq<(CacheKey, Seq<(u64, i32)>)> {
    if cache_has_key(es, k) {
        seq![(k, v)] + es.remove(cache_key_at(es, k))
    } else if es.len() >= cap {
        seq![(k, v)] + es.drop_last()
    } else {
        seq![(k, v)] + es
    }
}

/// Relies on lru::LruCache::with_hasher: a cache created empty with the
/// given capacity.
#[verifier::external_body]
fn cache_new(cap: usize) -> (c: RangeCache)
    requires
        cap >= 1,
    ensures
        cache_entries(c) == Seq::<(CacheKey, Seq<(u64, i32)>)>::empty(),
        cache_cap(c) == cap,
{
    lru::LruCache::with_hasher(
        std::num::NonZeroUsize::new(cap).unwrap(),
        std::collections::hash_map::RandomState::new(),
    )
}

/// Relies on lru::LruCache::put: updates and promotes an existing key, or
/// inserts at the front, evicting the least recently used entry when full.
#[verifier::external_body]
fn cache_put(c: &mut RangeCache, k: CacheKey, v: CachedChunk)
    ensures
        cache_entries(*final(c)) == cache_put_spec(
            cache_entries(*old(c)),
            cache_cap(*old(c)),
            k,
            v@,
        ),
        cache_cap(*final(c)) == cache_cap(*old(c)),
{
    c.put(k, v);
}

/// Relies on lru::LruCache::get: returns the entry's chunk and promotes
/// the key to most recently used; absent keys leave the cache unchanged.
#[verifier::external_body]
fn cache_get(c: &mut RangeCache, k: CacheKey) -> (r: Option<CachedChunk>)
    ensures
        cache_cap(*final(c)) == cache_cap(*old(c)),
        match r {
            Some(v) => exists|i: int|
                {
                    &&& 0 <= i < cache_entries(*old(c)).len()
                    &&& (#[trigger] cache_entries(*old(c))[i]).0 == k
                    &&& cache_entries(*old(c))[i].1 == v@
                    &&& cache_entries(*final(c)) == seq![(k, v@)] + cache_entries(
                        *old(c),
                    ).remove(i)
                },
            None => {
                &&& !cache_has_key(cache_entries(*old(c)), k)
                &&& cache_entries(*final(c)) == cache_entries(*old(c))
            },
        },
{
    c.get(&k).cloned()
}

/// Relies on lru::LruCache::contains: whether the key is present, without
/// touching recency.
#[verifier::external_body]
fn cache_contains(c: &RangeCache, k: CacheKey) -> (r: bool)
    ensures
        r == cache_has_key(cache_entries(*c), k),
{
    c.contains(&k)
}

/// Relies on lru::LruCache::clear: removes every entry.
#[verifier::external_body]
fn cache_clear(c: &mut RangeCache)
    ensures
        cache_entries(*final(c)) == Seq::<(CacheKey, Seq<(u64, i32)>)>::empty(),
        cache_cap(*final(c)) == cache_cap(*old(c)),
{
    c.clear();
}

/// Relies on lru::LruCache::iter: the entries from most to least recently
/// used, cloned out as plain pairs.
#[verifier::external_body]
fn cache_entries_vec(c: &RangeCache) -> (r: Vec<(CacheKey, CachedChunk)>)
    ensures
        r@.map_values(|e: (CacheKey, CachedChunk)| (e.0, e.1@)) == cache_entries(*c),
{
    c.iter().map(|(k, v)| (*k, v.clone())).collect()
}

/// Bytes charged per staged point: the fixed per-point cost of the memory
/// accounting.
pub const BYTES_PER_POINT: usize = 16;

/// The small flush threshold while recording to disk, in bytes: a few
/// seconds of data, bounding loss on a crash.
pub const DISK_FLUSH_THRESHOLD: usize = 100_000;

/// Total number of staged points across all channels.
pub open spec fn staged_count(bufs: Seq<Seq<Point>>) -> int
    decreases bufs.len(),
{
    if bufs.len() == 0 {
        0
    } else {
        staged_count(bufs.drop_last()) + bufs.last().len()
    }
}

/// The byte estimate for `n` staged points, saturating at the type bound.
pub open spec fn spec_mem_of(n: int) -> usize {
    if 16 * n <= usize::MAX {
        (16 * n) as usize
    } else {
        usize::MAX
    }
}

/// A staging snapshot as plain pairs of time and value.
pub open spec fn points_to_pairs(s: Seq<Point>) -> Seq<(u64, i32)> {
    s.map_values(|p: Point| (p.time, p.value))
}

/// Pairs read back as points.
pub open spec fn pairs_to_points(s: Seq<(u64, i32)>) -> Seq<Point> {
    s.map_values(|e: (u64, i32)| Point { time: e.0, value: e.1 })
}

/// Saturating multiplication on usize.
fn sat_mul_usize(a: usize, b: usize) -> (r: usize)
    ensures
        r == (if a * b <= usize::MAX {
            (a * b) as usize
        } else {
            usize::MAX
        }),
{
    proof {
        assert(a as u128 * b as u128 <= u128::MAX) by (nonlinear_arith)
            requires
                a <= 0xffff_ffff_ffff_ffffu64,
                b <= 0xffff_ffff_ffff_ffffu64,
        {}
    }
    let p: u128 = a as u128 * b as u128;
    if p > usize::MAX as u128 {
        usize::MAX
    } else {
        p as usize
    }
}

/// Putting a chunk keeps the cache's keys distinct.
pub proof fn lemma_cache_put_distinct(
    es: Seq<(CacheKey, Seq<(u64, i32)>)>,
    cap: nat,
    k: CacheKey,
    v: Seq<(u64, i32)>,
)
    requires
        cache_keys_distinct(es),
        cap >= 1,
    ensures
        cache_keys_distinct(cache_put_spec(es, cap, k, v)),
{
    let post = cache_put_spec(es, cap, k, v);
    if cache_has_key(es, k) {
        let at = cache_key_at(es, k);
        assert(0 <= at < es.len() && es[at].0 == k);
        let rest = es.remove(at);
        assert forall|i: int, j: int| 0 <= i < j < post.len() implies (#[trigger] post[i]).0 != (
        #[trigger] post[j]).0 by {
            if i == 0 {
                let jr = j - 1;
                if jr < at {
                    assert(rest[jr] == es[jr]);
                    assert(es[jr].0 != k);
                } else {
                    assert(rest[jr] == es[jr + 1]);
                    assert(es[jr + 1].0 != k);
                }
            } else {
                let ir = i - 1;
                let jr = j - 1;
                let io = if ir < at {
                    ir
                } else {
                    ir + 1
                };
                let jo = if jr < at {
                    jr
                } else {
                    jr + 1
                };
                assert(rest[ir] == es[io]);
                assert(rest[jr] == es[jo]);
            }
        }
    } else {
        assert forall|i: int, j: int| 0 <= i < j < post.len() implies (#[trigger] post[i]).0 != (
        #[trigger] post[j]).0 by {
            if i == 0 {
                if es.len() >= cap {
                    assert(post[j] == es.drop_last()[j - 1]);
                    assert(es[j - 1].0 != k);
                } else {
                    assert(post[j] == es[j - 1]);
                    assert(es[j - 1].0 != k);
                }
            } else {
                if es.len() >= cap {
                    assert(post[i] == es.drop_last()[i - 1] && post[j] == es.drop_last()[j - 1]);
                } else {
                    assert(post[i] == es[i - 1] && post[j] == es[j - 1]);
                }
            }
        }
    }
}

/// The recorder's in-memory state: per-channel staging buffers, the
/// unified range cache, memory accounting and recording flags.
pub struct RecorderState {
    staging: Vec<Vec<Point>>,
    cache: RangeCache,
    memory_usage: usize,
    max_memory: usize,
    file_path: Option<String>,
    start_time: u64,
    live_buffer_duration_ns: u64,
    write_to_disk: bool,
    file_time_range: Option<(u64, u64)>,
}

impl RecorderState {
    /// The per-channel staging buffers, as sequences.
    pub closed spec fn spec_staging(self) -> Seq<Seq<Point>> {
        self.staging@.map_values(|v: Vec<Point>| v@)
    }

    /// The cache's entries, most recently used first.
    pub closed spec fn spec_cache(self) -> Seq<(CacheKey, Seq<(u64, i32)>)> {
        cache_entries(self.cache)
    }

    /// The cache's fixed capacity.
    pub closed spec fn spec_cache_cap(self) -> nat {
        cache_cap(self.cache)
    }

    /// The current staging memory estimate, in bytes.
    pub closed spec fn spec_memory_usage(self) -> usize {
        self.memory_usage
    }

    /// The configured memory budget, in bytes.
    pub closed spec fn spec_max_memory(self) -> usize {
        self.max_memory
    }

    /// The recording file's path, once disk recording was enabled.
    pub closed spec fn spec_file_path(self) -> Option<Seq<char>> {
        match self.file_path {
            Some(p) => Some(p@),
            None => None,
        }
    }

    /// The session start time, in nanoseconds.
    pub closed spec fn spec_start_time(self) -> u64 {
        self.start_time
    }

    /// Whether flushes currently also write to disk.
    pub closed spec fn spec_is_recording(self) -> bool {
        self.write_to_disk
    }

    /// The time range of an opened historical file, if one is open.
    pub closed spec fn spec_file_time_range(self) -> Option<(u64, u64)> {
        self.file_time_range
    }

    /// Well-formedness: one staging buffer per channel, each in time
    /// order; the memory estimate tracks the staged point count; the cache
    /// was created with a capacity of at least 100 and its keys stay
    /// distinct.
    pub open spec fn wf(self) -> bool {
        &&& self.spec_staging().len() == CHANNEL_COUNT
        &&& forall|c: int|
            0 <= c < CHANNEL_COUNT ==> crate::timeseries::times_sorted(
                #[trigger] self.spec_staging()[c],
            )
        &&& self.spec_memory_usage() == spec_mem_of(staged_count(self.spec_staging()))
        &&& self.spec_cache_cap() >= 100
        &&& cache_keys_distinct(self.spec_cache())
    }

    /// A fresh recorder state with empty staging and cache, stamped with
    /// the given session start time.
    pub fn new_at(now: u64, live_buffer_seconds: u64, max_memory_mb: usize) -> (r: RecorderState)
        ensures
            r.wf(),
            r.spec_staging().len() == CHANNEL_COUNT,
            forall|c: int| 0 <= c < CHANNEL_COUNT ==> (#[trigger] r.spec_staging()[c]).len() == 0,
            r.spec_cache() == Seq::<(CacheKey, Seq<(u64, i32)>)>::empty(),
            r.spec_memory_usage() == 0,
            r.spec_file_path() is None,
            r.spec_start_time() == now,
            !r.spec_is_recording(),
            r.spec_file_time_range() is None,
    {
        let mut staging: Vec<Vec<Point>> = Vec::new();
        let mut c: usize = 0;
        while c < CHANNEL_COUNT
            invariant
                c <= CHANNEL_COUNT,
                staging@.len() == c,
                forall|i: int| 0 <= i < c ==> (#[trigger] staging@[i])@.len() == 0,
            decreases CHANNEL_COUNT - c,
        {
            staging.push(Vec::new());
            c = c + 1;
        }
        let cache_size = sat_mul_usize(max_memory_mb, 100);
        let cap = if cache_size >= 100 {
            cache_size
        } else {
            100
        };
        let max_memory = sat_mul_usize(max_memory_mb, 1024 * 1024);
        let live_ns = crate::channels::sat_mul_exec(live_buffer_seconds, 1_000_000_000);
        let r = RecorderState {
            staging,
            cache: cache_new(cap),
            memory_usage: 0,
            max_memory,
            file_path: None,
            start_time: now,
            live_buffer_duration_ns: live_ns,
            write_to_disk: false,
            file_time_range: None,
        };
        proof {
            assert forall|c2: int| 0 <= c2 < CHANNEL_COUNT implies (
            #[trigger] r.spec_staging()[c2]).len() == 0 by {}
            lemma_staged_count_all_empty(r.spec_staging());
        }
        r
    }

    /// A fresh recorder state stamped with the current wall-clock time.
    pub fn new(live_buffer_seconds: u64, max_memory_mb: usize) -> (r: RecorderState)
        ensures
            r.wf(),
            forall|c: int| 0 <= c < CHANNEL_COUNT ==> (#[trigger] r.spec_staging()[c]).len() == 0,
            r.spec_cache() == Seq::<(CacheKey, Seq<(u64, i32)>)>::empty(),
            r.spec_memory_usage() == 0,
            r.spec_file_path() is None,
            !r.spec_is_recording(),
            r.spec_file_time_range() is None,
    {
        let now = crate::visualization::system_time_ns();
        Self::new_at(now, live_buffer_seconds, max_memory_mb)
    }
}

/// The flush threshold in force: the small disk-loss bound while
/// recording, the whole memory budget while only live-buffering.
pub open spec fn spec_should_flush(s: RecorderState) -> bool {
    if s.spec_is_recording() {
        s.spec_memory_usage() >= DISK_FLUSH_THRESHOLD
    } else {
        s.spec_memory_usage() >= s.spec_max_memory()
    }
}

/// The staged total is never negative.
pub proof fn lemma_staged_count_nonneg(bufs: Seq<Seq<Point>>)
    ensures
        staged_count(bufs) >= 0,
    decreases bufs.len(),
{
    if bufs.len() > 0 {
        lemma_staged_count_nonneg(bufs.drop_last());
    }
}

/// Replacing one buffer changes the staged total by the difference of the
/// buffer lengths.
pub proof fn lemma_staged_count_update(bufs: Seq<Seq<Point>>, idx: int, nb: Seq<Point>)
    requires
        0 <= idx < bufs.len(),
    ensures
        staged_count(bufs.update(idx, nb)) == staged_count(bufs) - bufs[idx].len() + nb.len(),
    decreases bufs.len(),
{
    let upd = bufs.update(idx, nb);
    if idx == bufs.len() - 1 {
        assert(upd.drop_last() =~= bufs.drop_last());
    } else {
        assert(upd.drop_last() =~= bufs.drop_last().update(idx, nb));
        lemma_staged_count_update(bufs.drop_last(), idx, nb);
    }
}

impl RecorderState {
    /// Stages one point in its channel's buffer and charges the fixed
    /// per-point byte cost.
    pub fn add_point(&mut self, channel: ChannelId, time: u64, value: i32)
        requires
            old(self).wf(),
            ({
                let s = old(self).spec_staging()[channel.spec_index()];
                s.len() > 0 ==> time >= s.last().time
            }),
        ensures
            final(self).wf(),
            final(self).spec_staging() == old(self).spec_staging().update(
                channel.spec_index(),
                old(self).spec_staging()[channel.spec_index()].push(Point { time, value }),
            ),
            final(self).spec_cache() == old(self).spec_cache(),
            final(self).spec_cache_cap() == old(self).spec_cache_cap(),
            final(self).spec_max_memory() == old(self).spec_max_memory(),
            final(self).spec_file_path() == old(self).spec_file_path(),
            final(self).spec_start_time() == old(self).spec_start_time(),
            final(self).spec_is_recording() == old(self).spec_is_recording(),
            final(self).spec_file_time_range() == old(self).spec_file_time_range(),
    {
        let idx = channel.index();
        self.staging[idx].push(Point { time, value });
        self.memory_usage = if self.memory_usage <= usize::MAX - BYTES_PER_POINT {
            self.memory_usage + BYTES_PER_POINT
        } else {
            usize::MAX
        };
        proof {
            assert(self.spec_staging() =~= old(self).spec_staging().update(
                channel.spec_index(),
                old(self).spec_staging()[channel.spec_index()].push(Point { time, value }),
            ));
            lemma_staged_count_update(
                old(self).spec_staging(),
                channel.spec_index(),
                old(self).spec_staging()[channel.spec_index()].push(Point { time, value }),
            );
            assert forall|c: int|
                0 <= c < CHANNEL_COUNT implies crate::timeseries::times_sorted(
                #[trigger] self.spec_staging()[c],
            ) by {
                let olds = old(self).spec_staging()[c];
                let news = self.spec_staging()[c];
                if c == channel.spec_index() {
                    assert forall|a: int, b: int|
                        0 <= a <= b < news.len() implies news[a].time <= news[b].time by {
                        if b < olds.len() {
                            assert(olds[a].time <= olds[b].time);
                        } else if a < olds.len() {
                            assert(olds[a].time <= olds[olds.len() - 1].time);
                        }
                    }
                } else {
                    assert(news == olds);
                    assert(crate::timeseries::times_sorted(olds));
                }
            }
            lemma_staged_count_nonneg(old(self).spec_staging());
        }
    }

    /// Whether staging memory has crossed the flush threshold in force.
    pub fn should_flush(&self) -> (r: bool)
        ensures
            r == spec_should_flush(*self),
    {
        if self.write_to_disk {
            self.memory_usage >= DISK_FLUSH_THRESHOLD
        } else {
            self.memory_usage >= self.max_memory
        }
    }

    /// Turns disk writing on, targeting the given file path.
    pub fn enable_disk_recording(&mut self, file_path: String)
        ensures
            final(self).spec_is_recording(),
            final(self).spec_file_path() == Some(file_path@),
            final(self).spec_staging() == old(self).spec_staging(),
            final(self).spec_cache() == old(self).spec_cache(),
            final(self).spec_cache_cap() == old(self).spec_cache_cap(),
            final(self).spec_memory_usage() == old(self).spec_memory_usage(),
            final(self).spec_max_memory() == old(self).spec_max_memory(),
            final(self).spec_start_time() == old(self).spec_start_time(),
            final(self).spec_file_time_range() == old(self).spec_file_time_range(),
            old(self).wf() ==> final(self).wf(),
    {
        self.file_path = Some(file_path);
        self.write_to_disk = true;
    }

    /// Turns disk writing off; the file path is kept so a final flush can
    /// still reach the file.
    pub fn disable_disk_recording(&mut self)
        ensures
            !final(self).spec_is_recording(),
            final(self).spec_file_path() == old(self).spec_file_path(),
            final(self).spec_staging() == old(self).spec_staging(),
            final(self).spec_cache() == old(self).spec_cache(),
            final(self).spec_cache_cap() == old(self).spec_cache_cap(),
            final(self).spec_memory_usage() == old(self).spec_memory_usage(),
            final(self).spec_max_memory() == old(self).spec_max_memory(),
            final(self).spec_start_time() == old(self).spec_start_time(),
            final(self).spec_file_time_range() == old(self).spec_file_time_range(),
            old(self).wf() ==> final(self).wf(),
    {
        self.write_to_disk = false;
    }

    /// Whether a recording to disk is in progress.
    pub fn is_recording(&self) -> (r: bool)
        ensures
            r == self.spec_is_recording(),
    {
        self.write_to_disk
    }

    /// The session start time, in nanoseconds.
    pub fn start_time(&self) -> (r: u64)
        ensures
            r == self.spec_start_time(),
    {
        self.start_time
    }

    /// Starts recording to the given file: an error while one is already
    /// in progress, otherwise disk writing is enabled.
    pub fn start_recording(&mut self, file_path: String) -> (r: Result<
        (),
        crate::error::RecorderError,
    >)
        ensures
            old(self).spec_is_recording() ==> r is Err && *final(self) == *old(self),
            !old(self).spec_is_recording() ==> {
                &&& r is Ok
                &&& final(self).spec_is_recording()
                &&& final(self).spec_file_path() == Some(file_path@)
                &&& final(self).spec_staging() == old(self).spec_staging()
                &&& final(self).spec_cache() == old(self).spec_cache()
                &&& final(self).spec_memory_usage() == old(self).spec_memory_usage()
            },
            old(self).wf() ==> final(self).wf(),
    {
        if self.write_to_disk {
            return Err(crate::error::RecorderError::AlreadyRecording);
        }
        self.enable_disk_recording(file_path);
        Ok(())
    }

    /// Stops recording. Always succeeds: stopping while not recording is a
    /// no-op, and stopping an active recording disables disk writing. The
    /// result says whether the caller owes the writer a final flush.
    pub fn stop_recording(&mut self) -> (r: Result<bool, crate::error::RecorderError>)
        ensures
            r is Ok,
            r->Ok_0 == old(self).spec_is_recording(),
            !old(self).spec_is_recording() ==> *final(self) == *old(self),
            !final(self).spec_is_recording(),
            final(self).spec_staging() == old(self).spec_staging(),
            final(self).spec_cache() == old(self).spec_cache(),
            final(self).spec_memory_usage() == old(self).spec_memory_usage(),
            final(self).spec_file_path() == old(self).spec_file_path(),
            old(self).wf() ==> final(self).wf(),
    {
        if !self.write_to_disk {
            return Ok(false);
        }
        self.disable_disk_recording();
        Ok(true)
    }

    /// Notes that a historical file with this overall time range was
    /// opened for reading, and clears the cache.
    pub fn open_recording(&mut self, time_range: (u64, u64))
        ensures
            final(self).spec_file_time_range() == Some(time_range),
            final(self).spec_cache() == Seq::<(CacheKey, Seq<(u64, i32)>)>::empty(),
            final(self).spec_cache_cap() == old(self).spec_cache_cap(),
            final(self).spec_staging() == old(self).spec_staging(),
            final(self).spec_memory_usage() == old(self).spec_memory_usage(),
            final(self).spec_file_path() == old(self).spec_file_path(),
            final(self).spec_is_recording() == old(self).spec_is_recording(),
            old(self).wf() ==> final(self).wf(),
    {
        self.file_time_range = Some(time_range);
        cache_clear(&mut self.cache);
    }

    /// Forgets the opened historical file and clears the cache.
    pub fn close_recording(&mut self)
        ensures
            final(self).spec_file_time_range() is None,
            final(self).spec_cache() == Seq::<(CacheKey, Seq<(u64, i32)>)>::empty(),
            final(self).spec_cache_cap() == old(self).spec_cache_cap(),
            final(self).spec_staging() == old(self).spec_staging(),
            final(self).spec_memory_usage() == old(self).spec_memory_usage(),
            final(self).spec_file_path() == old(self).spec_file_path(),
            final(self).spec_is_recording() == old(self).spec_is_recording(),
            old(self).wf() ==> final(self).wf(),
    {
        self.file_time_range = None;
        cache_clear(&mut self.cache);
    }

    /// The overall time range of the opened historical file, if any.
    pub fn file_time_range(&self) -> (r: Option<(u64, u64)>)
        ensures
            r == self.spec_file_time_range(),
    {
        self.file_time_range
    }

    /// Whether a recording file path is known.
    pub fn has_file(&self) -> (r: bool)
        ensures
            r == (self.spec_file_path() is Some),
    {
        self.file_path.is_some()
    }

    /// The most recently staged point of a channel, if any.
    pub fn last_point(&self, channel: ChannelId) -> (r: Option<Point>)
        requires
            self.wf(),
        ensures
            ({
                let s = self.spec_staging()[channel.spec_index()];
                match r {
                    Some(p) => s.len() > 0 && p == s.last(),
                    None => s.len() == 0,
                }
            }),
    {
        let idx = channel.index();
        let buf = &self.staging[idx];
        if buf.len() == 0 {
            None
        } else {
            Some(buf[buf.len() - 1])
        }
    }
}

/// The key under which one channel's staging snapshot is cached: the
/// channel's table position with the snapshot's closed time range.
pub open spec fn staging_key(c: int, buf: Seq<Point>) -> CacheKey
    recommends
        buf.len() > 0,
{
    (c as u64, buf.first().time, buf.last().time)
}

/// What folding the staging buffers into the cache, channel by channel up
/// to `upto`, does to the entries: each non-empty buffer is put under its
/// time-range key.
pub open spec fn fold_spec(
    es: Seq<(CacheKey, Seq<(u64, i32)>)>,
    cap: nat,
    staging: Seq<Seq<Point>>,
    upto: int,
) -> Seq<(CacheKey, Seq<(u64, i32)>)>
    decreases upto,
{
    if upto <= 0 {
        es
    } else {
        let prev = fold_spec(es, cap, staging, upto - 1);
        let buf = staging[upto - 1];
        if buf.len() == 0 {
            prev
        } else {
            cache_put_spec(prev, cap, staging_key(upto - 1, buf), points_to_pairs(buf))
        }
    }
}

/// The value stored under a key, when the key is present.
pub open spec fn cache_lookup(es: Seq<(CacheKey, Seq<(u64, i32)>)>, k: CacheKey) -> Option<
    Seq<(u64, i32)>,
> {
    if cache_has_key(es, k) {
        Some(es[cache_key_at(es, k)].1)
    } else {
        None
    }
}

/// A put leaves any differently keyed entry among the front `cap - 1`
/// positions in place, shifted back by at most one.
pub proof fn lemma_put_preserves_front(
    es: Seq<(CacheKey, Seq<(u64, i32)>)>,
    cap: nat,
    k: CacheKey,
    v: Seq<(u64, i32)>,
    i: int,
)
    requires
        0 <= i < es.len(),
        i < cap - 1,
        es[i].0 != k,
    ensures
        exists|j: int|
            {
                &&& 0 <= j < cache_put_spec(es, cap, k, v).len()
                &&& #[trigger] cache_put_spec(es, cap, k, v)[j] == es[i]
                &&& j <= i + 1
            },
{
    let post = cache_put_spec(es, cap, k, v);
    if cache_has_key(es, k) {
        let at = cache_key_at(es, k);
        if i < at {
            assert(post[i + 1] == es.remove(at)[i]);
            assert(es.remove(at)[i] == es[i]);
        } else {
            assert(post[i] == es.remove(at)[i - 1]);
            assert(es.remove(at)[i - 1] == es[i]);
        }
    } else if es.len() >= cap {
        assert(post[i + 1] == es.drop_last()[i]);
    } else {
        assert(post[i + 1] == es[i]);
    }
}

/// With distinct keys, the entry found by key is the one at any position
/// carrying that key.
pub proof fn lemma_cache_lookup_at(es: Seq<(CacheKey, Seq<(u64, i32)>)>, j: int)
    requires
        cache_keys_distinct(es),
        0 <= j < es.len(),
    ensures
        cache_lookup(es, es[j].0) == Some(es[j].1),
{
    let k = es[j].0;
    assert(cache_has_key(es, k));
    let at = cache_key_at(es, k);
    assert(0 <= at < es.len() && es[at].0 == k);
    if at != j {
        if at < j {
            assert(es[at].0 != es[j].0);
        } else {
            assert(es[j].0 != es[at].0);
        }
        assert(false);
    }
}

impl RecorderState {
    /// Folds every non-empty staging buffer into the cache under its exact
    /// time-range key, clears staging, and resets the memory estimate.
    /// Each folded chunk is afterwards retrievable by its key.
    #[verifier::rlimit(100)]
    #[verifier::spinoff_prover]
    pub fn fold_into_cache(&mut self)
        requires
            old(self).wf(),
        ensures
            final(self).wf(),
            forall|c: int|
                0 <= c < CHANNEL_COUNT ==> (#[trigger] final(self).spec_staging()[c]).len() == 0,
            final(self).spec_memory_usage() == 0,
            final(self).spec_cache() == fold_spec(
                old(self).spec_cache(),
                old(self).spec_cache_cap(),
                old(self).spec_staging(),
                CHANNEL_COUNT as int,
            ),
            forall|c: int|
                0 <= c < CHANNEL_COUNT && (#[trigger] old(self).spec_staging()[c]).len() > 0
                    ==> cache_lookup(
                    final(self).spec_cache(),
                    staging_key(c, old(self).spec_staging()[c]),
                ) == Some(points_to_pairs(old(self).spec_staging()[c])),
            final(self).spec_cache_cap() == old(self).spec_cache_cap(),
            final(self).spec_max_memory() == old(self).spec_max_memory(),
            final(self).spec_file_path() == old(self).spec_file_path(),
            final(self).spec_start_time() == old(self).spec_start_time(),
            final(self).spec_is_recording() == old(self).spec_is_recording(),
            final(self).spec_file_time_range() == old(self).spec_file_time_range(),
    {
        let ghost cap = old(self).spec_cache_cap();
        let ghost staging0 = old(self).spec_staging();
        let mut c: usize = 0;
        while c < CHANNEL_COUNT
            invariant
                c <= CHANNEL_COUNT,
                self.spec_staging().len() == CHANNEL_COUNT,
                staging0.len() == CHANNEL_COUNT,
                cap >= 100,
                forall|c2: int| c <= c2 < CHANNEL_COUNT ==> #[trigger] self.spec_staging()[c2]
                    == staging0[c2],
                forall|c2: int|
                    0 <= c2 < c ==> (#[trigger] self.spec_staging()[c2]).len() == 0,
                forall|c2: int|
                    0 <= c2 < CHANNEL_COUNT ==> crate::timeseries::times_sorted(
                        #[trigger] staging0[c2],
                    ),
                self.spec_cache() == fold_spec(old(self).spec_cache(), cap, staging0, c as int),
                self.spec_cache_cap() == cap,
                cache_keys_distinct(self.spec_cache()),
                forall|c2: int|
                    0 <= c2 < c && (#[trigger] staging0[c2]).len() > 0 ==> exists|j: int|
                        {
                            &&& 0 <= j < self.spec_cache().len()
                            &&& #[trigger] self.spec_cache()[j] == (
                            staging_key(c2, staging0[c2]), points_to_pairs(staging0[c2]))
                            &&& j <= c - 1 - c2
                        },
                self.spec_max_memory() == old(self).spec_max_memory(),
                self.spec_memory_usage() == old(self).spec_memory_usage(),
                self.spec_file_path() == old(self).spec_file_path(),
                self.spec_start_time() == old(self).spec_start_time(),
                self.spec_is_recording() == old(self).spec_is_recording(),
                self.spec_file_time_range() == old(self).spec_file_time_range(),
            decreases CHANNEL_COUNT - c,
        {
            let buf_len = self.staging[c].len();
            if buf_len > 0 {
                let first = self.staging[c][0];
                let last = self.staging[c][buf_len - 1];
                let key: CacheKey = (c as u64, first.time, last.time);
                let mut chunk: CachedChunk = Vec::new();
                let mut k: usize = 0;
                while k < self.staging[c].len()
                    invariant
                        c < CHANNEL_COUNT == self.spec_staging().len(),
                        k <= self.spec_staging()[c as int].len(),
                        chunk@ == points_to_pairs(
                            self.spec_staging()[c as int].subrange(0, k as int),
                        ),
                    decreases self.spec_staging()[c as int].len() - k,
                {
                    let p = self.staging[c][k];
                    chunk.push((p.time, p.value));
                    proof {
                        let pre = self.spec_staging()[c as int].subrange(0, k as int);
                        let post = self.spec_staging()[c as int].subrange(0, (k + 1) as int);
                        assert(post.drop_last() =~= pre);
                        assert(chunk@ =~= points_to_pairs(post));
                    }
                    k = k + 1;
                }
                proof {
                    assert(self.spec_staging()[c as int].subrange(
                        0,
                        self.spec_staging()[c as int].len() as int,
                    ) =~= self.spec_staging()[c as int]);
                    assert(key == staging_key(c as int, staging0[c as int]));
                    lemma_cache_put_distinct(
                        self.spec_cache(),
                        cap,
                        key,
                        points_to_pairs(staging0[c as int]),
                    );
                }
                let ghost pre_cache = self.spec_cache();
                let ghost st_pre = self.spec_staging();
                cache_put(&mut self.cache, key, chunk);
                self.staging[c].clear();
                proof {
                    assert(self.spec_staging() =~= st_pre.update(
                        c as int,
                        Seq::<Point>::empty(),
                    ));
                    assert(self.spec_cache() == cache_put_spec(
                        pre_cache,
                        cap,
                        staging_key(c as int, staging0[c as int]),
                        points_to_pairs(staging0[c as int]),
                    ));
                    assert(self.spec_cache()[0] == (
                        staging_key(c as int, staging0[c as int]),
                        points_to_pairs(staging0[c as int]),
                    ));
                    assert forall|c2: int|
                        0 <= c2 < c + 1 && (#[trigger] staging0[c2]).len() > 0 implies exists|
                        j: int,
                    |
                        {
                            &&& 0 <= j < self.spec_cache().len()
                            &&& #[trigger] self.spec_cache()[j] == (
                            staging_key(c2, staging0[c2]), points_to_pairs(staging0[c2]))
                            &&& j <= (c + 1) - 1 - c2
                        } by {
                        if c2 < c {
                            let j0 = choose|j: int|
                                {
                                    &&& 0 <= j < pre_cache.len()
                                    &&& #[trigger] pre_cache[j] == (
                                    staging_key(c2, staging0[c2]), points_to_pairs(
                                        staging0[c2],
                                    ))
                                    &&& j <= c - 1 - c2
                                };
                            assert(pre_cache[j0].0.0 == c2 as u64);
                            assert(staging_key(c as int, staging0[c as int]).0 == c as u64);
                            lemma_put_preserves_front(
                                pre_cache,
                                cap,
                                staging_key(c as int, staging0[c as int]),
                                points_to_pairs(staging0[c as int]),
                                j0,
                            );
                        }
                    }
                }
            }
            c = c + 1;
        }
        self.memory_usage = 0;
        proof {
            lemma_staged_count_all_empty(self.spec_staging());
            assert forall|c2: int|
                0 <= c2 < CHANNEL_COUNT && (#[trigger] staging0[c2]).len() > 0 implies
                cache_lookup(self.spec_cache(), staging_key(c2, staging0[c2])) == Some(
                points_to_pairs(staging0[c2])) by {
                let j = choose|j: int|
                    {
                        &&& 0 <= j < self.spec_cache().len()
                        &&& #[trigger] self.spec_cache()[j] == (
                        staging_key(c2, staging0[c2]), points_to_pairs(staging0[c2]))
                        &&& j <= CHANNEL_COUNT - 1 - c2
                    };
                lemma_cache_lookup_at(self.spec_cache(), j);
            }
        }
    }
}

/// The times of a run of points, in order.
pub open spec fn times_of(s: Seq<Point>) -> Seq<u64> {
    s.map_values(|p: Point| p.time)
}

/// The values of a run of points, in order.
pub open spec fn values_of(s: Seq<Point>) -> Seq<i32> {
    s.map_values(|p: Point| p.value)
}

/// Points assembled from parallel time and value arrays.
pub open spec fn zip_points(times: Seq<u64>, values: Seq<i32>) -> Seq<Point>
    recommends
        times.len() == values.len(),
{
    Seq::new(times.len(), |i: int| Point { time: times[i], value: values[i] })
}

/// One channel's part of a flush: its identifier and the parallel arrays
/// to append on disk.
pub struct FlushChunk {
    pub channel: ChannelId,
    pub times: Vec<u64>,
    pub values: Vec<i32>,
}

/// A flush chunk, viewed.
pub open spec fn chunk_view(ch: FlushChunk) -> (int, Seq<u64>, Seq<i32>) {
    (ch.channel.spec_index(), ch.times@, ch.values@)
}

/// The flush plan over the channels up to `upto`: one chunk per non-empty
/// staging buffer, in channel order.
pub open spec fn plan_spec(staging: Seq<Seq<Point>>, upto: int) -> Seq<(int, Seq<u64>, Seq<i32>)>
    decreases upto,
{
    if upto <= 0 {
        Seq::empty()
    } else {
        let prev = plan_spec(staging, upto - 1);
        let buf = staging[upto - 1];
        if buf.len() == 0 {
            prev
        } else {
            prev.push((upto - 1, times_of(buf), values_of(buf)))
        }
    }
}

/// The channel at a table position.
pub fn channel_of_index(i: usize) -> (r: ChannelId)
    requires
        i < CHANNEL_COUNT,
    ensures
        r.spec_index() == i,
{
    if i == 0 {
        ChannelId::Ecg
    } else if i == 1 {
        ChannelId::AccX
    } else if i == 2 {
        ChannelId::AccY
    } else if i == 3 {
        ChannelId::AccZ
    } else if i == 4 {
        ChannelId::Hr
    } else if i == 5 {
        ChannelId::Rr
    } else {
        ChannelId::Hrv
    }
}

/// Points of parallel time and value arrays that fall inside the closed
/// window `[start, end]`, in array order: how a raw on-disk channel read
/// is narrowed to the requested range.
pub fn filter_points_in_range(times: &Vec<u64>, values: &Vec<i32>, start_time: u64, end_time: u64)
    -> (r: Vec<Point>)
    requires
        times@.len() == values@.len(),
    ensures
        r@ == crate::timeseries::window_spec(zip_points(times@, values@), start_time, end_time),
{
    let ghost zp = zip_points(times@, values@);
    let mut r: Vec<Point> = Vec::new();
    let mut i: usize = 0;
    proof {
        assert(crate::timeseries::window_spec(zp.subrange(0, 0), start_time, end_time)
            =~= Seq::<Point>::empty()) by {
            reveal(Seq::filter);
        }
    }
    while i < times.len()
        invariant
            i <= times@.len() == values@.len(),
            zp == zip_points(times@, values@),
            r@ == crate::timeseries::window_spec(
                zp.subrange(0, i as int),
                start_time,
                end_time,
            ),
        decreases times@.len() - i,
    {
        let t = times[i];
        let v = values[i];
        let p = Point { time: t, value: v };
        if t >= start_time && t <= end_time {
            r.push(p);
        }
        proof {
            let pre = zp.subrange(0, i as int);
            let post = zp.subrange(0, (i + 1) as int);
            assert(post.drop_last() =~= pre);
            assert(post.last() == p);
            reveal(Seq::filter);
            assert(r@ =~= crate::timeseries::window_spec(post, start_time, end_time));
        }
        i = i + 1;
    }
    proof {
        assert(zp.subrange(0, zp.len() as int) =~= zp);
    }
    r
}

/// The overall time range spanned by per-channel (first, last) timestamp
/// pairs: the smallest first and the largest last, or nothing when no
/// channel reported one.
pub fn overall_time_range(ranges: &Vec<(u64, u64)>) -> (r: Option<(u64, u64)>)
    ensures
        r is None <==> ranges@.len() == 0,
        r is Some ==> {
            let (mn, mx) = r->Some_0;
            &&& forall|k: int|
                0 <= k < ranges@.len() ==> mn <= (#[trigger] ranges@[k]).0 && (
                #[trigger] ranges@[k]).1 <= mx
            &&& exists|k: int| 0 <= k < ranges@.len() && (#[trigger] ranges@[k]).0 == mn
            &&& exists|k: int| 0 <= k < ranges@.len() && (#[trigger] ranges@[k]).1 == mx
        },
{
    if ranges.len() == 0 {
        return None;
    }
    let mut mn = ranges[0].0;
    let mut mx = ranges[0].1;
    let mut i: usize = 1;
    while i < ranges.len()
        invariant
            1 <= i <= ranges@.len(),
            forall|k: int|
                0 <= k < i ==> mn <= (#[trigger] ranges@[k]).0 && (#[trigger] ranges@[k]).1
                    <= mx,
            exists|k: int| 0 <= k < i && (#[trigger] ranges@[k]).0 == mn,
            exists|k: int| 0 <= k < i && (#[trigger] ranges@[k]).1 == mx,
        decreases ranges@.len() - i,
    {
        let (a, b) = ranges[i];
        if a < mn {
            mn = a;
        }
        if b > mx {
            mx = b;
        }
        i = i + 1;
    }
    Some((mn, mx))
}

/// How one read was satisfied from memory: with points (possibly empty,
/// when nothing is staged, cached or on disk), or not at all because only
/// the disk can answer.
pub enum ReadOutcome {
    Points(Vec<Point>),
    NeedsDisk,
}

/// A command sent to the writer: stage one point, flush, or stop.
#[derive(Debug, Clone, PartialEq, Eq, Structural)]
pub enum RecorderCommand {
    AddPoint { channel: ChannelId, time: u64, value: i32 },
    Flush,
    Stop,
}

/// What the writer loop must do after processing one command.
#[derive(Debug, Clone, Copy, PartialEq, Eq, Structural)]
pub struct WriterAction {
    /// A flush cycle is due: write the plan if a file is set, then fold
    /// staging into the cache.
    pub flush: bool,
    /// The writer loop ends after this command.
    pub stop: bool,
}

impl RecorderState {
    /// The parallel arrays a flush must append on disk: one chunk per
    /// non-empty staging buffer, in channel order.
    pub fn flush_plan(&self) -> (r: Vec<FlushChunk>)
        requires
            self.wf(),
        ensures
            r@.map_values(|ch: FlushChunk| chunk_view(ch)) == plan_spec(
                self.spec_staging(),
                CHANNEL_COUNT as int,
            ),
    {
        let mut r: Vec<FlushChunk> = Vec::new();
        let mut c: usize = 0;
        proof {
            assert(r@.map_values(|ch: FlushChunk| chunk_view(ch)) =~= plan_spec(
                self.spec_staging(),
                0,
            ));
        }
        while c < CHANNEL_COUNT
            invariant
                c <= CHANNEL_COUNT,
                self.wf(),
                r@.map_values(|ch: FlushChunk| chunk_view(ch)) == plan_spec(
                    self.spec_staging(),
                    c as int,
                ),
            decreases CHANNEL_COUNT - c,
        {
            let buf_len = self.staging[c].len();
            if buf_len > 0 {
                let mut times: Vec<u64> = Vec::new();
                let mut values: Vec<i32> = Vec::new();
                let mut k: usize = 0;
                while k < self.staging[c].len()
                    invariant
                        c < CHANNEL_COUNT == self.spec_staging().len(),
                        k <= self.spec_staging()[c as int].len(),
                        times@ == times_of(self.spec_staging()[c as int].subrange(0, k as int)),
                        values@ == values_of(
                            self.spec_staging()[c as int].subrange(0, k as int),
                        ),
                    decreases self.spec_staging()[c as int].len() - k,
                {
                    let p = self.staging[c][k];
                    times.push(p.time);
                    values.push(p.value);
                    proof {
                        let pre = self.spec_staging()[c as int].subrange(0, k as int);
                        let post = self.spec_staging()[c as int].subrange(0, (k + 1) as int);
                        assert(post.drop_last() =~= pre);
                        assert(times@ =~= times_of(post));
                        assert(values@ =~= values_of(post));
                    }
                    k = k + 1;
                }
                proof {
                    assert(self.spec_staging()[c as int].subrange(
                        0,
                        self.spec_staging()[c as int].len() as int,
                    ) =~= self.spec_staging()[c as int]);
                }
                let chunk = FlushChunk { channel: channel_of_index(c), times, values };
                r.push(chunk);
                proof {
                    assert(r@.map_values(|ch: FlushChunk| chunk_view(ch)) =~= plan_spec(
                        self.spec_staging(),
                        (c + 1) as int,
                    ));
                }
            }
            c = c + 1;
        }
        r
    }

    /// The memory and cache phase of a transparent read, checked in order:
    /// fresh staging data filtered by the range, then an exact-key cache
    /// hit (which promotes the entry), then a referral to disk when a
    /// recording file is known, and otherwise no points at all.
    pub fn read_range_memory(&mut self, channel: ChannelId, start_time: u64, end_time: u64) -> (r:
        ReadOutcome)
        requires
            old(self).wf(),
        ensures
            final(self).wf(),
            final(self).spec_staging() == old(self).spec_staging(),
            final(self).spec_memory_usage() == old(self).spec_memory_usage(),
            final(self).spec_cache_cap() == old(self).spec_cache_cap(),
            final(self).spec_max_memory() == old(self).spec_max_memory(),
            final(self).spec_file_path() == old(self).spec_file_path(),
            final(self).spec_start_time() == old(self).spec_start_time(),
            final(self).spec_is_recording() == old(self).spec_is_recording(),
            final(self).spec_file_time_range() == old(self).spec_file_time_range(),
            ({
                let stg = crate::timeseries::window_spec(
                    old(self).spec_staging()[channel.spec_index()],
                    start_time,
                    end_time,
                );
                let key = (channel.spec_index() as u64, start_time, end_time);
                let es = old(self).spec_cache();
                if stg.len() > 0 {
                    &&& r is Points
                    &&& r->Points_0@ == stg
                    &&& final(self).spec_cache() == es
                } else if cache_has_key(es, key) {
                    &&& r is Points
                    &&& exists|i: int|
                        {
                            &&& 0 <= i < es.len()
                            &&& (#[trigger] es[i]).0 == key
                            &&& r->Points_0@ == pairs_to_points(es[i].1)
                            &&& final(self).spec_cache() == seq![(key, es[i].1)] + es.remove(i)
                        }
                } else if old(self).spec_file_path() is Some {
                    &&& r is NeedsDisk
                    &&& final(self).spec_cache() == es
                } else {
                    &&& r is Points
                    &&& r->Points_0@.len() == 0
                    &&& final(self).spec_cache() == es
                }
            }),
    {
        let idx = channel.index();
        let ghost stg_spec = crate::timeseries::window_spec(
            self.spec_staging()[channel.spec_index()],
            start_time,
            end_time,
        );
        let mut staged: Vec<Point> = Vec::new();
        let mut k: usize = 0;
        proof {
            assert(crate::timeseries::window_spec(
                self.spec_staging()[idx as int].subrange(0, 0),
                start_time,
                end_time,
            ) =~= Seq::<Point>::empty()) by {
                reveal(Seq::filter);
            }
        }
        while k < self.staging[idx].len()
            invariant
                idx == channel.spec_index(),
                idx < CHANNEL_COUNT == self.spec_staging().len(),
                k <= self.spec_staging()[idx as int].len(),
                staged@ == crate::timeseries::window_spec(
                    self.spec_staging()[idx as int].subrange(0, k as int),
                    start_time,
                    end_time,
                ),
            decreases self.spec_staging()[idx as int].len() - k,
        {
            let p = self.staging[idx][k];
            if p.time >= start_time && p.time <= end_time {
                staged.push(p);
            }
            proof {
                let pre = self.spec_staging()[idx as int].subrange(0, k as int);
                let post = self.spec_staging()[idx as int].subrange(0, (k + 1) as int);
                assert(post.drop_last() =~= pre);
                assert(post.last() == p);
                reveal(Seq::filter);
                assert(staged@ =~= crate::timeseries::window_spec(post, start_time, end_time));
            }
            k = k + 1;
        }
        proof {
            assert(self.spec_staging()[idx as int].subrange(
                0,
                self.spec_staging()[idx as int].len() as int,
            ) =~= self.spec_staging()[idx as int]);
        }
        if staged.len() > 0 {
            return ReadOutcome::Points(staged);
        }
        let key: CacheKey = (idx as u64, start_time, end_time);
        let got = cache_get(&mut self.cache, key);
        match got {
            Some(chunk) => {
                let mut pts: Vec<Point> = Vec::new();
                let mut j: usize = 0;
                while j < chunk.len()
                    invariant
                        j <= chunk@.len(),
                        pts@ == pairs_to_points(chunk@.subrange(0, j as int)),
                    decreases chunk@.len() - j,
                {
                    let (t, v) = chunk[j];
                    pts.push(Point { time: t, value: v });
                    proof {
                        let pre = chunk@.subrange(0, j as int);
                        let post = chunk@.subrange(0, (j + 1) as int);
                        assert(post.drop_last() =~= pre);
                        assert(pts@ =~= pairs_to_points(post));
                    }
                    j = j + 1;
                }
                proof {
                    assert(chunk@.subrange(0, chunk@.len() as int) =~= chunk@);
                    let es = old(self).spec_cache();
                    let i = choose|i: int|
                        {
                            &&& 0 <= i < es.len()
                            &&& (#[trigger] es[i]).0 == key
                            &&& es[i].1 == chunk@
                            &&& self.spec_cache() == seq![(key, chunk@)] + es.remove(i)
                        };
                    assert(cache_has_key(es, key));
                    assert forall|a: int, b: int|
                        0 <= a < b < self.spec_cache().len() implies (
                    #[trigger] self.spec_cache()[a]).0 != (#[trigger] self.spec_cache()[b]).0 by {
                        if a == 0 {
                            let bo = if b - 1 < i {
                                b - 1
                            } else {
                                b
                            };
                            assert(self.spec_cache()[b] == es[bo]);
                            if bo != i {
                                assert(es[bo].0 != es[i].0);
                            }
                        } else {
                            let ao = if a - 1 < i {
                                a - 1
                            } else {
                                a
                            };
                            let bo = if b - 1 < i {
                                b - 1
                            } else {
                                b
                            };
                            assert(self.spec_cache()[a] == es[ao]);
                            assert(self.spec_cache()[b] == es[bo]);
                        }
                    }
                }
                ReadOutcome::Points(pts)
            },
            None => {
                if self.file_path.is_some() {
                    ReadOutcome::NeedsDisk
                } else {
                    ReadOutcome::Points(Vec::new())
                }
            },
        }
    }

    /// Caches the points read from disk for a range under its exact key.
    pub fn insert_range(
        &mut self,
        channel: ChannelId,
        start_time: u64,
        end_time: u64,
        data: Vec<Point>,
    )
        requires
            old(self).wf(),
        ensures
            final(self).wf(),
            final(self).spec_cache() == cache_put_spec(
                old(self).spec_cache(),
                old(self).spec_cache_cap(),
                (channel.spec_index() as u64, start_time, end_time),
                points_to_pairs(data@),
            ),
            final(self).spec_staging() == old(self).spec_staging(),
            final(self).spec_memory_usage() == old(self).spec_memory_usage(),
            final(self).spec_cache_cap() == old(self).spec_cache_cap(),
            final(self).spec_file_path() == old(self).spec_file_path(),
            final(self).spec_is_recording() == old(self).spec_is_recording(),
            final(self).spec_file_time_range() == old(self).spec_file_time_range(),
    {
        let idx = channel.index();
        let key: CacheKey = (idx as u64, start_time, end_time);
        let mut chunk: CachedChunk = Vec::new();
        let mut j: usize = 0;
        proof {
            assert(chunk@ =~= points_to_pairs(data@.subrange(0, 0)));
        }
        while j < data.len()
            invariant
                j <= data@.len(),
                chunk@ == points_to_pairs(data@.subrange(0, j as int)),
            decreases data@.len() - j,
        {
            let p = data[j];
            chunk.push((p.time, p.value));
            proof {
                let pre = data@.subrange(0, j as int);
                let post = data@.subrange(0, (j + 1) as int);
                assert(post.drop_last() =~= pre);
                assert(chunk@ =~= points_to_pairs(post));
            }
            j = j + 1;
        }
        proof {
            assert(data@.subrange(0, data@.len() as int) =~= data@);
            lemma_cache_put_distinct(
                self.spec_cache(),
                self.spec_cache_cap(),
                key,
                points_to_pairs(data@),
            );
        }
        cache_put(&mut self.cache, key, chunk);
    }

    /// The neighbouring equal-width ranges worth prefetching around a
    /// range just read from disk: the immediately preceding and following
    /// chunks, except those already cached.
    pub fn prefetch_targets(&self, channel: ChannelId, start_time: u64, end_time: u64) -> (r: Vec<
        (u64, u64),
    >)
        requires
            start_time <= end_time,
        ensures
            ({
                let chunk = (end_time - start_time) as u64;
                let prev = (crate::timeseries::sat_sub(start_time, chunk), start_time);
                let next = (end_time, crate::timeseries::sat_add(end_time, chunk));
                let es = self.spec_cache();
                let c = channel.spec_index() as u64;
                let want_prev = !cache_has_key(es, (c, prev.0, prev.1));
                let want_next = !cache_has_key(es, (c, next.0, next.1));
                r@ == (if want_prev && want_next {
                    seq![prev, next]
                } else if want_prev {
                    seq![prev]
                } else if want_next {
                    seq![next]
                } else {
                    Seq::<(u64, u64)>::empty()
                })
            }),
    {
        let idx = channel.index();
        let chunk = end_time - start_time;
        let prev_start = if start_time >= chunk {
            start_time - chunk
        } else {
            0
        };
        let next_end = crate::channels::sat_add_exec(end_time, chunk);
        let mut r: Vec<(u64, u64)> = Vec::new();
        let want_prev = !cache_contains(&self.cache, (idx as u64, prev_start, start_time));
        let want_next = !cache_contains(&self.cache, (idx as u64, end_time, next_end));
        if want_prev {
            r.push((prev_start, start_time));
        }
        if want_next {
            r.push((end_time, next_end));
        }
        proof {
            let chunkg = (end_time - start_time) as u64;
            let prev = (crate::timeseries::sat_sub(start_time, chunkg), start_time);
            let next = (end_time, crate::timeseries::sat_add(end_time, chunkg));
            if want_prev && want_next {
                assert(r@ =~= seq![prev, next]);
            } else if want_prev {
                assert(r@ =~= seq![prev]);
            } else if want_next {
                assert(r@ =~= seq![next]);
            } else {
                assert(r@ =~= Seq::<(u64, u64)>::empty());
            }
        }
        r
    }

    /// Applies one writer command: staging the point of an add command,
    /// and reporting whether a flush cycle is due and whether the loop
    /// ends.
    pub fn process_command(&mut self, cmd: RecorderCommand) -> (r: WriterAction)
        requires
            old(self).wf(),
            (cmd matches RecorderCommand::AddPoint { channel, time, value } ==> {
                let s = old(self).spec_staging()[channel.spec_index()];
                s.len() > 0 ==> time >= s.last().time
            }),
        ensures
            final(self).wf(),
            match cmd {
                RecorderCommand::AddPoint { channel, time, value } => {
                    &&& final(self).spec_staging() == old(self).spec_staging().update(
                        channel.spec_index(),
                        old(self).spec_staging()[channel.spec_index()].push(
                            Point { time, value },
                        ),
                    )
                    &&& final(self).spec_cache() == old(self).spec_cache()
                    &&& r.flush == spec_should_flush(*final(self))
                    &&& !r.stop
                },
                RecorderCommand::Flush => {
                    &&& *final(self) == *old(self)
                    &&& r.flush
                    &&& !r.stop
                },
                RecorderCommand::Stop => {
                    &&& *final(self) == *old(self)
                    &&& r.flush
                    &&& r.stop
                },
            },
    {
        match cmd {
            RecorderCommand::AddPoint { channel, time, value } => {
                self.add_point(channel, time, value);
                let flush = self.should_flush();
                WriterAction { flush, stop: false }
            },
            RecorderCommand::Flush => WriterAction { flush: true, stop: false },
            RecorderCommand::Stop => WriterAction { flush: true, stop: true },
        }
    }
}

/// Total number of points held by the cache entries.
pub open spec fn cache_points_total(es: Seq<(CacheKey, Seq<(u64, i32)>)>) -> int
    decreases es.len(),
{
    if es.len() == 0 {
        0
    } else {
        cache_points_total(es.drop_last()) + es.last().1.len()
    }
}

/// The cached point total is never negative.
pub proof fn lemma_cache_points_total_nonneg(es: Seq<(CacheKey, Seq<(u64, i32)>)>)
    ensures
        cache_points_total(es) >= 0,
    decreases es.len(),
{
    if es.len() > 0 {
        lemma_cache_points_total_nonneg(es.drop_last());
    }
}

/// A non-negative total capped at the usize bound.
pub open spec fn sat_cap(n: int) -> usize {
    if n <= usize::MAX {
        n as usize
    } else {
        usize::MAX
    }
}

/// Caching a staging snapshot loses nothing: pairs read back from the
/// cache are the very points that were folded in.
pub proof fn lemma_pairs_round_trip(s: Seq<Point>)
    ensures
        pairs_to_points(points_to_pairs(s)) == s,
{
    assert(pairs_to_points(points_to_pairs(s)) =~= s);
}

/// Recorder round trip: the arrays a flush writes for one channel, read
/// back and filtered by the channel's exact covered time range, give back
/// the very points that were staged, in the same order.
pub proof fn lemma_flush_read_round_trip(buf: Seq<Point>)
    requires
        buf.len() > 0,
        crate::timeseries::times_sorted(buf),
    ensures
        crate::timeseries::window_spec(
            zip_points(times_of(buf), values_of(buf)),
            buf.first().time,
            buf.last().time,
        ) == buf,
{
    let zp = zip_points(times_of(buf), values_of(buf));
    assert(zp =~= buf);
    assert forall|k: int|
        0 <= k < buf.len() implies crate::timeseries::in_window(
        buf[k],
        buf.first().time,
        buf.last().time,
    ) by {
        assert(buf[0].time <= buf[k].time);
        assert(buf[k].time <= buf[buf.len() - 1].time);
    }
    crate::timeseries::lemma_window_is_subrange(
        zp,
        buf.first().time,
        buf.last().time,
        0,
        buf.len() as int,
    );
    assert(zp.subrange(0, buf.len() as int) =~= buf);
}

/// Cache transparency: once a range's chunk is inserted, an exact-key
/// lookup is answered from the cache with identical data, so the disk
/// referral arm of `read_range_memory` is unreachable for that key.
pub proof fn lemma_cache_insert_then_lookup(
    es: Seq<(CacheKey, Seq<(u64, i32)>)>,
    cap: nat,
    k: CacheKey,
    v: Seq<(u64, i32)>,
)
    requires
        cache_keys_distinct(es),
        cap >= 1,
    ensures
        cache_lookup(cache_put_spec(es, cap, k, v), k) == Some(v),
        cache_has_key(cache_put_spec(es, cap, k, v), k),
{
    let post = cache_put_spec(es, cap, k, v);
    assert(post[0] == (k, v));
    lemma_cache_put_distinct(es, cap, k, v);
    lemma_cache_lookup_at(post, 0);
}

impl RecorderState {
    /// The total number of points held, staged and cached together
    /// (capped at the usize bound).
    pub fn total_points(&self) -> (r: usize)
        requires
            self.wf(),
        ensures
            r == sat_cap(
                staged_count(self.spec_staging()) + cache_points_total(self.spec_cache()),
            ),
    {
        let mut total: usize = 0;
        let mut c: usize = 0;
        proof {
            assert(staged_count(self.spec_staging().subrange(0, 0)) == 0);
        }
        while c < CHANNEL_COUNT
            invariant
                c <= CHANNEL_COUNT,
                self.wf(),
                total == sat_cap(staged_count(self.spec_staging().subrange(0, c as int))),
            decreases CHANNEL_COUNT - c,
        {
            let len = self.staging[c].len();
            proof {
                let pre = self.spec_staging().subrange(0, c as int);
                let post = self.spec_staging().subrange(0, (c + 1) as int);
                assert(post.drop_last() =~= pre);
                lemma_staged_count_nonneg(pre);
            }
            total = if total <= usize::MAX - len {
                total + len
            } else {
                usize::MAX
            };
            c = c + 1;
        }
        proof {
            assert(self.spec_staging().subrange(0, CHANNEL_COUNT as int)
                =~= self.spec_staging());
        }
        let entries = cache_entries_vec(&self.cache);
        let ghost mapped = entries@.map_values(|e: (CacheKey, CachedChunk)| (e.0, e.1@));
        let ghost staged = staged_count(self.spec_staging());
        let mut i: usize = 0;
        proof {
            assert(cache_points_total(mapped.subrange(0, 0)) == 0);
            lemma_staged_count_nonneg(self.spec_staging());
        }
        while i < entries.len()
            invariant
                i <= entries@.len(),
                mapped == entries@.map_values(|e: (CacheKey, CachedChunk)| (e.0, e.1@)),
                staged >= 0,
                total == sat_cap(staged + cache_points_total(mapped.subrange(0, i as int))),
            decreases entries@.len() - i,
        {
            let len = entries[i].1.len();
            proof {
                let pre = mapped.subrange(0, i as int);
                let post = mapped.subrange(0, (i + 1) as int);
                assert(post.drop_last() =~= pre);
                assert(post.last() == mapped[i as int]);
                assert(mapped[i as int].1 == entries@[i as int].1@);
                lemma_cache_points_total_nonneg(pre);
            }
            total = if total <= usize::MAX - len {
                total + len
            } else {
                usize::MAX
            };
            i = i + 1;
        }
        proof {
            assert(mapped.subrange(0, mapped.len() as int) =~= mapped);
        }
        total
    }

    /// The byte estimate for everything held in memory: staged points plus
    /// cached points at the fixed per-point cost (capped at the usize
    /// bound).
    pub fn memory_usage_bytes(&self) -> (r: usize)
        requires
            self.wf(),
        ensures
            r == sat_cap(
                self.spec_memory_usage() + 16 * cache_points_total(self.spec_cache()),
            ),
    {
        let mut total: usize = self.memory_usage;
        let entries = cache_entries_vec(&self.cache);
        let ghost mapped = entries@.map_values(|e: (CacheKey, CachedChunk)| (e.0, e.1@));
        let mut i: usize = 0;
        proof {
            assert(cache_points_total(mapped.subrange(0, 0)) == 0);
        }
        while i < entries.len()
            invariant
                i <= entries@.len(),
                mapped == entries@.map_values(|e: (CacheKey, CachedChunk)| (e.0, e.1@)),
                total == sat_cap(
                    self.spec_memory_usage() + 16 * cache_points_total(
                        mapped.subrange(0, i as int),
                    ),
                ),
            decreases entries@.len() - i,
        {
            let len = entries[i].1.len();
            let bytes = sat_mul_usize(BYTES_PER_POINT, len);
            proof {
                let pre = mapped.subrange(0, i as int);
                let post = mapped.subrange(0, (i + 1) as int);
                assert(post.drop_last() =~= pre);
                assert(post.last() == mapped[i as int]);
                assert(mapped[i as int].1 == entries@[i as int].1@);
                lemma_cache_points_total_nonneg(pre);
            }
            total = if total <= usize::MAX - bytes {
                total + bytes
            } else {
                usize::MAX
            };
            i = i + 1;
        }
        proof {
            assert(mapped.subrange(0, mapped.len() as int) =~= mapped);
        }
        total
    }
}

/// Buffers in which every buffer is empty stage no points.
pub proof fn lemma_staged_count_all_empty(bufs: Seq<Seq<Point>>)
    requires
        forall|i: int| 0 <= i < bufs.len() ==> (#[trigger] bufs[i]).len() == 0,
    ensures
        staged_count(bufs) == 0,
    decreases bufs.len(),
{
    if bufs.len() > 0 {
        lemma_staged_count_all_empty(bufs.drop_last());
    }
}

} // verus!
