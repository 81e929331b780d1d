//! What the rolling history store keeps, how a range of it is answered, and
//! what a maintenance pass does to it.
//!
//! Nothing in here invents a value. Downsampling replaces a run of real
//! samples with their aggregate over a fixed bucket (gauge mean, counter
//! last); retention deletes. No pass ever fills a gap.
use crate::history::catalog::{lookup, named, Honesty, Kind, Source};
use crate::text::{cat2, same};
use vstd::prelude::*;

verus! {

/// Downsample bucket for rows past the raw-retention window.
pub const BUCKET_MS: i64 = 60_000;

/// Raw samples are kept for this long; older rows collapse to `BUCKET_MS`.
pub const RAW_WINDOW_MS: i64 = 86_400_000;

/// Native store resolution. A query step at or below this returns the stored
/// points untouched.
pub const NATIVE_STEP_S: i64 = 1;

/// Hard cap on points returned per series.
pub const MAX_POINTS_PER_SERIES: i64 = 20_000;

/// One day.
pub const DAY_MS: i64 = 86_400_000;

/// The store's table: one row per instance, series and millisecond.
pub const SCHEMA: &'static str = "CREATE TABLE IF NOT EXISTS samples (
    instance TEXT NOT NULL,
    series TEXT NOT NULL,
    ts INTEGER NOT NULL,
    value REAL NOT NULL,
    source TEXT NOT NULL,
    honesty TEXT NOT NULL,
    PRIMARY KEY (instance, series, ts))";

/// Writes a row; a second one for the same millisecond replaces the first.
pub const WRITE: &'static str = "INSERT OR REPLACE INTO samples (instance, series, ts, value, source, honesty)
     VALUES (?1, ?2, ?3, ?4, ?5, ?6)";

/// Reads the rows of one series in a range, oldest first.
pub const READ: &'static str = "SELECT ts, value, honesty FROM samples
     WHERE instance = ?1 AND series = ?2 AND ts >= ?3 AND ts <= ?4
     ORDER BY ts";

/// Deletes the rows that retention no longer keeps.
pub const EXPIRE: &'static str = "DELETE FROM samples WHERE ts < ?1";

/// Groups the rows below the cutoff by bucket. With exactly one `MAX` the bare
/// columns are those of the bucket's newest row.
pub const CANDIDATES: &'static str = "SELECT instance, series, (ts / ?1) * ?1 AS bucket, COUNT(*), MAX(ts),
            AVG(value), value, source, honesty
     FROM samples WHERE ts < ?2
     GROUP BY instance, series, bucket";

/// Deletes the rows of one bucket.
pub const CLEAR: &'static str = "DELETE FROM samples
     WHERE instance = ?1 AND series = ?2 AND ts >= ?3 AND ts < ?4";

/// The number of a stored measurement.
#[derive(Clone, Copy, PartialEq, Eq, Debug, Structural)]
pub enum Quantity {
    /// The double with these bits.
    Double(u64),
    /// A millionth of the double with these bits.
    NanosAsMillis(u64),
    /// A count.
    Count(u64),
}

/// One stored measurement.
#[derive(Debug)]
pub struct Sample {
    pub instance: String,
    pub series: String,
    pub ts_ms: i64,
    pub value: Quantity,
    pub source: Source,
    pub honesty: Honesty,
}

/// One stored measurement, as texts.
pub struct SampleView {
    pub instance: Seq<char>,
    pub series: Seq<char>,
    pub ts_ms: i64,
    pub value: Quantity,
    pub source: Source,
    pub honesty: Honesty,
}

impl View for Sample {
    type V = SampleView;

    open spec fn view(&self) -> SampleView {
        SampleView {
            instance: self.instance@,
            series: self.series@,
            ts_ms: self.ts_ms,
            value: self.value,
            source: self.source,
            honesty: self.honesty,
        }
    }
}

/// The measurements that a batch holds.
pub open spec fn batch_view(batch: Seq<Sample>) -> Seq<SampleView> {
    Seq::new(batch.len(), |i: int| batch[i]@)
}

/// A range read.
#[derive(Debug)]
pub struct Query {
    pub instance: String,
    pub series: Vec<String>,
    /// Inclusive lower bound, unix ms.
    pub from_ms: i64,
    /// Inclusive upper bound, unix ms.
    pub to_ms: i64,
    pub step_s: i64,
}

/// What one maintenance pass did.
#[derive(Clone, Copy, Debug, PartialEq, Eq, Structural)]
pub struct Maintenance {
    pub buckets_rewritten: usize,
    pub rows_collapsed: usize,
    pub rows_expired: usize,
}

impl Default for Maintenance {
    fn default() -> (r: Maintenance)
        ensures
            r == (Maintenance { buckets_rewritten: 0, rows_collapsed: 0, rows_expired: 0 }),
    {
        Maintenance { buckets_rewritten: 0, rows_collapsed: 0, rows_expired: 0 }
    }
}

/// Why the store did not answer.
#[derive(Debug)]
pub enum StoreError {
    Sqlite(String),
    /// The writer is gone.
    Closed,
}

impl StoreError {
    pub open spec fn text(&self) -> Seq<char> {
        match self {
            StoreError::Sqlite(message) => "history store: "@ + message@,
            StoreError::Closed => "history store is closed"@,
        }
    }

    /// What the error says.
    pub fn message(&self) -> (r: String)
        ensures
            r@ == self.text(),
    {
        match self {
            StoreError::Sqlite(message) => cat2("history store: ", message.as_str()),
            StoreError::Closed => "history store is closed".to_owned(),
        }
    }
}

// ---------------------------------------------------------------------------
// Write failures

pub open spec fn opt_string(text: Option<String>) -> Option<Seq<char>> {
    match text {
        Some(t) => Some(t@),
        None => None,
    }
}

/// The line that a write outcome is worth: one per change.
pub open spec fn failure_line(
    previous: Option<Seq<char>>,
    current: Option<Seq<char>>,
) -> Option<Seq<char>> {
    if previous == current {
        None
    } else {
        match current {
            Some(message) => Some("history store write failed: "@ + message),
            None => Some("history store writes recovered"@),
        }
    }
}

/// Notes a write outcome and gives the line that it is worth.
pub fn note_failure(previous: &mut Option<String>, current: Option<String>) -> (r: Option<String>)
    ensures
        opt_string(*final(previous)) == opt_string(current),
        opt_string(r) == failure_line(opt_string(*old(previous)), opt_string(current)),
{
    let unchanged = match (&*previous, &current) {
        (Some(a), Some(b)) => same(a.as_str(), b.as_str()),
        (None, None) => true,
        _ => false,
    };
    if unchanged {
        return None;
    }
    let line = match &current {
        Some(message) => cat2("history store write failed: ", message.as_str()),
        None => "history store writes recovered".to_owned(),
    };
    *previous = current;
    Some(line)
}

// ---------------------------------------------------------------------------
// Buckets

/// Start of the epoch-anchored bucket that holds `ts`.
pub open spec fn bucket_start(ts: int, width: int) -> int {
    ts - ts % width
}

/// The values of one bucket.
pub struct Run<V> {
    pub start: int,
    pub rows: Seq<(i64, V)>,
}

/// How many points at the front share the bucket of the first one.
pub open spec fn shared<V>(points: Seq<(i64, V)>, width: int, start: int) -> nat
    decreases points.len(),
{
    if points.len() > 0 && bucket_start(points[0].0 as int, width) == start {
        1 + shared(points.skip(1), width, start)
    } else {
        0
    }
}

/// The points cut into the buckets they fall in, in order. A bucket without
/// points does not appear: a gap stays a gap.
pub open spec fn runs<V>(points: Seq<(i64, V)>, width: int) -> Seq<Run<V>>
    decreases points.len(),
{
    if points.len() == 0 {
        Seq::empty()
    } else {
        let start = bucket_start(points[0].0 as int, width);
        let n = shared(points, width, start) as int;
        if 0 < n <= points.len() {
            seq![Run { start, rows: points.take(n) }] + runs(points.skip(n), width)
        } else {
            Seq::empty()
        }
    }
}

/// A stored point, or the aggregate of a bucket of them.
#[derive(Debug)]
pub enum Pooled {
    /// The double with these bits.
    Last(u64),
    /// The mean of the doubles with these bits.
    Mean(Vec<u64>),
}

/// A stored point, or the aggregate of a bucket of them.
pub enum PooledView {
    Last(u64),
    Mean(Seq<u64>),
}

impl View for Pooled {
    type V = PooledView;

    open spec fn view(&self) -> PooledView {
        match self {
            Pooled::Last(bits) => PooledView::Last(*bits),
            Pooled::Mean(all) => PooledView::Mean(all@),
        }
    }
}

/// Gauges average, counters keep the last value.
pub open spec fn pooled(rows: Seq<(i64, u64)>, kind: Kind) -> PooledView {
    match kind {
        Kind::Gauge => PooledView::Mean(rows.map_values(|row: (i64, u64)| row.1)),
        Kind::Counter => PooledView::Last(rows.last().1),
    }
}

/// The points of a bucketed answer.
pub open spec fn bucketed(points: Seq<(i64, u64)>, width: int, kind: Kind) -> Seq<
    (int, PooledView),
> {
    runs(points, width).map_values(|run: Run<u64>| (run.start, pooled(run.rows, kind)))
}

/// The points of an answer, as mathematical values.
pub open spec fn points_view(points: Seq<(i64, Pooled)>) -> Seq<(int, PooledView)> {
    Seq::new(points.len(), |i: int| (points[i].0 as int, points[i].1@))
}

fn aligned(ts: i64, width: i64) -> (r: i64)
    requires
        width > 0,
        i64::MIN <= bucket_start(ts as int, width as int),
    ensures
        r == bucket_start(ts as int, width as int),
{
    proof {
        let (t, w) = (ts as int, width as int);
        assert(0 <= t % w < w) by (nonlinear_arith)
            requires
                w > 0,
        ;
    }
    match ts.checked_rem_euclid(width) {
        Some(rem) => ts - rem,
        None => ts,
    }
}

proof fn lemma_shared_is<V>(points: Seq<(i64, V)>, width: int, start: int, n: nat)
    requires
        n <= points.len(),
        forall|i: int| 0 <= i < n ==> bucket_start((#[trigger] points[i]).0 as int, width) == start,
        n < points.len() ==> bucket_start(points[n as int].0 as int, width) != start,
    ensures
        shared(points, width, start) == n,
    decreases points.len(),
{
    if n > 0 {
        let t = points.skip(1);
        assert(bucket_start(points[0].0 as int, width) == start);
        assert forall|i: int| 0 <= i < n - 1 implies bucket_start(
            (#[trigger] t[i]).0 as int,
            width,
        ) == start by {
            assert(t[i] == points[i + 1]);
        }
        lemma_shared_is(t, width, start, (n - 1) as nat);
    }
}

/// Collapses points into epoch-anchored buckets of `width_ms`. Empty buckets
/// stay empty.
pub fn bucket(points: &Vec<(i64, u64)>, width_ms: i64, kind: Kind) -> (r: Vec<(i64, Pooled)>)
    requires
        width_ms > 0,
        forall|i: int|
            0 <= i < points@.len() ==> i64::MIN <= bucket_start(
                (#[trigger] points@[i]).0 as int,
                width_ms as int,
            ),
    ensures
        points_view(r@) == bucketed(points@, width_ms as int, kind),
{
    let ghost w = width_ms as int;
    let ghost pool = |run: Run<u64>| (run.start, pooled(run.rows, kind));
    let ghost whole = runs(points@, w);
    let mut out: Vec<(i64, Pooled)> = Vec::new();
    let mut index: usize = 0;
    proof {
        assert(points@.skip(0) =~= points@);
        assert(points_view(out@) + whole.map_values(pool) =~= whole.map_values(pool));
    }
    while index < points.len()
        invariant
            width_ms > 0,
            w == width_ms,
            pool == (|run: Run<u64>| (run.start, pooled(run.rows, kind))),
            whole == runs(points@, w),
            index <= points@.len(),
            forall|i: int|
                0 <= i < points@.len() ==> i64::MIN <= bucket_start(
                    (#[trigger] points@[i]).0 as int,
                    w,
                ),
            points_view(out@) + runs(points@.skip(index as int), w).map_values(pool)
                == whole.map_values(pool),
        decreases points@.len() - index,
    {
        let ghost rest = points@.skip(index as int);
        let ghost before = points_view(out@);
        assert(rest[0] == points@[index as int]);
        let start = aligned(points[index].0, width_ms);
        let mut end: usize = index;
        let mut values: Vec<u64> = Vec::new();
        let mut last: u64 = 0;
        while end < points.len() && aligned(points[end].0, width_ms) == start
            invariant
                width_ms > 0,
                w == width_ms,
                index <= end <= points@.len(),
                start == bucket_start(points@[index as int].0 as int, w),
                forall|i: int|
                    0 <= i < points@.len() ==> i64::MIN <= bucket_start(
                        (#[trigger] points@[i]).0 as int,
                        w,
                    ),
                forall|i: int|
                    index <= i < end ==> bucket_start((#[trigger] points@[i]).0 as int, w) == start,
                values@.len() == end - index,
                forall|i: int| 0 <= i < values@.len() ==> values@[i] == points@[index + i].1,
                end > index ==> last == points@[end - 1].1,
            decreases points@.len() - end,
        {
            last = points[end].1;
            values.push(last);
            end += 1;
        }
        proof {
            let n = (end - index) as nat;
            assert forall|i: int| 0 <= i < n implies bucket_start(
                (#[trigger] rest[i]).0 as int,
                w,
            ) == start by {
                assert(rest[i] == points@[index + i]);
            }
            if n < rest.len() {
                assert(rest[n as int] == points@[end as int]);
            }
            lemma_shared_is(rest, w, start as int, n);
            assert(n > 0);
        }
        let value = match kind {
            Kind::Gauge => Pooled::Mean(values),
            Kind::Counter => Pooled::Last(last),
        };
        let ghost view = value@;
        out.push((start, value));
        proof {
            let n = end - index;
            let rows = rest.take(n);
            assert(values@ =~= rows.map_values(|row: (i64, u64)| row.1));
            assert(rows.last() == points@[end - 1]);
            assert(view == pooled(rows, kind));
            let tail = runs(rest.skip(n), w);
            assert(rest.skip(n) =~= points@.skip(end as int));
            assert(runs(rest, w) == seq![Run { start: start as int, rows }] + tail);
            assert(points_view(out@) =~= before.push((start as int, view)));
            assert(points_view(out@) + tail.map_values(pool) =~= before + runs(
                rest,
                w,
            ).map_values(pool));
        }
        index = end;
    }
    proof {
        assert(runs(points@.skip(index as int), w).map_values(pool) =~= Seq::empty());
        assert(points_view(out@) =~= whole.map_values(pool));
    }
    out
}

// ---------------------------------------------------------------------------
// Range reads

/// A stored row of one series.
#[derive(Debug)]
pub struct Row {
    pub ts_ms: i64,
    pub bits: u64,
    pub honesty: String,
}

/// What a range of one series holds.
#[derive(Debug)]
pub struct SeriesData {
    pub points: Vec<(i64, Pooled)>,
    /// Honesty tag of the newest row in range. `None` when the range holds no
    /// rows: no claim is made about data that is not there.
    pub honesty: Option<Honesty>,
    /// Every distinct honesty tag in range, oldest first.
    pub honesty_tags: Vec<Honesty>,
}

pub open spec fn rows_points(rows: Seq<Row>) -> Seq<(i64, u64)> {
    Seq::new(rows.len(), |i: int| (rows[i].ts_ms, rows[i].bits))
}

/// The distinct honesty tags of rows, oldest first.
pub open spec fn tags(rows: Seq<Row>) -> Seq<Honesty>
    decreases rows.len(),
{
    if rows.len() == 0 {
        Seq::empty()
    } else {
        let head = tags(rows.drop_last());
        match Honesty::tagged(rows.last().honesty@) {
            Some(tag) => if head.contains(tag) {
                head
            } else {
                head.push(tag)
            },
            None => head,
        }
    }
}

/// The tag that speaks for a whole range: the only one.
pub open spec fn sole(tags: Seq<Honesty>) -> Option<Honesty> {
    if tags.len() == 1 {
        Some(tags[0])
    } else {
        None
    }
}

/// The aggregation of a series; one that the catalog does not know averages.
pub open spec fn kind_of(name: Seq<char>) -> Kind {
    match named(name) {
        Some(series) => series.kind,
        None => Kind::Gauge,
    }
}

/// The aggregation of a series.
pub fn series_kind(name: &str) -> (r: Kind)
    ensures
        r == kind_of(name@),
{
    match lookup(name) {
        Some(series) => series.kind,
        None => Kind::Gauge,
    }
}

/// The points that a range read answers with: the stored ones at native
/// resolution, buckets of them at a wider step.
pub open spec fn answered(points: Seq<(i64, u64)>, step_s: int, kind: Kind) -> Seq<
    (int, PooledView),
> {
    if step_s > NATIVE_STEP_S {
        bucketed(points, step_s * 1000, kind)
    } else {
        points.map_values(|p: (i64, u64)| (p.0 as int, PooledView::Last(p.1)))
    }
}

fn knows(tags: &Vec<Honesty>, tag: Honesty) -> (r: bool)
    ensures
        r == tags@.contains(tag),
{
    for i in 0..tags.len()
        invariant
            forall|j: int| 0 <= j < i ==> tags@[j] != tag,
    {
        if tags[i] == tag {
            return true;
        }
    }
    false
}

impl SeriesData {
    /// What `rows`, oldest first, answer for the series `name`.
    pub fn of(rows: &Vec<Row>, name: &str, step_s: i64) -> (r: SeriesData)
        requires
            step_s * 1000 <= i64::MAX,
            step_s > NATIVE_STEP_S ==> forall|i: int|
                0 <= i < rows@.len() ==> i64::MIN <= bucket_start(
                    (#[trigger] rows@[i]).ts_ms as int,
                    step_s * 1000,
                ),
        ensures
            points_view(r.points@) == answered(
                rows_points(rows@),
                step_s as int,
                kind_of(name@),
            ),
            r.honesty == (if rows@.len() == 0 {
                None
            } else {
                Honesty::tagged(rows@.last().honesty@)
            }),
            r.honesty_tags@ == tags(rows@),
    {
        let mut raw: Vec<(i64, u64)> = Vec::new();
        let mut honesty: Option<Honesty> = None;
        let mut honesty_tags: Vec<Honesty> = Vec::new();
        for i in 0..rows.len()
            invariant
                raw@.len() == i,
                forall|j: int| 0 <= j < i ==> raw@[j] == rows_points(rows@)[j],
                honesty == (if i == 0 {
                    None
                } else {
                    Honesty::tagged(rows@[i - 1].honesty@)
                }),
                honesty_tags@ == tags(rows@.take(i as int)),
        {
            let row = &rows[i];
            proof {
                let next = rows@.take(i + 1);
                assert(next.drop_last() =~= rows@.take(i as int));
                assert(next.last() == *row);
            }
            raw.push((row.ts_ms, row.bits));
            honesty = Honesty::from_tag(row.honesty.as_str());
            if let Some(tag) = honesty {
                if !knows(&honesty_tags, tag) {
                    honesty_tags.push(tag);
                }
            }
        }
        proof {
            assert(rows@.take(rows@.len() as int) =~= rows@);
            assert(raw@ =~= rows_points(rows@));
        }
        let points = if step_s > NATIVE_STEP_S {
            let kind = series_kind(name);
            assert forall|i: int| 0 <= i < raw@.len() implies i64::MIN <= bucket_start(
                (#[trigger] raw@[i]).0 as int,
                step_s * 1000,
            ) by {
                assert(raw@[i].0 == rows@[i].ts_ms);
            }
            bucket(&raw, step_s * 1000, kind)
        } else {
            let mut points: Vec<(i64, Pooled)> = Vec::new();
            for i in 0..raw.len()
                invariant
                    points@.len() == i,
                    forall|j: int|
                        0 <= j < i ==> (#[trigger] points@[j]).0 == raw@[j].0 && points@[j].1@
                            == PooledView::Last(raw@[j].1),
            {
                points.push((raw[i].0, Pooled::Last(raw[i].1)));
            }
            assert(points_view(points@) =~= raw@.map_values(
                |p: (i64, u64)| (p.0 as int, PooledView::Last(p.1)),
            ));
            points
        };
        SeriesData { points, honesty, honesty_tags }
    }

    /// The tag that speaks for the whole range: the only one in it.
    pub fn sole_honesty(&self) -> (r: Option<Honesty>)
        ensures
            r == sole(self.honesty_tags@),
    {
        if self.honesty_tags.len() == 1 {
            Some(self.honesty_tags[0])
        } else {
            None
        }
    }
}

// ---------------------------------------------------------------------------
// Maintenance

/// The bounds of a maintenance pass.
#[derive(Clone, Copy, Debug, PartialEq, Eq, Structural)]
pub struct Window {
    /// Rows older than this are deleted.
    pub expiry: i64,
    /// Rows older than this collapse to one row per bucket.
    pub cutoff: i64,
}

/// Retention saturates: an absurd retention keeps everything.
pub open spec fn expiry_of(now_ms: int, retention_days: int) -> int {
    let retention = if retention_days * DAY_MS > i64::MAX {
        i64::MAX as int
    } else {
        retention_days * DAY_MS
    };
    if now_ms - retention < i64::MIN {
        i64::MIN as int
    } else {
        now_ms - retention
    }
}

/// The cutoff is a bucket boundary, so that every bucket below it is complete.
pub open spec fn cutoff_of(now_ms: int) -> int {
    bucket_start(now_ms - RAW_WINDOW_MS, BUCKET_MS as int)
}

/// The bounds of the pass that runs at `now_ms`.
pub fn window(now_ms: i64, retention_days: u64) -> (r: Window)
    requires
        i64::MIN <= cutoff_of(now_ms as int),
    ensures
        r.expiry == expiry_of(now_ms as int, retention_days as int),
        r.cutoff == cutoff_of(now_ms as int),
{
    let days: i128 = retention_days as i128;
    let wanted: i128 = days * (DAY_MS as i128);
    let retention: i128 = if wanted > i64::MAX as i128 {
        i64::MAX as i128
    } else {
        wanted
    };
    let oldest: i128 = now_ms as i128 - retention;
    let expiry: i64 = if oldest < i64::MIN as i128 {
        i64::MIN
    } else {
        oldest as i64
    };
    Window { expiry, cutoff: aligned(now_ms - RAW_WINDOW_MS, BUCKET_MS) }
}

/// The rows of one bucket of one series, as the store groups them.
#[derive(Debug)]
pub struct Candidate {
    pub instance: String,
    pub series: String,
    pub bucket: i64,
    pub count: i64,
    pub newest_ts: i64,
    /// Bits of the mean of the values.
    pub mean: u64,
    /// Bits of the newest value.
    pub last: u64,
    pub source: String,
    pub honesty: String,
}

/// Replace every row from `from` up to but not at `until` by one row at `from`.
#[derive(Clone, Copy, Debug, PartialEq, Eq, Structural)]
pub struct Rewrite {
    pub from: i64,
    pub until: i64,
    pub bits: u64,
}

/// A bucket that is already one aligned row is left alone.
pub open spec fn settled(count: int, newest_ts: int, bucket: int) -> bool {
    count == 1 && newest_ts == bucket
}

/// What the rows of a bucket collapse to: a gauge to their mean, whatever the
/// store makes of it, and a counter to the newest of them.
pub open spec fn pool_of(kind: Kind, mean: spec_fn(Seq<(i64, u64)>) -> u64) -> spec_fn(
    Seq<(i64, u64)>,
) -> u64 {
    |rows: Seq<(i64, u64)>|
        match kind {
            Kind::Gauge => mean(rows),
            Kind::Counter => rows.last().1,
        }
}

/// What a rewrite leaves of a bucket.
pub open spec fn remnant(rewrite: Option<Rewrite>, run: Run<u64>) -> (i64, u64) {
    match rewrite {
        Some(rewrite) => (rewrite.from, rewrite.bits),
        None => run.rows[0],
    }
}

impl Candidate {
    /// Whether this is how the store groups the rows of a bucket.
    pub open spec fn describes(
        &self,
        run: Run<u64>,
        mean: spec_fn(Seq<(i64, u64)>) -> u64,
    ) -> bool {
        &&& run.rows.len() > 0
        &&& self.bucket == run.start
        &&& self.count == run.rows.len()
        &&& self.newest_ts == run.rows.last().0
        &&& self.mean == mean(run.rows)
        &&& self.last == run.rows.last().1
    }

    pub open spec fn rewritten(&self) -> Option<Rewrite> {
        if settled(self.count as int, self.newest_ts as int, self.bucket as int) {
            None
        } else {
            Some(
                Rewrite {
                    from: self.bucket,
                    until: (self.bucket + BUCKET_MS) as i64,
                    bits: match kind_of(self.series@) {
                        Kind::Gauge => self.mean,
                        Kind::Counter => self.last,
                    },
                },
            )
        }
    }

    /// What the pass does to this bucket: nothing where it is already one
    /// aligned row; otherwise a gauge collapses to the mean of its rows and a
    /// counter to the newest of them.
    pub fn rewrite(&self) -> (r: Option<Rewrite>)
        requires
            self.bucket + BUCKET_MS <= i64::MAX,
        ensures
            r == self.rewritten(),
            forall|run: Run<u64>, mean: spec_fn(Seq<(i64, u64)>) -> u64| #[trigger]
                self.describes(run, mean) ==> remnant(r, run) == settle(
                    run,
                    pool_of(kind_of(self.series@), mean),
                ),
    {
        if self.count == 1 && self.newest_ts == self.bucket {
            return None;
        }
        let bits = match series_kind(self.series.as_str()) {
            Kind::Gauge => self.mean,
            Kind::Counter => self.last,
        };
        Some(Rewrite { from: self.bucket, until: self.bucket + BUCKET_MS, bits })
    }
}

// ---------------------------------------------------------------------------
// Laws

/// Rows of one series, oldest first: timestamps are its key.
pub open spec fn sorted<V>(rows: Seq<(i64, V)>) -> bool {
    forall|i: int, j: int| 0 <= i < j < rows.len() ==> (#[trigger] rows[i]).0 < (#[trigger] rows[j]).0
}

/// The rows of all runs, one run after the other.
pub open spec fn joined<V>(runs: Seq<Run<V>>) -> Seq<(i64, V)>
    decreases runs.len(),
{
    if runs.len() == 0 {
        Seq::empty()
    } else {
        runs[0].rows + joined(runs.skip(1))
    }
}

proof fn lemma_shared<V>(points: Seq<(i64, V)>, width: int, start: int)
    ensures
        shared(points, width, start) <= points.len(),
        forall|i: int|
            0 <= i < shared(points, width, start) ==> bucket_start(
                (#[trigger] points[i]).0 as int,
                width,
            ) == start,
        shared(points, width, start) < points.len() ==> bucket_start(
            points[shared(points, width, start) as int].0 as int,
            width,
        ) != start,
    decreases points.len(),
{
    if points.len() > 0 && bucket_start(points[0].0 as int, width) == start {
        let t = points.skip(1);
        lemma_shared(t, width, start);
        let n = shared(points, width, start);
        assert forall|i: int| 0 <= i < n implies bucket_start(
            (#[trigger] points[i]).0 as int,
            width,
        ) == start by {
            if i > 0 {
                assert(t[i - 1] == points[i]);
            }
        }
        if n < points.len() {
            assert(t[n - 1] == points[n as int]);
        }
    }
}

/// Bucketing loses no point, invents none and keeps their order; each point
/// lies in the bucket it is put in, starts are epoch-anchored, and no bucket
/// is empty.
pub proof fn law_buckets_hold_exactly_the_points<V>(points: Seq<(i64, V)>, width: int)
    requires
        width > 0,
    ensures
        joined(runs(points, width)) == points,
        forall|i: int|
            0 <= i < runs(points, width).len() ==> {
                let run = #[trigger] runs(points, width)[i];
                &&& run.rows.len() > 0
                &&& run.start % width == 0
                &&& forall|j: int|
                    0 <= j < run.rows.len() ==> bucket_start(
                        (#[trigger] run.rows[j]).0 as int,
                        width,
                    ) == run.start
            },
    decreases points.len(),
{
    if points.len() > 0 {
        let start = bucket_start(points[0].0 as int, width);
        lemma_shared(points, width, start);
        let n = shared(points, width, start) as int;
        let rest = points.skip(n);
        let first = Run { start, rows: points.take(n) };
        law_buckets_hold_exactly_the_points(rest, width);
        let all = runs(points, width);
        let tail = runs(rest, width);
        assert(all == seq![first] + tail);
        assert(all.skip(1) =~= tail);
        assert(joined(all) =~= points);
        lemma_aligned(points[0].0 as int, width);
        assert forall|i: int| 0 <= i < all.len() implies {
            let run = #[trigger] all[i];
            &&& run.rows.len() > 0
            &&& run.start % width == 0
            &&& forall|j: int|
                0 <= j < run.rows.len() ==> bucket_start((#[trigger] run.rows[j]).0 as int, width)
                    == run.start
        } by {
            if i == 0 {
                let run = all[0];
                assert(run == first);
                assert forall|j: int| 0 <= j < run.rows.len() implies bucket_start(
                    (#[trigger] run.rows[j]).0 as int,
                    width,
                ) == run.start by {
                    assert(run.rows[j] == points[j]);
                }
            } else {
                assert(all[i] == tail[i - 1]);
            }
        }
    } else {
        assert(joined(runs(points, width)) =~= points);
    }
}

pub(crate) proof fn lemma_aligned(ts: int, width: int)
    requires
        width > 0,
    ensures
        bucket_start(ts, width) % width == 0,
        bucket_start(ts, width) <= ts < bucket_start(ts, width) + width,
        bucket_start(bucket_start(ts, width), width) == bucket_start(ts, width),
{
    assert(bucket_start(ts, width) % width == 0 && 0 <= ts % width < width) by (nonlinear_arith)
        requires
            width > 0,
            bucket_start(ts, width) == ts - ts % width,
    {
        assert(ts - ts % width == width * (ts / width));
        assert((width * (ts / width)) % width == 0);
    }
}

proof fn lemma_starts_ordered(a: int, b: int, width: int)
    requires
        width > 0,
        a <= b,
    ensures
        bucket_start(a, width) <= bucket_start(b, width),
{
    assert(bucket_start(a, width) <= bucket_start(b, width)) by (nonlinear_arith)
        requires
            width > 0,
            a <= b,
            bucket_start(a, width) == a - a % width,
            bucket_start(b, width) == b - b % width,
    {
        assert(a - a % width == width * (a / width));
        assert(b - b % width == width * (b / width));
        assert(a / width <= b / width);
    }
}

/// An answer's buckets come oldest first, each once.
pub proof fn law_bucket_starts_increase<V>(points: Seq<(i64, V)>, width: int, i: int, j: int)
    requires
        width > 0,
        sorted(points),
        0 <= i < j < runs(points, width).len(),
    ensures
        runs(points, width)[i].start < runs(points, width)[j].start,
    decreases points.len(),
{
    let start = bucket_start(points[0].0 as int, width);
    lemma_shared(points, width, start);
    let n = shared(points, width, start) as int;
    let rest = points.skip(n);
    let tail = runs(rest, width);
    assert(runs(points, width) == seq![Run { start, rows: points.take(n) }] + tail);
    assert(sorted(rest)) by {
        assert forall|a: int, b: int| 0 <= a < b < rest.len() implies (#[trigger] rest[a]).0 < (
        #[trigger] rest[b]).0 by {
            assert(rest[a] == points[a + n] && rest[b] == points[b + n]);
        }
    }
    if i > 0 {
        law_bucket_starts_increase(rest, width, i - 1, j - 1);
        assert(runs(points, width)[i] == tail[i - 1]);
        assert(runs(points, width)[j] == tail[j - 1]);
    } else {
        assert(runs(points, width)[j] == tail[j - 1]);
        assert(rest[0] == points[n]);
        assert(points[0].0 < points[n].0);
        lemma_starts_ordered(points[0].0 as int, points[n].0 as int, width);
        assert(tail[0].start == bucket_start(points[n].0 as int, width));
        if j > 1 {
            law_bucket_starts_increase(rest, width, 0, j - 1);
        }
    }
}

/// How many rows at the front are older than `bound`.
pub open spec fn older<V>(rows: Seq<(i64, V)>, bound: int) -> nat
    decreases rows.len(),
{
    if rows.len() > 0 && rows[0].0 < bound {
        1 + older(rows.skip(1), bound)
    } else {
        0
    }
}

/// One collapsed bucket: left alone where it is settled, one aligned row of
/// the pooled value otherwise.
pub open spec fn settle<V>(run: Run<V>, pool: spec_fn(Seq<(i64, V)>) -> V) -> (i64, V) {
    if settled(run.rows.len() as int, run.rows.last().0 as int, run.start) {
        run.rows[0]
    } else {
        (run.start as i64, pool(run.rows))
    }
}

/// Rows collapsed to one per bucket.
pub open spec fn collapsed<V>(rows: Seq<(i64, V)>, pool: spec_fn(Seq<(i64, V)>) -> V) -> Seq<
    (i64, V),
> {
    runs(rows, BUCKET_MS as int).map_values(|run: Run<V>| settle(run, pool))
}

/// What a pass leaves of one series' rows: those past retention are gone,
/// those before the cutoff are collapsed, the rest are as they were.
pub open spec fn passed<V>(
    rows: Seq<(i64, V)>,
    expiry: int,
    cutoff: int,
    pool: spec_fn(Seq<(i64, V)>) -> V,
) -> Seq<(i64, V)> {
    let a = older(rows, expiry) as int;
    let b = if older(rows, cutoff) > a {
        older(rows, cutoff) as int
    } else {
        a
    };
    collapsed(rows.subrange(a, b), pool) + rows.skip(b)
}

pub(crate) proof fn lemma_older<V>(rows: Seq<(i64, V)>, bound: int)
    requires
        sorted(rows),
    ensures
        older(rows, bound) <= rows.len(),
        forall|i: int| 0 <= i < older(rows, bound) ==> (#[trigger] rows[i]).0 < bound,
        forall|i: int| older(rows, bound) <= i < rows.len() ==> (#[trigger] rows[i]).0 >= bound,
    decreases rows.len(),
{
    if rows.len() > 0 {
        if rows[0].0 < bound {
            let t = rows.skip(1);
            assert(sorted(t)) by {
                assert forall|a: int, b: int| 0 <= a < b < t.len() implies (#[trigger] t[a]).0 < (
                #[trigger] t[b]).0 by {
                    assert(t[a] == rows[a + 1] && t[b] == rows[b + 1]);
                }
            }
            lemma_older(t, bound);
            let n = older(rows, bound);
            assert forall|i: int| 0 <= i < n implies (#[trigger] rows[i]).0 < bound by {
                if i > 0 {
                    assert(t[i - 1] == rows[i]);
                }
            }
            assert forall|i: int| n <= i < rows.len() implies (#[trigger] rows[i]).0 >= bound by {
                assert(t[i - 1] == rows[i]);
            }
        } else {
            assert forall|i: int| 0 <= i < rows.len() implies (#[trigger] rows[i]).0 >= bound by {
                if i > 0 {
                    assert(rows[0].0 < rows[i].0);
                }
            }
        }
    }
}

pub(crate) proof fn lemma_older_is<V>(rows: Seq<(i64, V)>, bound: int, n: nat)
    requires
        n <= rows.len(),
        forall|i: int| 0 <= i < n ==> (#[trigger] rows[i]).0 < bound,
        n < rows.len() ==> rows[n as int].0 >= bound,
    ensures
        older(rows, bound) == n,
    decreases rows.len(),
{
    if n > 0 {
        let t = rows.skip(1);
        assert(rows[0].0 < bound);
        assert forall|i: int| 0 <= i < n - 1 implies (#[trigger] t[i]).0 < bound by {
            assert(t[i] == rows[i + 1]);
        }
        lemma_older_is(t, bound, (n - 1) as nat);
    }
}

/// Rows that all lie on bucket starts are buckets of one row each.
pub(crate) proof fn lemma_settled_runs<V>(rows: Seq<(i64, V)>)
    requires
        sorted(rows),
        forall|i: int|
            0 <= i < rows.len() ==> bucket_start((#[trigger] rows[i]).0 as int, BUCKET_MS as int)
                == rows[i].0,
    ensures
        runs(rows, BUCKET_MS as int).len() == rows.len(),
        forall|i: int|
            0 <= i < rows.len() ==> (#[trigger] runs(rows, BUCKET_MS as int)[i]) == (Run {
                start: rows[i].0 as int,
                rows: seq![rows[i]],
            }),
    decreases rows.len(),
{
    let w = BUCKET_MS as int;
    if rows.len() > 0 {
        let start = bucket_start(rows[0].0 as int, w);
        let t = rows.skip(1);
        assert forall|i: int| 0 <= i < t.len() implies bucket_start(
            (#[trigger] t[i]).0 as int,
            w,
        ) == t[i].0 by {
            assert(t[i] == rows[i + 1]);
        }
        assert(sorted(t)) by {
            assert forall|a: int, b: int| 0 <= a < b < t.len() implies (#[trigger] t[a]).0 < (
            #[trigger] t[b]).0 by {
                assert(t[a] == rows[a + 1] && t[b] == rows[b + 1]);
            }
        }
        if rows.len() > 1 {
            assert(rows[0].0 < rows[1].0);
            assert(bucket_start(rows[1].0 as int, w) == rows[1].0);
        }
        lemma_shared_is(rows, w, start, 1);
        lemma_settled_runs(t);
        let run = Run { start, rows: rows.take(1) };
        assert(run.rows =~= seq![rows[0]]);
        let all = runs(rows, w);
        assert(all == seq![run] + runs(t, w));
        assert forall|i: int| 0 <= i < rows.len() implies (#[trigger] all[i]) == (Run {
            start: rows[i].0 as int,
            rows: seq![rows[i]],
        }) by {
            if i > 0 {
                assert(all[i] == runs(t, w)[i - 1]);
                assert(t[i - 1] == rows[i]);
            }
        }
    }
}

/// Rows that all lie on bucket starts are already collapsed.
proof fn lemma_settled_rows_stay<V>(rows: Seq<(i64, V)>, pool: spec_fn(Seq<(i64, V)>) -> V)
    requires
        sorted(rows),
        forall|i: int|
            0 <= i < rows.len() ==> bucket_start((#[trigger] rows[i]).0 as int, BUCKET_MS as int)
                == rows[i].0,
    ensures
        collapsed(rows, pool) == rows,
{
    lemma_settled_runs(rows);
    assert(collapsed(rows, pool) =~= rows);
}

/// Collapsing gives one row per bucket, on the bucket's start, oldest first.
proof fn lemma_collapsed<V>(rows: Seq<(i64, V)>, pool: spec_fn(Seq<(i64, V)>) -> V)
    requires
        sorted(rows),
        forall|i: int|
            0 <= i < rows.len() ==> i64::MIN <= bucket_start(
                (#[trigger] rows[i]).0 as int,
                BUCKET_MS as int,
            ),
    ensures
        sorted(collapsed(rows, pool)),
        collapsed(rows, pool).len() == runs(rows, BUCKET_MS as int).len(),
        forall|i: int|
            0 <= i < collapsed(rows, pool).len() ==> {
                let ts = (#[trigger] collapsed(rows, pool)[i]).0 as int;
                &&& bucket_start(ts, BUCKET_MS as int) == ts
                &&& exists|k: int|
                    0 <= k < rows.len() && ts == bucket_start(
                        (#[trigger] rows[k]).0 as int,
                        BUCKET_MS as int,
                    )
            },
{
    let w = BUCKET_MS as int;
    let all = runs(rows, w);
    let out = collapsed(rows, pool);
    law_buckets_hold_exactly_the_points(rows, w);
    assert forall|i: int| 0 <= i < out.len() implies (#[trigger] out[i]).0 == all[i].start
        && exists|k: int|
        0 <= k < rows.len() && all[i].start == bucket_start((#[trigger] rows[k]).0 as int, w) by {
        let run = all[i];
        let row = run.rows[0];
        let k = lemma_joined_has(all, i, 0);
        assert(rows[k] == row);
        assert(bucket_start(row.0 as int, w) == run.start);
        lemma_aligned(row.0 as int, w);
        assert(i64::MIN <= bucket_start(rows[k].0 as int, w));
        if settled(run.rows.len() as int, run.rows.last().0 as int, run.start) {
            assert(run.rows.last() == row);
        }
    }
    assert forall|i: int| 0 <= i < out.len() implies {
        let ts = (#[trigger] out[i]).0 as int;
        &&& bucket_start(ts, w) == ts
        &&& exists|k: int| 0 <= k < rows.len() && ts == bucket_start((#[trigger] rows[k]).0 as int, w)
    } by {
        assert(out[i].0 == all[i].start);
        let k = choose|k: int|
            0 <= k < rows.len() && all[i].start == bucket_start((#[trigger] rows[k]).0 as int, w);
        lemma_aligned(rows[k].0 as int, w);
    }
    assert forall|i: int, j: int| 0 <= i < j < out.len() implies (#[trigger] out[i]).0 < (
    #[trigger] out[j]).0 by {
        law_bucket_starts_increase(rows, w, i, j);
    }
}

/// A row of a run is a row of the joined runs.
pub(crate) proof fn lemma_joined_has<V>(runs: Seq<Run<V>>, i: int, j: int) -> (k: int)
    requires
        0 <= i < runs.len(),
        0 <= j < runs[i].rows.len(),
    ensures
        0 <= k < joined(runs).len(),
        joined(runs)[k] == runs[i].rows[j],
    decreases runs.len(),
{
    if i == 0 {
        j
    } else {
        let t = runs.skip(1);
        assert(t[i - 1] == runs[i]);
        let k = lemma_joined_has(t, i - 1, j);
        k + runs[0].rows.len()
    }
}

/// A rewrite replaces the rows of its bucket and no other: a row lies between
/// its bounds exactly where the bucket is the row's own.
pub proof fn law_rewrites_cover_exactly_their_bucket(candidate: Candidate, ts: int)
    requires
        candidate.bucket as int % (BUCKET_MS as int) == 0,
        candidate.bucket + BUCKET_MS <= i64::MAX,
    ensures
        candidate.rewritten() matches Some(rewrite) ==> rewrite.from == candidate.bucket && (
        rewrite.from <= ts < rewrite.until <==> bucket_start(ts, BUCKET_MS as int)
            == candidate.bucket),
{
    lemma_aligned(ts, BUCKET_MS as int);
}

/// What a pass leaves: nothing that has expired, and in front of the cutoff one
/// row for each bucket, on its start.
pub(crate) proof fn lemma_passed<V>(
    rows: Seq<(i64, V)>,
    expiry: int,
    cutoff: int,
    pool: spec_fn(Seq<(i64, V)>) -> V,
)
    requires
        sorted(rows),
        i64::MIN <= expiry,
        cutoff % (BUCKET_MS as int) == 0,
        forall|i: int|
            0 <= i < rows.len() && expiry <= (#[trigger] rows[i]).0 < cutoff ==> expiry
                <= bucket_start(rows[i].0 as int, BUCKET_MS as int),
    ensures
        ({
            let out = passed(rows, expiry, cutoff, pool);
            let n = older(out, cutoff) as int;
            &&& older(out, expiry) == 0
            &&& n <= out.len()
            &&& sorted(out.take(n))
            &&& forall|i: int|
                0 <= i < n ==> bucket_start((#[trigger] out[i]).0 as int, BUCKET_MS as int)
                    == out[i].0
        }),
{
    let w = BUCKET_MS as int;
    lemma_older(rows, expiry);
    lemma_older(rows, cutoff);
    let a = older(rows, expiry) as int;
    let b = if older(rows, cutoff) > a {
        older(rows, cutoff) as int
    } else {
        a
    };
    let old_rows = rows.subrange(a, b);
    let rest = rows.skip(b);
    assert forall|i: int| 0 <= i < old_rows.len() implies expiry <= bucket_start(
        (#[trigger] old_rows[i]).0 as int,
        w,
    ) && old_rows[i].0 < cutoff && i64::MIN <= bucket_start(old_rows[i].0 as int, w) by {
        assert(old_rows[i] == rows[a + i]);
    }
    assert(sorted(old_rows)) by {
        assert forall|i: int, j: int| 0 <= i < j < old_rows.len() implies (#[trigger] old_rows[i]).0
            < (#[trigger] old_rows[j]).0 by {
            assert(old_rows[i] == rows[a + i] && old_rows[j] == rows[a + j]);
        }
    }
    let c = collapsed(old_rows, pool);
    lemma_collapsed(old_rows, pool);
    let out = c + rest;
    assert forall|i: int| 0 <= i < c.len() implies expiry <= (#[trigger] c[i]).0 < cutoff by {
        let ts = c[i].0 as int;
        let k = choose|k: int|
            0 <= k < old_rows.len() && ts == bucket_start((#[trigger] old_rows[k]).0 as int, w);
        lemma_aligned(old_rows[k].0 as int, w);
    }
    assert forall|i: int| 0 <= i < rest.len() implies expiry <= (#[trigger] rest[i]).0 && cutoff
        <= rest[i].0 by {
        assert(rest[i] == rows[b + i]);
    }
    if out.len() > 0 {
        assert(out[0].0 >= expiry) by {
            if c.len() > 0 {
                assert(out[0] == c[0]);
            } else {
                assert(out[0] == rest[0]);
            }
        }
    }
    lemma_older_is(out, expiry, 0);
    assert forall|i: int| 0 <= i < c.len() implies (#[trigger] out[i]).0 < cutoff by {
        assert(out[i] == c[i]);
    }
    if c.len() < out.len() {
        assert(out[c.len() as int] == rest[0]);
    }
    lemma_older_is(out, cutoff, c.len());
    assert(out.take(c.len() as int) =~= c);
    assert forall|i: int| 0 <= i < c.len() implies bucket_start((#[trigger] c[i]).0 as int, w)
        == c[i].0 by {
        let ts = c[i].0 as int;
    }
}

/// A second pass with the same bounds changes nothing, as long as no row that
/// the first pass collapses shares its bucket with the end of retention: such
/// a row moves to the start of the bucket, where retention does not reach.
pub proof fn law_maintenance_is_idempotent<V>(
    rows: Seq<(i64, V)>,
    expiry: int,
    cutoff: int,
    pool: spec_fn(Seq<(i64, V)>) -> V,
)
    requires
        sorted(rows),
        i64::MIN <= expiry,
        cutoff % (BUCKET_MS as int) == 0,
        forall|i: int|
            0 <= i < rows.len() && expiry <= (#[trigger] rows[i]).0 < cutoff ==> expiry
                <= bucket_start(rows[i].0 as int, BUCKET_MS as int),
    ensures
        passed(passed(rows, expiry, cutoff, pool), expiry, cutoff, pool) == passed(
            rows,
            expiry,
            cutoff,
            pool,
        ),
{
    let out = passed(rows, expiry, cutoff, pool);
    let n = older(out, cutoff) as int;
    lemma_passed(rows, expiry, cutoff, pool);
    let c = out.subrange(0, n);
    assert(out.take(n) =~= c);
    assert forall|i: int| 0 <= i < c.len() implies bucket_start(
        (#[trigger] c[i]).0 as int,
        BUCKET_MS as int,
    ) == c[i].0 by {
        assert(c[i] == out[i]);
    }
    lemma_settled_rows_stay(c, pool);
    assert(c + out.skip(n) =~= out);
}

/// Rows at or after the cutoff are inside the raw window: those of them that a
/// pass does not expire are left as they are, at the end of what it leaves.
pub proof fn law_fresh_rows_are_left_alone<V>(
    rows: Seq<(i64, V)>,
    expiry: int,
    cutoff: int,
    pool: spec_fn(Seq<(i64, V)>) -> V,
)
    requires
        sorted(rows),
    ensures
        ({
            let bound = if expiry > cutoff {
                expiry
            } else {
                cutoff
            };
            &&& rows.skip(older(rows, bound) as int).is_suffix_of(
                passed(rows, expiry, cutoff, pool),
            )
            &&& older(rows, bound) == 0 ==> passed(rows, expiry, cutoff, pool) == rows
        }),
{
    lemma_older(rows, expiry);
    lemma_older(rows, cutoff);
    let a = older(rows, expiry) as int;
    let c = older(rows, cutoff) as int;
    let b = if c > a {
        c
    } else {
        a
    };
    if expiry > cutoff {
        if c > a {
            assert(rows[a].0 < cutoff);
        }
        assert(b == a);
    } else {
        if a > c {
            assert(rows[c].0 < expiry);
        }
        assert(b == c);
    }
    let out = passed(rows, expiry, cutoff, pool);
    let rest = rows.skip(b);
    assert(out == collapsed(rows.subrange(a, b), pool) + rest);
    assert(out.subrange(out.len() - rest.len(), out.len() as int) =~= rest);
    if b == 0 {
        assert(collapsed(rows.subrange(a, b), pool) =~= Seq::empty());
        assert(out =~= rows);
    }
}

/// Retention never wraps: it deletes nothing at or after the present, and
/// more days never delete more.
pub proof fn law_retention_saturates(now_ms: int, few: int, many: int)
    requires
        i64::MIN <= now_ms <= i64::MAX,
        0 <= few <= many,
    ensures
        i64::MIN <= expiry_of(now_ms, many) <= expiry_of(now_ms, few) <= now_ms,
{
}

/// The cutoff lies on a bucket boundary at least the raw window back.
pub proof fn law_cutoff_is_aligned(now_ms: int)
    ensures
        cutoff_of(now_ms) % (BUCKET_MS as int) == 0,
        now_ms - RAW_WINDOW_MS - BUCKET_MS < cutoff_of(now_ms) <= now_ms - RAW_WINDOW_MS,
{
    lemma_aligned(now_ms - RAW_WINDOW_MS, BUCKET_MS as int);
}

/// An answer never holds more points than the rows it is made of.
pub proof fn law_buckets_never_multiply<V>(points: Seq<(i64, V)>, width: int)
    ensures
        runs(points, width).len() <= points.len(),
    decreases points.len(),
{
    if points.len() > 0 {
        let start = bucket_start(points[0].0 as int, width);
        lemma_shared(points, width, start);
        law_buckets_never_multiply(points.skip(shared(points, width, start) as int), width);
    }
}

// ---------------------------------------------------------------------------
// What an answer is made of

/// A time lies in the bucket of a start exactly where it is no more than the
/// width past it.
proof fn lemma_in_bucket(ts: int, start: int, width: int)
    requires
        width > 0,
        start % width == 0,
    ensures
        start <= ts < start + width <==> bucket_start(ts, width) == start,
{
    lemma_aligned(ts, width);
    if start <= ts < start + width {
        let q = start / width;
        assert(start == width * q) by (nonlinear_arith)
            requires
                width > 0,
                start % width == 0,
                q == start / width,
        ;
        assert(ts == q * width + (ts - start)) by (nonlinear_arith)
            requires
                start == width * q,
        ;
        vstd::arithmetic::div_mod::lemma_fundamental_div_mod_converse(ts, width, q, ts - start);
    }
}

/// The rows of a run stand next to each other, and the rows around them lie in
/// earlier and in later buckets.
proof fn lemma_run_is_a_range<V>(points: Seq<(i64, V)>, width: int, k: int) -> (a: int)
    requires
        width > 0,
        sorted(points),
        0 <= k < runs(points, width).len(),
    ensures
        ({
            let run = runs(points, width)[k];
            let b = a + run.rows.len();
            &&& 0 <= a < b <= points.len()
            &&& run.rows == points.subrange(a, b)
            &&& forall|i: int|
                0 <= i < a ==> bucket_start((#[trigger] points[i]).0 as int, width) < run.start
            &&& forall|i: int|
                a <= i < b ==> bucket_start((#[trigger] points[i]).0 as int, width) == run.start
            &&& forall|i: int|
                b <= i < points.len() ==> bucket_start((#[trigger] points[i]).0 as int, width)
                    > run.start
        }),
    decreases points.len(),
{
    let start = bucket_start(points[0].0 as int, width);
    lemma_shared(points, width, start);
    let n = shared(points, width, start) as int;
    let rest = points.skip(n);
    let all = runs(points, width);
    let tail = runs(rest, width);
    let first = Run { start, rows: points.take(n) };
    assert(all == seq![first] + tail);
    assert(sorted(rest)) by {
        assert forall|i: int, j: int| 0 <= i < j < rest.len() implies (#[trigger] rest[i]).0 < (
        #[trigger] rest[j]).0 by {
            assert(rest[i] == points[i + n] && rest[j] == points[j + n]);
        }
    }
    if k == 0 {
        assert(first.rows =~= points.subrange(0, n));
        assert forall|i: int| n <= i < points.len() implies bucket_start(
            (#[trigger] points[i]).0 as int,
            width,
        ) > start by {
            assert(points[0].0 < points[n].0);
            lemma_starts_ordered(points[0].0 as int, points[n].0 as int, width);
            if i > n {
                assert(points[n].0 < points[i].0);
                lemma_starts_ordered(points[n].0 as int, points[i].0 as int, width);
            }
        }
        0
    } else {
        assert(all[k] == tail[k - 1]);
        let a = lemma_run_is_a_range(rest, width, k - 1);
        let b = a + all[k].rows.len();
        law_bucket_starts_increase(points, width, 0, k);
        assert(rest.subrange(a, b) =~= points.subrange(a + n, b + n));
        assert forall|i: int| 0 <= i < a + n implies bucket_start(
            (#[trigger] points[i]).0 as int,
            width,
        ) < all[k].start by {
            if i >= n {
                assert(points[i] == rest[i - n]);
            }
        }
        assert forall|i: int| a + n <= i < b + n implies bucket_start(
            (#[trigger] points[i]).0 as int,
            width,
        ) == all[k].start by {
            assert(points[i] == rest[i - n]);
        }
        assert forall|i: int| b + n <= i < points.len() implies bucket_start(
            (#[trigger] points[i]).0 as int,
            width,
        ) > all[k].start by {
            assert(points[i] == rest[i - n]);
        }
        a + n
    }
}

/// Every row is in one of the runs.
proof fn lemma_every_row_has_a_run<V>(points: Seq<(i64, V)>, width: int, i: int) -> (k: int)
    requires
        width > 0,
        0 <= i < points.len(),
    ensures
        0 <= k < runs(points, width).len(),
        runs(points, width)[k].start == bucket_start(points[i].0 as int, width),
    decreases points.len(),
{
    let start = bucket_start(points[0].0 as int, width);
    lemma_shared(points, width, start);
    let n = shared(points, width, start) as int;
    let rest = points.skip(n);
    let first = Run { start, rows: points.take(n) };
    assert(runs(points, width) == seq![first] + runs(rest, width));
    if i < n {
        0
    } else {
        assert(rest[i - n] == points[i]);
        lemma_every_row_has_a_run(rest, width, i - n) + 1
    }
}

/// A point of an answer at a step of more than a second stands at a multiple
/// of the step, and it speaks for exactly the rows that lie less than one step
/// past it: a gauge is the mean over every one of their values, in order and
/// each once, a counter is the value of the newest of them. The rows are those
/// from the first number returned up to the second.
pub proof fn law_a_point_speaks_for_its_step(
    points: Seq<(i64, u64)>,
    step_s: int,
    kind: Kind,
    k: int,
) -> (range: (int, int))
    requires
        step_s > 1,
        sorted(points),
        0 <= k < answered(points, step_s, kind).len(),
    ensures
        ({
            let (a, b) = range;
            let (start, value) = answered(points, step_s, kind)[k];
            &&& 0 <= a < b <= points.len()
            &&& start % (step_s * 1000) == 0
            &&& forall|i: int|
                0 <= i < points.len() ==> (a <= i < b <==> start <= (#[trigger] points[i]).0 < start
                    + step_s * 1000)
            &&& kind is Gauge ==> value == PooledView::Mean(
                Seq::new((b - a) as nat, |j: int| points[a + j].1),
            )
            &&& kind is Counter ==> value == PooledView::Last(points[b - 1].1)
        }),
{
    let width = step_s * 1000;
    let run = runs(points, width)[k];
    let a = lemma_run_is_a_range(points, width, k);
    let b = a + run.rows.len();
    law_buckets_hold_exactly_the_points(points, width);
    assert forall|i: int| 0 <= i < points.len() implies (a <= i < b <==> run.start <= (
    #[trigger] points[i]).0 < run.start + width) by {
        lemma_in_bucket(points[i].0 as int, run.start, width);
    }
    assert(run.rows.map_values(|row: (i64, u64)| row.1) =~= Seq::new(
        (b - a) as nat,
        |j: int| points[a + j].1,
    ));
    (a, b)
}

/// No row is left out of an answer at a step of more than a second: the one
/// point returned, and no other, stands less than one step before it.
pub proof fn law_every_row_is_spoken_for(
    points: Seq<(i64, u64)>,
    step_s: int,
    kind: Kind,
    i: int,
) -> (k: int)
    requires
        step_s > 1,
        sorted(points),
        0 <= i < points.len(),
    ensures
        0 <= k < answered(points, step_s, kind).len(),
        forall|m: int|
            0 <= m < answered(points, step_s, kind).len() ==> (m == k <==> (
            #[trigger] answered(points, step_s, kind)[m]).0 <= points[i].0 < answered(
                points,
                step_s,
                kind,
            )[m].0 + step_s * 1000),
{
    let width = step_s * 1000;
    let all = runs(points, width);
    let out = answered(points, step_s, kind);
    let k = lemma_every_row_has_a_run(points, width, i);
    law_buckets_hold_exactly_the_points(points, width);
    assert forall|m: int| 0 <= m < out.len() implies (m == k <==> (#[trigger] out[m]).0
        <= points[i].0 < out[m].0 + width) by {
        assert(out[m].0 == all[m].start);
        lemma_in_bucket(points[i].0 as int, all[m].start, width);
        if m < k {
            law_bucket_starts_increase(points, width, m, k);
        } else if k < m {
            law_bucket_starts_increase(points, width, k, m);
        }
    }
    k
}

/// The values that the points of an answer are made of, point after point.
pub open spec fn values_behind(points: Seq<(int, PooledView)>) -> Seq<u64>
    decreases points.len(),
{
    if points.len() == 0 {
        Seq::empty()
    } else {
        let first = match points[0].1 {
            PooledView::Mean(all) => all,
            PooledView::Last(bits) => seq![bits],
        };
        first + values_behind(points.skip(1))
    }
}

/// An answer for a gauge loses no sample and invents none: the values behind
/// its points, put one after the other, are the values of the rows that were
/// read, each once and in their order, whatever the step.
pub proof fn law_a_gauge_answer_loses_no_sample(points: Seq<(i64, u64)>, step_s: int)
    ensures
        values_behind(answered(points, step_s, Kind::Gauge)) == Seq::new(
            points.len(),
            |i: int| points[i].1,
        ),
    decreases points.len(),
{
    let out = answered(points, step_s, Kind::Gauge);
    let values = Seq::new(points.len(), |i: int| points[i].1);
    if points.len() == 0 {
        assert(values_behind(out) =~= values);
    } else if step_s > 1 {
        let width = step_s * 1000;
        let start = bucket_start(points[0].0 as int, width);
        lemma_shared(points, width, start);
        let n = shared(points, width, start) as int;
        let rest = points.skip(n);
        let first = Run { start, rows: points.take(n) };
        law_a_gauge_answer_loses_no_sample(rest, step_s);
        assert(runs(points, width) == seq![first] + runs(rest, width));
        assert(out.skip(1) =~= answered(rest, step_s, Kind::Gauge));
        assert(out[0].1 == PooledView::Mean(first.rows.map_values(|row: (i64, u64)| row.1)));
        assert(values_behind(out) =~= values);
    } else {
        let rest = points.skip(1);
        law_a_gauge_answer_loses_no_sample(rest, step_s);
        assert(out.skip(1) =~= answered(rest, step_s, Kind::Gauge));
        assert(values_behind(out) =~= values);
    }
}

/// At a step of a second or less an answer is the stored rows themselves, one
/// point for each, whatever the kind of the series.
pub proof fn law_the_native_step_answers_the_rows(
    points: Seq<(i64, u64)>,
    step_s: int,
    kind: Kind,
)
    requires
        step_s <= 1,
    ensures
        answered(points, step_s, kind).len() == points.len(),
        forall|i: int|
            0 <= i < points.len() ==> (#[trigger] answered(points, step_s, kind)[i]) == (
                points[i].0 as int,
                PooledView::Last(points[i].1),
            ),
{
}

// ---------------------------------------------------------------------------
// What a pass deletes, collapses and leaves

/// Retention counts whole days of 86,400,000 milliseconds: where the distance
/// can be written down, the expiry lies exactly that many days back, and one
/// day more moves it back by exactly one day.
pub proof fn law_retention_is_whole_days(now_ms: int, days: int)
    requires
        i64::MIN <= now_ms <= i64::MAX,
        0 <= days,
        days * 86_400_000 <= i64::MAX,
        now_ms - days * 86_400_000 >= i64::MIN,
    ensures
        now_ms - expiry_of(now_ms, days) == days * 86_400_000,
        days > 0 ==> expiry_of(now_ms, days - 1) - expiry_of(now_ms, days) == 86_400_000,
        days == 0 ==> expiry_of(now_ms, days) == now_ms,
{
}

/// More days than milliseconds can be counted in keep every row since the
/// epoch: the expiry then lies as far back as it can.
pub proof fn law_boundless_retention_keeps_everything(now_ms: int, days: int)
    requires
        i64::MIN <= now_ms <= i64::MAX,
        days * 86_400_000 >= i64::MAX,
    ensures
        expiry_of(now_ms, days) <= 0,
        now_ms >= -1 ==> expiry_of(now_ms, days) == now_ms - i64::MAX,
        now_ms < -1 ==> expiry_of(now_ms, days) == i64::MIN,
{
}

/// A pass collapses what is a day old: the cutoff is the last whole minute that
/// is 24 hours back or more.
pub proof fn law_the_raw_window_is_a_day(now_ms: int)
    ensures
        cutoff_of(now_ms) % 60_000 == 0,
        cutoff_of(now_ms) <= now_ms - 86_400_000 < cutoff_of(now_ms) + 60_000,
        cutoff_of(now_ms + 60_000) == cutoff_of(now_ms) + 60_000,
{
    lemma_aligned(now_ms - 86_400_000, 60_000);
    lemma_aligned(now_ms - 86_400_000 + 60_000, 60_000);
}

/// A row leaves no trace behind once it is older than the days that retention
/// keeps, and a row that is not is deleted by no pass: what a pass leaves is
/// what it would leave of the rows that are young enough alone.
pub proof fn law_a_pass_deletes_what_is_too_old_and_nothing_else<V>(
    rows: Seq<(i64, V)>,
    now_ms: int,
    days: int,
    pool: spec_fn(Seq<(i64, V)>) -> V,
    n: int,
)
    requires
        sorted(rows),
        i64::MIN <= now_ms <= i64::MAX,
        0 <= days,
        days * 86_400_000 <= i64::MAX,
        now_ms - days * 86_400_000 >= i64::MIN,
        0 <= n <= rows.len(),
        forall|i: int|
            0 <= i < rows.len() ==> (i < n <==> (#[trigger] rows[i]).0 < now_ms - days * 86_400_000),
    ensures
        passed(rows, expiry_of(now_ms, days), cutoff_of(now_ms), pool) == passed(
            rows.skip(n),
            i64::MIN as int,
            cutoff_of(now_ms),
            pool,
        ),
        passed(rows, expiry_of(now_ms, days), cutoff_of(now_ms), pool).len() == 0 <==> n
            == rows.len(),
{
    let expiry = expiry_of(now_ms, days);
    let cutoff = cutoff_of(now_ms);
    law_retention_is_whole_days(now_ms, days);
    lemma_older_is(rows, expiry, n as nat);
    let young = rows.skip(n);
    assert(sorted(young)) by {
        assert forall|i: int, j: int| 0 <= i < j < young.len() implies (#[trigger] young[i]).0 < (
        #[trigger] young[j]).0 by {
            assert(young[i] == rows[i + n] && young[j] == rows[j + n]);
        }
    }
    lemma_older_is(young, i64::MIN as int, 0);
    lemma_older(rows, cutoff);
    let c = older(rows, cutoff) as int;
    if c > n {
        assert forall|i: int| 0 <= i < c - n implies (#[trigger] young[i]).0 < cutoff by {
            assert(young[i] == rows[i + n]);
        }
        if c - n < young.len() {
            assert(young[c - n] == rows[c]);
        }
        lemma_older_is(young, cutoff, (c - n) as nat);
        assert(rows.subrange(n, c) =~= young.subrange(0, c - n));
        assert(rows.skip(c) =~= young.skip(c - n));
        assert(runs(rows.subrange(n, c), 60_000).len() > 0) by {
            let k = lemma_every_row_has_a_run(rows.subrange(n, c), 60_000, 0);
        }
    } else {
        if young.len() > 0 {
            assert(young[0] == rows[n]);
        }
        lemma_older_is(young, cutoff, 0);
        assert(rows.subrange(n, n) =~= young.subrange(0, 0));
        assert(rows.skip(n) =~= young.skip(0));
        assert(runs(young.subrange(0, 0), 60_000).len() == 0);
    }
}

/// A minute that a pass collapses becomes one row at its start: a gauge's is
/// the mean over all of the minute's rows, a counter's is the newest of them;
/// a lone row that stands there already stays as it is. Rows of a series that
/// has nothing to delete are collapsed up to the cutoff, and left as they are
/// from there on. The rows of the minute are those from the first number
/// returned up to the second.
pub proof fn law_a_pass_leaves_a_row_a_minute(
    rows: Seq<(i64, u64)>,
    cutoff: int,
    kind: Kind,
    mean: spec_fn(Seq<(i64, u64)>) -> u64,
    k: int,
) -> (range: (int, int))
    requires
        sorted(rows),
        cutoff % 60_000 == 0,
        forall|i: int| 0 <= i < rows.len() ==> (#[trigger] rows[i]).0 >= i64::MIN + 60_000,
        0 <= k < passed(rows, i64::MIN as int, cutoff, pool_of(kind, mean)).len(),
    ensures
        ({
            let (a, b) = range;
            let (ts, bits) = passed(rows, i64::MIN as int, cutoff, pool_of(kind, mean))[k];
            &&& 0 <= a < b <= rows.len()
            &&& ts < cutoff ==> ts as int % 60_000 == 0 && forall|i: int|
                0 <= i < rows.len() ==> (a <= i < b <==> ts <= (#[trigger] rows[i]).0 < ts + 60_000)
            &&& ts < cutoff && (b - a > 1 || rows[a].0 != ts) ==> bits == match kind {
                Kind::Gauge => mean(rows.subrange(a, b)),
                Kind::Counter => rows[b - 1].1,
            }
            &&& ts < cutoff && b - a == 1 && rows[a].0 == ts ==> bits == rows[a].1
            &&& ts >= cutoff ==> b - a == 1 && rows[a] == (ts, bits)
        }),
{
    let pool = pool_of(kind, mean);
    let out = passed(rows, i64::MIN as int, cutoff, pool);
    lemma_older_is(rows, i64::MIN as int, 0);
    lemma_older(rows, cutoff);
    let c = older(rows, cutoff) as int;
    let aged = rows.subrange(0, c);
    let all = runs(aged, 60_000);
    assert(sorted(aged));
    let made = collapsed(aged, pool);
    assert(out == made + rows.skip(c));
    if k < made.len() {
        let run = all[k];
        let a = lemma_run_is_a_range(aged, 60_000, k);
        let b = a + run.rows.len();
        law_buckets_hold_exactly_the_points(aged, 60_000);
        assert(out[k] == settle(run, pool));
        assert(run.rows =~= rows.subrange(a, b));
        assert(run.rows[0] == rows[a] && run.rows.last() == rows[b - 1]);
        assert(aged[a] == rows[a]);
        lemma_aligned(rows[a].0 as int, 60_000);
        assert(i64::MIN <= run.start <= rows[a].0);
        assert(out[k].0 == run.start);
        assert forall|i: int| 0 <= i < rows.len() implies (a <= i < b <==> run.start <= (
        #[trigger] rows[i]).0 < run.start + 60_000) by {
            lemma_in_bucket(rows[i].0 as int, run.start, 60_000);
            if i < c {
                assert(aged[i] == rows[i]);
            } else {
                lemma_starts_ordered(cutoff, rows[i].0 as int, 60_000);
                lemma_in_bucket(cutoff, cutoff, 60_000);
                lemma_starts_ordered(rows[a].0 as int, cutoff, 60_000);
                lemma_in_bucket(rows[a].0 as int, cutoff, 60_000);
            }
        }
        (a, b)
    } else {
        let i = k - made.len() + c;
        assert(out[k] == rows.skip(c)[k - made.len()]);
        assert(out[k] == rows[i]);
        (i, i + 1)
    }
}

/// The tags of a range are exactly the known tags of its rows, each once, and
/// later rows only add to them at the end.
pub proof fn law_tags_are_those_of_the_rows(rows: Seq<Row>, more: Seq<Row>)
    ensures
        forall|tag: Honesty| #[trigger]
            tags(rows).contains(tag) <==> exists|i: int|
                0 <= i < rows.len() && Honesty::tagged((#[trigger] rows[i]).honesty@) == Some(tag),
        tags(rows).no_duplicates(),
        tags(rows) == tags(rows + more).take(tags(rows).len() as int),
    decreases rows.len(), more.len(),
{
    lemma_tags(rows);
    if more.len() == 0 {
        assert(rows + more =~= rows);
        assert(tags(rows).take(tags(rows).len() as int) =~= tags(rows));
    } else {
        law_tags_are_those_of_the_rows(rows, more.drop_last());
        let all = rows + more;
        assert(all.drop_last() =~= rows + more.drop_last());
        let n = tags(rows).len() as int;
        let before = tags(rows + more.drop_last());
        lemma_tags_grow(rows, more.drop_last());
        assert(tags(all).take(n) =~= before.take(n));
    }
}

proof fn lemma_tags_grow(rows: Seq<Row>, more: Seq<Row>)
    ensures
        tags(rows).len() <= tags(rows + more).len(),
    decreases more.len(),
{
    if more.len() == 0 {
        assert(rows + more =~= rows);
    } else {
        lemma_tags_grow(rows, more.drop_last());
        assert((rows + more).drop_last() =~= rows + more.drop_last());
    }
}

proof fn lemma_tags(rows: Seq<Row>)
    ensures
        forall|tag: Honesty| #[trigger]
            tags(rows).contains(tag) <==> exists|i: int|
                0 <= i < rows.len() && Honesty::tagged((#[trigger] rows[i]).honesty@) == Some(tag),
        tags(rows).no_duplicates(),
    decreases rows.len(),
{
    if rows.len() > 0 {
        let head = rows.drop_last();
        lemma_tags(head);
        let last = Honesty::tagged(rows.last().honesty@);
        assert forall|tag: Honesty| #[trigger] tags(rows).contains(tag) <==> tags(head).contains(tag)
            || last == Some(tag) by {
            if tags(head).contains(tag) {
                let k = choose|k: int| 0 <= k < tags(head).len() && tags(head)[k] == tag;
                assert(tags(rows)[k] == tag);
            }
            if last == Some(tag) && !tags(head).contains(tag) {
                assert(tags(rows)[tags(head).len() as int] == tag);
            }
            if tags(rows).contains(tag) {
                let k = choose|k: int| 0 <= k < tags(rows).len() && tags(rows)[k] == tag;
                if k < tags(head).len() {
                    assert(tags(head)[k] == tag);
                }
            }
        }
        assert forall|tag: Honesty| #[trigger] tags(rows).contains(tag) <==> exists|i: int|
            0 <= i < rows.len() && Honesty::tagged((#[trigger] rows[i]).honesty@) == Some(tag) by {
            if tags(head).contains(tag) {
                let i = choose|i: int|
                    0 <= i < head.len() && Honesty::tagged((#[trigger] head[i]).honesty@) == Some(
                        tag,
                    );
                assert(rows[i] == head[i]);
            }
            assert(rows[rows.len() - 1] == rows.last());
            if exists|i: int|
                0 <= i < rows.len() && Honesty::tagged((#[trigger] rows[i]).honesty@) == Some(tag) {
                let i = choose|i: int|
                    0 <= i < rows.len() && Honesty::tagged((#[trigger] rows[i]).honesty@) == Some(
                        tag,
                    );
                if i < head.len() {
                    assert(head[i] == rows[i]);
                }
            }
        }
    }
}

/// One tag speaks for a whole range where a row bears it and no row bears
/// another that is known.
pub proof fn law_one_tag_speaks_for_a_range(rows: Seq<Row>, tag: Honesty)
    ensures
        sole(tags(rows)) == Some(tag) <==> {
            &&& exists|i: int|
                0 <= i < rows.len() && Honesty::tagged((#[trigger] rows[i]).honesty@) == Some(tag)
            &&& forall|i: int|
                0 <= i < rows.len() ==> Honesty::tagged((#[trigger] rows[i]).honesty@) is None
                    || Honesty::tagged(rows[i].honesty@) == Some(tag)
        },
{
    lemma_tags(rows);
    let all = tags(rows);
    if sole(all) == Some(tag) {
        assert(all.contains(tag)) by {
            assert(all[0] == tag);
        }
        assert forall|i: int| 0 <= i < rows.len() implies Honesty::tagged(
            (#[trigger] rows[i]).honesty@,
        ) is None || Honesty::tagged(rows[i].honesty@) == Some(tag) by {
            if let Some(other) = Honesty::tagged(rows[i].honesty@) {
                assert(all.contains(other));
            }
        }
    }
    if (exists|i: int|
        0 <= i < rows.len() && Honesty::tagged((#[trigger] rows[i]).honesty@) == Some(tag)) && (
    forall|i: int|
        0 <= i < rows.len() ==> Honesty::tagged((#[trigger] rows[i]).honesty@) is None
            || Honesty::tagged(rows[i].honesty@) == Some(tag)) {
        assert(all.contains(tag));
        assert forall|k: int| 0 <= k < all.len() implies all[k] == tag by {
            let other = all[k];
            assert(all.contains(other));
        }
        if all.len() > 1 {
            assert(all[0] == all[1]);
        }
    }
}

/// A failure is logged when it begins and when it becomes another, a recovery
/// once, and nothing while things stay as they are.
pub proof fn law_write_failures_are_logged_once(one: Seq<char>, other: Seq<char>)
    ensures
        failure_line(None, Some(one)) == Some("history store write failed: "@ + one),
        failure_line(Some(one), Some(one)) is None,
        one != other ==> failure_line(Some(other), Some(one)) == Some(
            "history store write failed: "@ + one,
        ),
        failure_line(Some(one), None) == Some("history store writes recovered"@),
        failure_line(None, None) is None,
{
}

/// A bucket's rows are replaced, over the whole minute from its start, by one
/// row at that start: of their mean for a gauge, of the newest for a counter.
/// Only a single row that stands at the start already is left alone. A series
/// that the catalog does not know averages.
pub proof fn law_a_minute_becomes_one_row(candidate: Candidate)
    requires
        candidate.bucket + 60_000 <= i64::MAX,
    ensures
        candidate.rewritten() is None <==> candidate.count == 1 && candidate.newest_ts
            == candidate.bucket,
        candidate.rewritten() matches Some(rewrite) ==> {
            &&& rewrite.from == candidate.bucket
            &&& rewrite.until - rewrite.from == 60_000
            &&& (named(candidate.series@) matches Some(series) && series.kind == Kind::Counter)
                ==> rewrite.bits == candidate.last
            &&& !(named(candidate.series@) matches Some(series) && series.kind == Kind::Counter)
                ==> rewrite.bits == candidate.mean
        },
{
}

/// The points of a range are its rows, each with its own time and value.
pub proof fn law_points_are_the_rows(rows: Seq<Row>, i: int)
    requires
        0 <= i < rows.len(),
    ensures
        rows_points(rows).len() == rows.len(),
        rows_points(rows)[i].0 == rows[i].ts_ms,
        rows_points(rows)[i].1 == rows[i].bits,
{
}

/// The models of samples, points and batches show what these hold, unchanged
/// and in order.
pub proof fn law_models_show_what_is_held(
    sample: Sample,
    bits: u64,
    all: Vec<u64>,
    batch: Seq<Sample>,
    points: Seq<(i64, Pooled)>,
    i: int,
)
    ensures
        sample@.instance == sample.instance@,
        sample@.series == sample.series@,
        sample@.ts_ms == sample.ts_ms,
        sample@.value == sample.value,
        sample@.source == sample.source,
        sample@.honesty == sample.honesty,
        Pooled::Last(bits)@ == PooledView::Last(bits),
        Pooled::Mean(all)@ == PooledView::Mean(all@),
        batch_view(batch).len() == batch.len(),
        0 <= i < batch.len() ==> batch_view(batch)[i] == batch[i]@,
        points_view(points).len() == points.len(),
        0 <= i < points.len() ==> points_view(points)[i] == (points[i].0 as int, points[i].1@),
{
}

/// What buckets of any width are: each starts at a multiple of the width and
/// stands for exactly the rows that lie less than one width past its start, a
/// gauge by every one of their values, as many as there are rows and in their
/// order, and a counter by the newest. The rows are those from the first number
/// returned up to the second.
pub proof fn law_a_bucket_stands_for_its_rows(
    points: Seq<(i64, u64)>,
    width: int,
    kind: Kind,
    k: int,
) -> (range: (int, int))
    requires
        width > 0,
        sorted(points),
        0 <= k < bucketed(points, width, kind).len(),
    ensures
        ({
            let (a, b) = range;
            let (start, value) = bucketed(points, width, kind)[k];
            &&& 0 <= a < b <= points.len()
            &&& start % width == 0
            &&& forall|i: int|
                0 <= i < points.len() ==> (a <= i < b <==> start <= (#[trigger] points[i]).0 < start
                    + width)
            &&& kind is Gauge ==> (value matches PooledView::Mean(values) && values.len() == b - a
                && forall|j: int| a <= j < b ==> values[j - a] == (#[trigger] points[j]).1)
            &&& kind is Counter ==> value == PooledView::Last(points[b - 1].1)
        }),
{
    let run = runs(points, width)[k];
    let a = lemma_run_is_a_range(points, width, k);
    let b = a + run.rows.len();
    law_buckets_hold_exactly_the_points(points, width);
    assert forall|i: int| 0 <= i < points.len() implies (a <= i < b <==> run.start <= (
    #[trigger] points[i]).0 < run.start + width) by {
        lemma_in_bucket(points[i].0 as int, run.start, width);
    }
    let values = run.rows.map_values(|row: (i64, u64)| row.1);
    assert forall|j: int| a <= j < b implies values[j - a] == (#[trigger] points[j]).1 by {
        assert(run.rows[j - a] == points[j]);
    }
    (a, b)
}

/// Buckets of a gauge lose no sample at any width: the values behind them, put
/// one after the other, are the values of the rows, each once and in order.
pub proof fn law_buckets_lose_no_sample(points: Seq<(i64, u64)>, width: int)
    requires
        width > 0,
    ensures
        values_behind(bucketed(points, width, Kind::Gauge)) == Seq::new(
            points.len(),
            |i: int| points[i].1,
        ),
    decreases points.len(),
{
    let out = bucketed(points, width, Kind::Gauge);
    let values = Seq::new(points.len(), |i: int| points[i].1);
    if points.len() == 0 {
        assert(values_behind(out) =~= values);
    } else {
        let start = bucket_start(points[0].0 as int, width);
        lemma_shared(points, width, start);
        let n = shared(points, width, start) as int;
        let rest = points.skip(n);
        let first = Run { start, rows: points.take(n) };
        law_buckets_lose_no_sample(rest, width);
        assert(runs(points, width) == seq![first] + runs(rest, width));
        assert(out.skip(1) =~= bucketed(rest, width, Kind::Gauge));
        assert(out[0].1 == PooledView::Mean(first.rows.map_values(|row: (i64, u64)| row.1)));
        assert(values_behind(out) =~= values);
    }
}

} // verus!
