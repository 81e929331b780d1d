//! A maintenance pass over the store: what it does to each bucket, and what it
//! reports.
//!
//! The store expires rows, groups what is older than the cutoff by bucket, and
//! then carries out a plan: for each bucket that is not yet one aligned row it
//! clears the bucket and writes one row in its place.
use crate::history::store::{
    bucket_start, collapsed, joined, kind_of, law_bucket_starts_increase,
    law_buckets_hold_exactly_the_points, lemma_aligned, lemma_joined_has, lemma_older,
    lemma_older_is, lemma_passed, lemma_settled_runs, older, passed, pool_of, runs, settle, sorted,
    Candidate, Maintenance, Rewrite, Run, BUCKET_MS,
};
use vstd::prelude::*;

verus! {

// ---------------------------------------------------------------------------
// The plan

/// The rewrites that a pass carries out, each with the position of its
/// candidate.
pub open spec fn planned(candidates: Seq<Candidate>) -> Seq<(usize, Rewrite)>
    decreases candidates.len(),
{
    if candidates.len() == 0 {
        Seq::empty()
    } else {
        let head = planned(candidates.drop_last());
        match candidates.last().rewritten() {
            Some(rewrite) => head.push(((candidates.len() - 1) as usize, rewrite)),
            None => head,
        }
    }
}

/// The rewrites that a pass carries out.
pub fn plan(candidates: &Vec<Candidate>) -> (r: Vec<(usize, Rewrite)>)
    requires
        forall|i: int|
            0 <= i < candidates@.len() ==> (#[trigger] candidates@[i]).bucket + BUCKET_MS
                <= i64::MAX,
    ensures
        r@ == planned(candidates@),
{
    let mut r: Vec<(usize, Rewrite)> = Vec::new();
    assert(r@ =~= planned(candidates@.take(0)));
    for i in 0..candidates.len()
        invariant
            forall|j: int|
                0 <= j < candidates@.len() ==> (#[trigger] candidates@[j]).bucket + BUCKET_MS
                    <= i64::MAX,
            r@ == planned(candidates@.take(i as int)),
    {
        proof {
            let next = candidates@.take(i + 1);
            assert(next.drop_last() =~= candidates@.take(i as int));
            assert(next.last() == candidates@[i as int]);
        }
        if let Some(rewrite) = candidates[i].rewrite() {
            r.push((i, rewrite));
        }
    }
    assert(candidates@.take(candidates@.len() as int) =~= candidates@);
    r
}

// ---------------------------------------------------------------------------
// The report

pub open spec fn total(counts: Seq<usize>) -> nat
    decreases counts.len(),
{
    if counts.len() == 0 {
        0
    } else {
        total(counts.drop_last()) + counts.last() as nat
    }
}

proof fn lemma_total(counts: Seq<usize>, n: int)
    requires
        0 <= n <= counts.len(),
    ensures
        total(counts.take(n)) <= total(counts),
    decreases counts.len() - n,
{
    if n < counts.len() {
        lemma_total(counts, n + 1);
        assert(counts.take(n + 1).drop_last() =~= counts.take(n));
    } else {
        assert(counts.take(n) =~= counts);
    }
}

/// What a pass did that expired so many rows, and that cleared so many for
/// each of its rewrites.
pub fn report(expired: usize, cleared: &Vec<usize>) -> (r: Maintenance)
    requires
        total(cleared@) <= usize::MAX,
    ensures
        r.rows_expired == expired,
        r.buckets_rewritten == cleared@.len(),
        r.rows_collapsed == total(cleared@),
{
    let mut rows: usize = 0;
    for i in 0..cleared.len()
        invariant
            total(cleared@) <= usize::MAX,
            rows == total(cleared@.take(i as int)),
    {
        proof {
            lemma_total(cleared@, i + 1);
            assert(cleared@.take(i + 1).drop_last() =~= cleared@.take(i as int));
        }
        rows = rows + cleared[i];
    }
    assert(cleared@.take(cleared@.len() as int) =~= cleared@);
    Maintenance { buckets_rewritten: cleared.len(), rows_collapsed: rows, rows_expired: expired }
}

// ---------------------------------------------------------------------------
// What the plan leaves

/// Rows without those from `from` up to but not at `until`.
pub open spec fn cleared<V>(rows: Seq<(i64, V)>, from: int, until: int) -> Seq<(i64, V)>
    decreases rows.len(),
{
    if rows.len() == 0 {
        Seq::empty()
    } else {
        let head = cleared(rows.drop_last(), from, until);
        if from <= rows.last().0 < until {
            head
        } else {
            head.push(rows.last())
        }
    }
}

/// Rows with one more in its place; it replaces a row of the same time.
pub open spec fn placed<V>(rows: Seq<(i64, V)>, ts: i64, value: V) -> Seq<(i64, V)> {
    let n = older(rows, ts as int) as int;
    if n < rows.len() && rows[n].0 == ts {
        rows.update(n, (ts, value))
    } else {
        rows.insert(n, (ts, value))
    }
}

/// What carrying out rewrites leaves of the rows of one series.
pub open spec fn applied(
    rows: Seq<(i64, u64)>,
    plan: Seq<(usize, Rewrite)>,
    candidates: Seq<Candidate>,
    instance: Seq<char>,
    series: Seq<char>,
) -> Seq<(i64, u64)>
    decreases plan.len(),
{
    if plan.len() == 0 {
        rows
    } else {
        let before = applied(rows, plan.drop_last(), candidates, instance, series);
        let (i, rewrite) = plan.last();
        if candidates[i as int].instance@ == instance && candidates[i as int].series@ == series {
            placed(
                cleared(before, rewrite.from as int, rewrite.until as int),
                rewrite.from,
                rewrite.bits,
            )
        } else {
            before
        }
    }
}

/// Whether the candidates of one series are its buckets, each once and in some
/// order: `place` says where the bucket of a candidate stands.
pub open spec fn groups(
    candidates: Seq<Candidate>,
    place: Seq<int>,
    buckets: Seq<Run<u64>>,
    mean: spec_fn(Seq<(i64, u64)>) -> u64,
    instance: Seq<char>,
    series: Seq<char>,
) -> bool {
    &&& place.len() == candidates.len()
    &&& forall|i: int|
        0 <= i < candidates.len() && (#[trigger] candidates[i]).instance@ == instance
            && candidates[i].series@ == series ==> 0 <= place[i] < buckets.len()
            && candidates[i].describes(buckets[place[i]], mean)
    &&& forall|i: int, j: int|
        0 <= i < j < candidates.len() && (#[trigger] candidates[i]).instance@ == instance
            && candidates[i].series@ == series && (#[trigger] candidates[j]).instance@ == instance
            && candidates[j].series@ == series ==> place[i] != place[j]
    &&& forall|k: int|
        0 <= k < buckets.len() ==> #[trigger] grouped(candidates, place, k, instance, series)
}

/// Whether a bucket has a candidate.
pub open spec fn grouped(
    candidates: Seq<Candidate>,
    place: Seq<int>,
    k: int,
    instance: Seq<char>,
    series: Seq<char>,
) -> bool {
    exists|i: int|
        0 <= i < candidates.len() && (#[trigger] candidates[i]).instance@ == instance
            && candidates[i].series@ == series && place[i] == k
}

/// A bucket in the middle of a pass: collapsed, or not yet.
spec fn part(
    run: Run<u64>,
    done: bool,
    pool: spec_fn(Seq<(i64, u64)>) -> u64,
) -> Seq<(i64, u64)> {
    if done {
        seq![settle(run, pool)]
    } else {
        run.rows
    }
}

/// Buckets in the middle of a pass.
spec fn parts(
    buckets: Seq<Run<u64>>,
    done: Seq<bool>,
    pool: spec_fn(Seq<(i64, u64)>) -> u64,
) -> Seq<(i64, u64)>
    decreases buckets.len(),
{
    if buckets.len() == 0 {
        Seq::empty()
    } else {
        part(buckets[0], done[0], pool) + parts(buckets.skip(1), done.skip(1), pool)
    }
}

proof fn lemma_split(
    buckets: Seq<Run<u64>>,
    done: Seq<bool>,
    pool: spec_fn(Seq<(i64, u64)>) -> u64,
    p: int,
)
    requires
        0 <= p < buckets.len(),
        done.len() == buckets.len(),
    ensures
        parts(buckets, done, pool) == parts(buckets.take(p), done.take(p), pool) + (part(
            buckets[p],
            done[p],
            pool,
        ) + parts(buckets.skip(p + 1), done.skip(p + 1), pool)),
    decreases p,
{
    if p == 0 {
        assert(parts(buckets.take(0), done.take(0), pool) =~= Seq::<(i64, u64)>::empty());
        assert(parts(buckets, done, pool) =~= parts(buckets.take(0), done.take(0), pool) + (part(
            buckets[0],
            done[0],
            pool,
        ) + parts(buckets.skip(1), done.skip(1), pool)));
    } else {
        let b = buckets.skip(1);
        let d = done.skip(1);
        lemma_split(b, d, pool, p - 1);
        assert(b.take(p - 1) =~= buckets.take(p).skip(1));
        assert(d.take(p - 1) =~= done.take(p).skip(1));
        assert(b.skip(p) =~= buckets.skip(p + 1));
        assert(d.skip(p) =~= done.skip(p + 1));
        assert(b[p - 1] == buckets[p] && d[p - 1] == done[p]);
        assert(parts(buckets, done, pool) =~= parts(buckets.take(p), done.take(p), pool) + (part(
            buckets[p],
            done[p],
            pool,
        ) + parts(buckets.skip(p + 1), done.skip(p + 1), pool)));
    }
}

/// Whether buckets are what rows group to: none is empty, each is anchored, and
/// its rows lie in it.
spec fn anchored(buckets: Seq<Run<u64>>) -> bool {
    forall|i: int| 0 <= i < buckets.len() ==> {
        let run = #[trigger] buckets[i];
        &&& run.rows.len() > 0
        &&& i64::MIN <= run.start <= i64::MAX
        &&& bucket_start(run.start, BUCKET_MS as int) == run.start
        &&& forall|j: int|
            0 <= j < run.rows.len() ==> bucket_start(
                (#[trigger] run.rows[j]).0 as int,
                BUCKET_MS as int,
            ) == run.start
    }
}

/// A row in the middle of a pass lies in one of the buckets.
proof fn lemma_parts_in(
    buckets: Seq<Run<u64>>,
    done: Seq<bool>,
    pool: spec_fn(Seq<(i64, u64)>) -> u64,
    k: int,
) -> (q: int)
    requires
        done.len() == buckets.len(),
        anchored(buckets),
        0 <= k < parts(buckets, done, pool).len(),
    ensures
        0 <= q < buckets.len(),
        bucket_start(parts(buckets, done, pool)[k].0 as int, BUCKET_MS as int)
            == buckets[q].start,
    decreases buckets.len(),
{
    let first = part(buckets[0], done[0], pool);
    if k < first.len() {
        assert(parts(buckets, done, pool)[k] == first[k]);
        let run = buckets[0];
        if done[0] {
            assert(run.rows[0] == first[k] || run.start == first[k].0);
        } else {
            assert(run.rows[k] == first[k]);
        }
        0
    } else {
        let b = buckets.skip(1);
        let d = done.skip(1);
        assert(anchored(b)) by {
            assert forall|i: int| 0 <= i < b.len() implies {
                let run = #[trigger] b[i];
                &&& run.rows.len() > 0
                &&& i64::MIN <= run.start <= i64::MAX
                &&& bucket_start(run.start, BUCKET_MS as int) == run.start
                &&& forall|j: int|
                    0 <= j < run.rows.len() ==> bucket_start(
                        (#[trigger] run.rows[j]).0 as int,
                        BUCKET_MS as int,
                    ) == run.start
            } by {
                assert(b[i] == buckets[i + 1]);
            }
        }
        let q = lemma_parts_in(b, d, pool, k - first.len());
        assert(b[q] == buckets[q + 1]);
        q + 1
    }
}

proof fn lemma_cleared_keeps<V>(rows: Seq<(i64, V)>, from: int, until: int)
    requires
        forall|i: int| 0 <= i < rows.len() ==> !(from <= (#[trigger] rows[i]).0 < until),
    ensures
        cleared(rows, from, until) == rows,
    decreases rows.len(),
{
    if rows.len() > 0 {
        let head = rows.drop_last();
        assert forall|i: int| 0 <= i < head.len() implies !(from <= (#[trigger] head[i]).0
            < until) by {
            assert(head[i] == rows[i]);
        }
        lemma_cleared_keeps(head, from, until);
        assert(rows.last() == rows[rows.len() - 1]);
        assert(cleared(rows, from, until) =~= rows);
    } else {
        assert(cleared(rows, from, until) =~= rows);
    }
}

proof fn lemma_cleared_drops<V>(rows: Seq<(i64, V)>, from: int, until: int)
    requires
        forall|i: int| 0 <= i < rows.len() ==> from <= (#[trigger] rows[i]).0 < until,
    ensures
        cleared(rows, from, until) == Seq::<(i64, V)>::empty(),
    decreases rows.len(),
{
    if rows.len() > 0 {
        let head = rows.drop_last();
        assert forall|i: int| 0 <= i < head.len() implies from <= (#[trigger] head[i]).0
            < until by {
            assert(head[i] == rows[i]);
        }
        lemma_cleared_drops(head, from, until);
        assert(rows.last() == rows[rows.len() - 1]);
    }
}

proof fn lemma_cleared_joined<V>(a: Seq<(i64, V)>, b: Seq<(i64, V)>, from: int, until: int)
    ensures
        cleared(a + b, from, until) == cleared(a, from, until) + cleared(b, from, until),
    decreases b.len(),
{
    if b.len() == 0 {
        assert(a + b =~= a);
        assert(cleared(a + b, from, until) =~= cleared(a, from, until) + cleared(b, from, until));
    } else {
        lemma_cleared_joined(a, b.drop_last(), from, until);
        assert((a + b).drop_last() =~= a + b.drop_last());
        assert(cleared(a + b, from, until) =~= cleared(a, from, until) + cleared(b, from, until));
    }
}

/// Clearing a bucket and writing one row in its place changes nothing around
/// it.
proof fn lemma_replaced(
    before: Seq<(i64, u64)>,
    inside: Seq<(i64, u64)>,
    after: Seq<(i64, u64)>,
    rewrite: Rewrite,
)
    requires
        rewrite.from < rewrite.until,
        forall|i: int| 0 <= i < before.len() ==> (#[trigger] before[i]).0 < rewrite.from,
        forall|i: int|
            0 <= i < inside.len() ==> rewrite.from <= (#[trigger] inside[i]).0 < rewrite.until,
        forall|i: int| 0 <= i < after.len() ==> rewrite.until <= (#[trigger] after[i]).0,
    ensures
        placed(
            cleared(before + (inside + after), rewrite.from as int, rewrite.until as int),
            rewrite.from,
            rewrite.bits,
        ) == before + (seq![(rewrite.from, rewrite.bits)] + after),
{
    let from = rewrite.from as int;
    let until = rewrite.until as int;
    lemma_cleared_joined(before, inside + after, from, until);
    lemma_cleared_joined(inside, after, from, until);
    lemma_cleared_keeps(before, from, until);
    lemma_cleared_drops(inside, from, until);
    lemma_cleared_keeps(after, from, until);
    let left = before + after;
    assert(cleared(before + (inside + after), from, until) =~= left);
    assert forall|i: int| 0 <= i < before.len() implies (#[trigger] left[i]).0 < from by {
        assert(left[i] == before[i]);
    }
    if before.len() < left.len() {
        assert(left[before.len() as int] == after[0]);
    }
    lemma_older_is(left, from, before.len());
    assert(placed(left, rewrite.from, rewrite.bits) =~= before + (seq![
        (rewrite.from, rewrite.bits),
    ] + after));
}

/// Buckets that come oldest first, with everything else after them.
spec fn ordered(buckets: Seq<Run<u64>>, rest: Seq<(i64, u64)>) -> bool {
    &&& forall|i: int, j: int|
        0 <= i < j < buckets.len() ==> (#[trigger] buckets[i]).start < (
        #[trigger] buckets[j]).start
    &&& forall|i: int, k: int|
        0 <= i < buckets.len() && 0 <= k < rest.len() ==> (#[trigger] buckets[i]).start
            + BUCKET_MS <= (#[trigger] rest[k]).0
}

/// Carrying out the rewrite of one bucket collapses that bucket.
proof fn lemma_step(
    buckets: Seq<Run<u64>>,
    done: Seq<bool>,
    rest: Seq<(i64, u64)>,
    p: int,
    candidate: Candidate,
    mean: spec_fn(Seq<(i64, u64)>) -> u64,
)
    requires
        done.len() == buckets.len(),
        anchored(buckets),
        ordered(buckets, rest),
        0 <= p < buckets.len(),
        !done[p],
        candidate.describes(buckets[p], mean),
        candidate.bucket + BUCKET_MS <= i64::MAX,
    ensures
        ({
            let pool = pool_of(kind_of(candidate.series@), mean);
            let rows = parts(buckets, done, pool) + rest;
            (match candidate.rewritten() {
                None => rows,
                Some(rewrite) => placed(
                    cleared(rows, rewrite.from as int, rewrite.until as int),
                    rewrite.from,
                    rewrite.bits,
                ),
            }) == parts(buckets, done.update(p, true), pool) + rest
        }),
{
    let w = BUCKET_MS as int;
    let pool = pool_of(kind_of(candidate.series@), mean);
    let run = buckets[p];
    let next = done.update(p, true);
    let rows = parts(buckets, done, pool) + rest;
    let before = parts(buckets.take(p), done.take(p), pool);
    let later = parts(buckets.skip(p + 1), done.skip(p + 1), pool);
    let after = later + rest;
    lemma_split(buckets, done, pool, p);
    lemma_split(buckets, next, pool, p);
    assert(next.take(p) =~= done.take(p));
    assert(next.skip(p + 1) =~= done.skip(p + 1));
    assert(rows =~= before + (run.rows + after));
    assert(parts(buckets, next, pool) + rest =~= before + (seq![settle(run, pool)] + after));
    assert forall|i: int| 0 <= i < before.len() implies (#[trigger] before[i]).0 < run.start by {
        let some = buckets.take(p);
        lemma_anchored(buckets, 0, p);
        assert(buckets.subrange(0, p) =~= some);
        let q = lemma_parts_in(some, done.take(p), pool, i);
        assert(some[q] == buckets[q]);
        lemma_apart(before[i].0 as int, buckets[q].start, run.start);
    }
    assert forall|i: int| 0 <= i < run.rows.len() implies run.start <= (#[trigger] run.rows[i]).0
        < run.start + w by {
        lemma_aligned(run.rows[i].0 as int, w);
    }
    assert forall|i: int| 0 <= i < after.len() implies run.start + w <= (
    #[trigger] after[i]).0 by {
        if i < later.len() {
            assert(after[i] == later[i]);
            let some = buckets.skip(p + 1);
            lemma_anchored(buckets, p + 1, buckets.len() as int);
            assert(buckets.subrange(p + 1, buckets.len() as int) =~= some);
            let q = lemma_parts_in(some, done.skip(p + 1), pool, i);
            assert(some[q] == buckets[p + 1 + q]);
            lemma_apart(run.start, run.start, buckets[p + 1 + q].start);
            lemma_aligned(later[i].0 as int, w);
        } else {
            assert(after[i] == rest[i - later.len()]);
        }
    }
    match candidate.rewritten() {
        Some(rewrite) => {
            lemma_replaced(before, run.rows, after, rewrite);
        },
        None => {
            assert(run.rows =~= seq![settle(run, pool)]);
        },
    }
}

/// Some neighbouring buckets of anchored ones are anchored.
proof fn lemma_anchored(buckets: Seq<Run<u64>>, a: int, b: int)
    requires
        anchored(buckets),
        0 <= a <= b <= buckets.len(),
    ensures
        anchored(buckets.subrange(a, b)),
{
    let some = buckets.subrange(a, b);
    assert forall|i: int| 0 <= i < some.len() implies {
        let run = #[trigger] some[i];
        &&& run.rows.len() > 0
        &&& i64::MIN <= run.start <= i64::MAX
        &&& bucket_start(run.start, BUCKET_MS as int) == run.start
        &&& forall|j: int|
            0 <= j < run.rows.len() ==> bucket_start(
                (#[trigger] run.rows[j]).0 as int,
                BUCKET_MS as int,
            ) == run.start
    } by {
        assert(some[i] == buckets[a + i]);
    }
}

/// A time in an earlier bucket comes before a later bucket.
proof fn lemma_apart(ts: int, earlier: int, later: int)
    requires
        bucket_start(ts, BUCKET_MS as int) == earlier,
        bucket_start(later, BUCKET_MS as int) == later,
        earlier < later,
    ensures
        ts < later,
        earlier + BUCKET_MS <= later,
{
    let w = BUCKET_MS as int;
    lemma_aligned(ts, w);
    lemma_aligned(later, w);
}

/// Which buckets the first candidates have collapsed.
spec fn done_by(
    candidates: Seq<Candidate>,
    place: Seq<int>,
    buckets: Seq<Run<u64>>,
    instance: Seq<char>,
    series: Seq<char>,
) -> Seq<bool> {
    Seq::new(buckets.len(), |k: int| grouped(candidates, place, k, instance, series))
}

proof fn lemma_applied(
    candidates: Seq<Candidate>,
    place: Seq<int>,
    buckets: Seq<Run<u64>>,
    rest: Seq<(i64, u64)>,
    mean: spec_fn(Seq<(i64, u64)>) -> u64,
    instance: Seq<char>,
    series: Seq<char>,
    n: int,
)
    requires
        0 <= n <= candidates.len(),
        candidates.len() <= usize::MAX,
        groups(candidates, place, buckets, mean, instance, series),
        anchored(buckets),
        ordered(buckets, rest),
        forall|i: int|
            0 <= i < buckets.len() ==> (#[trigger] buckets[i]).start + BUCKET_MS <= i64::MAX,
    ensures
        applied(
            joined(buckets) + rest,
            planned(candidates.take(n)),
            candidates,
            instance,
            series,
        ) == parts(
            buckets,
            done_by(candidates.take(n), place, buckets, instance, series),
            pool_of(kind_of(series), mean),
        ) + rest,
    decreases n,
{
    let pool = pool_of(kind_of(series), mean);
    let start = joined(buckets) + rest;
    if n == 0 {
        let done = done_by(candidates.take(0), place, buckets, instance, series);
        lemma_nothing_done(buckets, done, pool);
    } else {
        lemma_applied(candidates, place, buckets, rest, mean, instance, series, n - 1);
        let m = n - 1;
        let less = candidates.take(m);
        let more = candidates.take(n);
        let candidate = candidates[m];
        assert(more.drop_last() =~= less);
        assert(more.last() == candidate);
        let was = done_by(less, place, buckets, instance, series);
        let now = done_by(more, place, buckets, instance, series);
        let plan = planned(more);
        if let Some(rewrite) = candidate.rewritten() {
            assert(plan.drop_last() =~= planned(less));
            assert(plan.last() == (m as usize, rewrite));
        }
        if candidate.instance@ == instance && candidate.series@ == series {
            let p = place[m];
            assert forall|k: int| 0 <= k < buckets.len() implies now[k] == was.update(
                p,
                true,
            )[k] by {
                lemma_grouped(candidates, place, k, instance, series, m);
            }
            assert(now =~= was.update(p, true));
            assert(!was[p]) by {
                if was[p] {
                    let i = choose|i: int|
                        0 <= i < less.len() && (#[trigger] less[i]).instance@ == instance
                            && less[i].series@ == series && place[i] == p;
                    assert(candidates[i] == less[i]);
                    assert(place[i] != place[m]);
                }
            }
            lemma_step(buckets, was, rest, p, candidate, mean);
        } else {
            assert forall|k: int| 0 <= k < buckets.len() implies now[k] == was[k] by {
                lemma_grouped(candidates, place, k, instance, series, m);
            }
            assert(now =~= was);
        }
    }
}

/// One more candidate collapses its own bucket and no other.
proof fn lemma_grouped(
    candidates: Seq<Candidate>,
    place: Seq<int>,
    k: int,
    instance: Seq<char>,
    series: Seq<char>,
    m: int,
)
    requires
        0 <= m < candidates.len(),
    ensures
        grouped(candidates.take(m + 1), place, k, instance, series) == (grouped(
            candidates.take(m),
            place,
            k,
            instance,
            series,
        ) || candidates[m].instance@ == instance && candidates[m].series@ == series && place[m]
            == k),
{
    let less = candidates.take(m);
    let more = candidates.take(m + 1);
    if grouped(less, place, k, instance, series) {
        let i = choose|i: int|
            0 <= i < less.len() && (#[trigger] less[i]).instance@ == instance
                && less[i].series@ == series && place[i] == k;
        assert(more[i] == less[i]);
    }
    if grouped(more, place, k, instance, series) {
        let i = choose|i: int|
            0 <= i < more.len() && (#[trigger] more[i]).instance@ == instance
                && more[i].series@ == series && place[i] == k;
        if i < m {
            assert(less[i] == more[i]);
        } else {
            assert(candidates[m] == more[i]);
        }
    }
    assert(more[m] == candidates[m]);
}

proof fn lemma_nothing_done(
    buckets: Seq<Run<u64>>,
    done: Seq<bool>,
    pool: spec_fn(Seq<(i64, u64)>) -> u64,
)
    requires
        done.len() == buckets.len(),
        forall|k: int| 0 <= k < done.len() ==> !(#[trigger] done[k]),
    ensures
        parts(buckets, done, pool) == joined(buckets),
    decreases buckets.len(),
{
    if buckets.len() > 0 {
        lemma_nothing_done(buckets.skip(1), done.skip(1), pool);
    }
}

proof fn lemma_all_done(
    buckets: Seq<Run<u64>>,
    done: Seq<bool>,
    pool: spec_fn(Seq<(i64, u64)>) -> u64,
)
    requires
        done.len() == buckets.len(),
        forall|k: int| 0 <= k < done.len() ==> #[trigger] done[k],
    ensures
        parts(buckets, done, pool) == buckets.map_values(|run: Run<u64>| settle(run, pool)),
    decreases buckets.len(),
{
    if buckets.len() > 0 {
        lemma_all_done(buckets.skip(1), done.skip(1), pool);
    }
    assert(parts(buckets, done, pool) =~= buckets.map_values(
        |run: Run<u64>| settle(run, pool),
    ));
}

// ---------------------------------------------------------------------------
// Laws

/// Carrying out the plan, in whatever order the store groups the buckets, does
/// to each series what a pass is meant to do to it, and nothing that is planned
/// for another series matters to it.
pub proof fn law_the_plan_is_the_pass(
    rows: Seq<(i64, u64)>,
    expiry: int,
    cutoff: int,
    candidates: Seq<Candidate>,
    place: Seq<int>,
    mean: spec_fn(Seq<(i64, u64)>) -> u64,
    instance: Seq<char>,
    series: Seq<char>,
)
    requires
        sorted(rows),
        cutoff % (BUCKET_MS as int) == 0,
        cutoff <= i64::MAX,
        forall|i: int|
            0 <= i < rows.len() ==> i64::MIN <= bucket_start(
                (#[trigger] rows[i]).0 as int,
                BUCKET_MS as int,
            ),
        candidates.len() <= usize::MAX,
        ({
            let a = older(rows, expiry) as int;
            let b = if older(rows, cutoff) > a {
                older(rows, cutoff) as int
            } else {
                a
            };
            groups(
                candidates,
                place,
                runs(rows.subrange(a, b), BUCKET_MS as int),
                mean,
                instance,
                series,
            )
        }),
    ensures
        applied(
            rows.skip(older(rows, expiry) as int),
            planned(candidates),
            candidates,
            instance,
            series,
        ) == passed(rows, expiry, cutoff, pool_of(kind_of(series), mean)),
{
    let w = BUCKET_MS as int;
    let pool = pool_of(kind_of(series), mean);
    lemma_older(rows, expiry);
    lemma_older(rows, cutoff);
    let a = older(rows, expiry) as int;
    let b = if older(rows, cutoff) > a {
        older(rows, cutoff) as int
    } else {
        a
    };
    let aged = rows.subrange(a, b);
    let rest = rows.skip(b);
    let buckets = runs(aged, w);
    law_buckets_hold_exactly_the_points(aged, w);
    assert(sorted(aged)) by {
        assert forall|i: int, j: int| 0 <= i < j < aged.len() implies (#[trigger] aged[i]).0 < (
        #[trigger] aged[j]).0 by {
            assert(aged[i] == rows[a + i] && aged[j] == rows[a + j]);
        }
    }
    assert forall|i: int| 0 <= i < buckets.len() implies i64::MIN <= (#[trigger] buckets[i]).start
        && buckets[i].start + w <= cutoff && bucket_start(buckets[i].start, w)
        == buckets[i].start by {
        let run = buckets[i];
        let k = lemma_joined_has(buckets, i, 0);
        assert(aged[k] == run.rows[0]);
        assert(aged[k] == rows[a + k]);
        assert(bucket_start(run.rows[0].0 as int, w) == run.start);
        lemma_aligned(aged[k].0 as int, w);
        assert(bucket_start(cutoff, w) == cutoff);
        lemma_apart(run.start, run.start, cutoff);
    }
    assert(anchored(buckets)) by {
        assert forall|i: int| 0 <= i < buckets.len() implies {
            let run = #[trigger] buckets[i];
            &&& run.rows.len() > 0
            &&& i64::MIN <= run.start <= i64::MAX
            &&& bucket_start(run.start, BUCKET_MS as int) == run.start
            &&& forall|j: int|
                0 <= j < run.rows.len() ==> bucket_start(
                    (#[trigger] run.rows[j]).0 as int,
                    BUCKET_MS as int,
                ) == run.start
        } by {
            let run = buckets[i];
        }
    }
    assert(ordered(buckets, rest)) by {
        assert forall|i: int, j: int| 0 <= i < j < buckets.len() implies (
        #[trigger] buckets[i]).start < (#[trigger] buckets[j]).start by {
            law_bucket_starts_increase(aged, w, i, j);
        }
        assert forall|i: int, k: int| 0 <= i < buckets.len() && 0 <= k < rest.len() implies (
        #[trigger] buckets[i]).start + BUCKET_MS <= (#[trigger] rest[k]).0 by {
            assert(rest[k] == rows[b + k]);
        }
    }
    let n = candidates.len() as int;
    lemma_applied(candidates, place, buckets, rest, mean, instance, series, n);
    assert(candidates.take(n) =~= candidates);
    let done = done_by(candidates, place, buckets, instance, series);
    assert forall|k: int| 0 <= k < done.len() implies #[trigger] done[k] by {
        assert(grouped(candidates, place, k, instance, series));
    }
    lemma_all_done(buckets, done, pool);
    assert(joined(buckets) + rest =~= rows.skip(a));
    assert(parts(buckets, done, pool) == collapsed(aged, pool));
}

/// Where nothing is to be rewritten, nothing is planned.
pub proof fn law_settled_buckets_plan_nothing(candidates: Seq<Candidate>)
    requires
        forall|i: int| 0 <= i < candidates.len() ==> (#[trigger] candidates[i]).rewritten() is None,
    ensures
        planned(candidates).len() == 0,
    decreases candidates.len(),
{
    if candidates.len() > 0 {
        let head = candidates.drop_last();
        assert forall|i: int| 0 <= i < head.len() implies (#[trigger] head[i]).rewritten()
            is None by {
            assert(head[i] == candidates[i]);
        }
        law_settled_buckets_plan_nothing(head);
        assert(candidates.last() == candidates[candidates.len() - 1]);
    }
}

/// A second pass with the same bounds has nothing to report: of what the first
/// one left of a series nothing has expired, and no bucket is rewritten. A row
/// that the first pass collapses into a bucket that begins before the end of
/// retention is left out: it moves to where retention reaches it.
pub proof fn law_a_second_pass_reports_nothing(
    rows: Seq<(i64, u64)>,
    expiry: int,
    cutoff: int,
    pool: spec_fn(Seq<(i64, u64)>) -> u64,
    candidates: Seq<Candidate>,
    place: Seq<int>,
    mean: spec_fn(Seq<(i64, u64)>) -> u64,
    instance: Seq<char>,
    series: Seq<char>,
)
    requires
        sorted(rows),
        i64::MIN <= expiry,
        cutoff % (BUCKET_MS as int) == 0,
        forall|i: int|
            0 <= i < rows.len() && expiry <= (#[trigger] rows[i]).0 < cutoff ==> expiry
                <= bucket_start(rows[i].0 as int, BUCKET_MS as int),
        ({
            let left = passed(rows, expiry, cutoff, pool);
            groups(
                candidates,
                place,
                runs(left.take(older(left, cutoff) as int), BUCKET_MS as int),
                mean,
                instance,
                series,
            )
        }),
    ensures
        older(passed(rows, expiry, cutoff, pool), expiry) == 0,
        forall|i: int|
            0 <= i < candidates.len() && (#[trigger] candidates[i]).instance@ == instance
                && candidates[i].series@ == series ==> candidates[i].rewritten() is None,
{
    let left = passed(rows, expiry, cutoff, pool);
    let n = older(left, cutoff) as int;
    lemma_passed(rows, expiry, cutoff, pool);
    let aged = left.take(n);
    assert forall|i: int| 0 <= i < aged.len() implies bucket_start(
        (#[trigger] aged[i]).0 as int,
        BUCKET_MS as int,
    ) == aged[i].0 by {
        assert(aged[i] == left[i]);
    }
    lemma_settled_runs(aged);
    let buckets = runs(aged, BUCKET_MS as int);
    assert forall|i: int|
        0 <= i < candidates.len() && (#[trigger] candidates[i]).instance@ == instance
            && candidates[i].series@ == series implies candidates[i].rewritten() is None by {
        let run = buckets[place[i]];
        assert(candidates[i].describes(run, mean));
        assert(run == (Run { start: aged[place[i]].0 as int, rows: seq![aged[place[i]]] }));
        assert(run.rows.last() == aged[place[i]]);
    }
}

/// The plan names each bucket that needs rewriting once, in the order of the
/// candidates, and no other.
pub proof fn law_every_unsettled_bucket_is_planned(candidates: Seq<Candidate>, i: int)
    requires
        0 <= i < candidates.len() <= usize::MAX,
    ensures
        (exists|k: int|
            0 <= k < planned(candidates).len() && (#[trigger] planned(candidates)[k]).0 == i)
            <==> !(candidates[i].count == 1 && candidates[i].newest_ts == candidates[i].bucket),
        forall|k: int|
            0 <= k < planned(candidates).len() && (#[trigger] planned(candidates)[k]).0 == i
                ==> Some(planned(candidates)[k].1) == candidates[i].rewritten(),
        forall|j: int, k: int|
            0 <= j < k < planned(candidates).len() ==> (#[trigger] planned(candidates)[j]).0 < (
            #[trigger] planned(candidates)[k]).0 < candidates.len(),
        forall|k: int|
            0 <= k < planned(candidates).len() ==> (#[trigger] planned(candidates)[k]).0
                < candidates.len(),
    decreases candidates.len(),
{
    let head = candidates.drop_last();
    let plan = planned(candidates);
    let before = planned(head);
    if head.len() > 0 {
        law_every_unsettled_bucket_is_planned(
            head,
            if i < head.len() {
                i
            } else {
                0
            },
        );
    }
    assert forall|k: int| 0 <= k < before.len() implies plan[k] == before[k] by {}
    assert forall|k: int| 0 <= k < plan.len() implies k < before.len() || (#[trigger] plan[k]).0
        == head.len() && Some(plan[k].1) == candidates.last().rewritten() by {}
    if i < head.len() {
        assert(head[i] == candidates[i]);
        if candidates[i].rewritten() is Some {
            let k = choose|k: int| 0 <= k < before.len() && (#[trigger] before[k]).0 == i;
            assert(plan[k].0 == i);
        }
    } else {
        assert(candidates[i] == candidates.last());
        if candidates[i].rewritten() is Some {
            assert(plan[before.len() as int].0 == i);
        }
    }
}

/// Clearing removes exactly the rows from its start up to but not at its end,
/// and leaves the others in their order.
pub proof fn law_clearing_removes_a_range<V>(rows: Seq<(i64, V)>, from: int, until: int)
    ensures
        cleared(rows, from, until) == rows.filter(
            |row: (i64, V)| row.0 < from || row.0 >= until,
        ),
    decreases rows.len(),
{
    reveal(Seq::filter);
    if rows.len() > 0 {
        law_clearing_removes_a_range(rows.drop_last(), from, until);
    }
}

/// Rows that are cleared are counted once each.
pub proof fn law_cleared_rows_add_up(one: Seq<usize>, other: Seq<usize>, n: usize)
    ensures
        total(Seq::empty()) == 0,
        total(seq![n]) == n,
        total(one + other) == total(one) + total(other),
    decreases other.len(),
{
    assert(seq![n].drop_last() =~= Seq::<usize>::empty());
    if other.len() == 0 {
        assert(one + other =~= one);
    } else {
        law_cleared_rows_add_up(one, other.drop_last(), n);
        assert((one + other).drop_last() =~= one + other.drop_last());
    }
}

} // verus!
