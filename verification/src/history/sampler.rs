//! What one sampler tick records.
//!
//! The honesty rules are all rules about not writing:
//!
//! * a document that could not be fetched or read records nothing;
//! * a field the engine did not report records nothing;
//! * a field the engine tagged `mock` records nothing;
//! * a device or reading an agent did not publish records nothing;
//! * a non-finite number records nothing.
//!
//! Nothing is carried forward, interpolated, or zero-filled. Agent samples
//! are stored under the instance's name but tagged `agent-measured`, never
//! `measured`: the engine never saw those numbers.
use crate::config::{Agent, Instance};
use crate::headers::{copy_bytes, Header, Headers};
use crate::exposition::{lemma_words, words_to};
use crate::history::catalog::{
    catalog, entries, law_entries_match_their_source, law_names_are_unique,
    law_receipt_series_are_named_so, names_receipt, of_source, series_count, with_source,
    Extraction, ExtractionView, Honesty, Scale, Series, SeriesView, Source, MAX_AGENT_GPUS,
};
use crate::history::prom::{
    bears, first_wanted, label_value, law_the_first_line_is_read, leads, wanted_view, Exposition,
    SampleView as LineView,
};
use crate::history::store::{batch_view, Quantity, Sample, SampleView};
use crate::json::{json_at, law_chains_go_from_member_to_member, trees, Json, Tree};
use crate::number::{
    finite, greater, is_finite, is_greater, is_zero, law_doubles_compare_as_numbers, zero,
};
use crate::state::AgentState;
use crate::text::{
    cat2, cat3, chars_of, decimal, decimal_of, law_pieces_end_at_the_separator, pieces, same, split,
    starts, starts_with, utf8, views,
};
use std::time::UNIX_EPOCH;
use vstd::prelude::*;
use vstd::slice::slice_subrange;
use vstd::utf8::{decode_utf8, encode_utf8, valid_utf8};

verus! {

// ---------------------------------------------------------------------------
// Time

/// `SystemTime::elapsed`, asked of the Unix epoch: the time since then as whole
/// milliseconds, or nothing where the clock stands before it. Nothing is
/// claimed of what the clock shows.
#[verifier::external_body]
fn unix_millis() -> (r: Option<u128>) {
    UNIX_EPOCH.elapsed().ok().map(|elapsed| elapsed.as_millis())
}

/// A timestamp of the elapsed milliseconds; a clock before the epoch reads 0.
pub fn stamp(elapsed: Option<u128>) -> (r: i64)
    ensures
        r == match elapsed {
            Some(ms) => ms as i64,
            None => 0i64,
        },
        elapsed matches Some(ms) ==> ms <= i64::MAX ==> r == ms,
{
    match elapsed {
        Some(ms) => ms as i64,
        None => 0,
    }
}

/// The time, in milliseconds since the Unix epoch: `stamp` of whatever the
/// clock shows.
pub fn now_ms() -> i64 {
    stamp(unix_millis())
}

// ---------------------------------------------------------------------------
// Documents

/// Why a body cannot be read as text.
pub open spec fn body_text(body: Result<Seq<u8>, Seq<char>>) -> Result<Seq<char>, Seq<char>> {
    match body {
        Ok(bytes) => if valid_utf8(bytes) {
            Ok(decode_utf8(bytes))
        } else {
            Err("response was not UTF-8"@)
        },
        Err(reason) => Err(reason),
    }
}

pub open spec fn body_view(body: Result<Vec<u8>, String>) -> Result<Seq<u8>, Seq<char>> {
    match body {
        Ok(bytes) => Ok(bytes@),
        Err(reason) => Err(reason@),
    }
}

/// The body of an answer. Of one whose status is not 200 only the status is
/// told: what an engine says of an error may quote the request.
pub fn accept(status: u16, body: Vec<u8>) -> (r: Result<Vec<u8>, String>)
    ensures
        if status == 200 {
            r == Ok::<Vec<u8>, String>(body)
        } else {
            r matches Err(reason) && reason@ == "upstream answered "@ + decimal(status as nat)
        },
{
    if status == 200 {
        return Ok(body);
    }
    let status = decimal_of(status as u64);
    Err(cat2("upstream answered ", status.as_str()))
}

/// A request for one document.
#[derive(Debug)]
pub struct Fetch {
    pub url: String,
    pub headers: Headers,
}

/// Whether these are the headers of a request for a document: where it goes,
/// that it is not to be compressed, and a bearer where there is one.
pub open spec fn fetches(
    headers: Seq<Header>,
    authority: Seq<char>,
    bearer: Option<Seq<u8>>,
) -> bool {
    &&& headers.len() == (if bearer is Some {
        3nat
    } else {
        2nat
    })
    &&& headers[0].name@ == "host"@ && headers[0].value@ == encode_utf8(authority)
    &&& headers[1].name@ == "accept-encoding"@ && headers[1].value@ == encode_utf8("identity"@)
    &&& bearer matches Some(value) ==> headers[2].name@ == "authorization"@ && headers[2].value@
        == value
}

fn fetch_headers(authority: &str, bearer: Option<&Vec<u8>>) -> (r: Headers)
    ensures
        fetches(
            r.list@,
            authority@,
            match bearer {
                Some(value) => Some(value@),
                None => None,
            },
        ),
{
    let mut list: Vec<Header> = Vec::new();
    list.push(Header { name: "host".to_owned(), value: copy_bytes(authority.as_bytes()) });
    let identity = "identity";
    list.push(
        Header { name: "accept-encoding".to_owned(), value: copy_bytes(identity.as_bytes()) },
    );
    if let Some(value) = bearer {
        list.push(
            Header { name: "authorization".to_owned(), value: copy_bytes(value.as_slice()) },
        );
    }
    Headers { list }
}

/// The request for a document of an engine: with the engine's own key.
pub fn engine_fetch(instance: &Instance, path: &str) -> (r: Fetch)
    ensures
        r.url@ == instance.base_url@ + path@,
        fetches(r.headers.list@, instance.authority@, Some(instance.bearer@)),
{
    Fetch {
        url: cat2(instance.base_url.as_str(), path),
        headers: fetch_headers(instance.authority.as_str(), Some(&instance.bearer)),
    }
}

/// The request for an agent's document: an agent is never sent a credential.
pub fn agent_fetch(agent: &Agent) -> (r: Fetch)
    ensures
        r.url@ == agent.base_url@ + "/metrics"@,
        fetches(r.headers.list@, agent.authority@, None),
{
    Fetch {
        url: cat2(agent.base_url.as_str(), "/metrics"),
        headers: fetch_headers(agent.authority.as_str(), None),
    }
}

/// The exposition in a fetched body. Fetching and reading are one outcome: a
/// body that is not UTF-8 is as unusable as one that never came.
pub fn read_exposition(body: Result<Vec<u8>, String>) -> (r: Result<Exposition, String>)
    ensures
        match (r, body_text(body_view(body))) {
            (Ok(exposition), Ok(text)) => exposition.deep_view() == crate::history::prom::document(
                text,
            ),
            (Err(reason), Err(expected)) => reason@ == expected,
            _ => false,
        },
{
    match body {
        Ok(bytes) => match utf8(bytes) {
            Some(text) => Ok(Exposition::parse(text.as_str())),
            None => Err("response was not UTF-8".to_owned()),
        },
        Err(reason) => Err(reason),
    }
}

/// A parsed exposition next to the bits of the doubles that its numerals
/// denote, one for each sample.
#[derive(Debug)]
pub struct Scrape {
    pub exposition: Exposition,
    pub numbers: Vec<u64>,
}

/// A scrape as mathematical values.
pub struct ScrapeView {
    pub lines: Seq<LineView>,
    pub numbers: Seq<u64>,
}

impl View for Scrape {
    type V = ScrapeView;

    open spec fn view(&self) -> ScrapeView {
        ScrapeView { lines: self.exposition.deep_view(), numbers: self.numbers@ }
    }
}

impl ScrapeView {
    /// The number of the first wanted sample.
    pub open spec fn number(
        self,
        metric: Seq<char>,
        wanted: Option<(Seq<char>, Seq<char>)>,
    ) -> Option<u64> {
        match first_wanted(self.lines, metric, wanted) {
            Some(i) => Some(self.numbers[i]),
            None => None,
        }
    }
}

impl Scrape {
    /// There is one number for each sample.
    pub open spec fn wf(&self) -> bool {
        self.numbers@.len() == self.exposition.samples@.len()
    }

    /// The number of the first wanted sample.
    pub fn number(&self, metric: &str, wanted: Option<(&str, &str)>) -> (r: Option<u64>)
        requires
            self.wf(),
        ensures
            r == self@.number(metric@, wanted_view(wanted)),
    {
        match self.exposition.find(metric, wanted) {
            Some(i) => Some(self.numbers[i]),
            None => None,
        }
    }
}

// ---------------------------------------------------------------------------
// Gathering

/// The samples that `pick` takes from a list of series, in order.
pub open spec fn gathered(
    series: Seq<SeriesView>,
    pick: spec_fn(SeriesView) -> Option<SampleView>,
) -> Seq<SampleView>
    decreases series.len(),
{
    if series.len() == 0 {
        Seq::empty()
    } else {
        let head = gathered(series.drop_last(), pick);
        match pick(series.last()) {
            Some(sample) => head.push(sample),
            None => head,
        }
    }
}

/// The sample of one series, where its value is a finite number.
pub open spec fn storable(
    series: SeriesView,
    instance: Seq<char>,
    ts_ms: i64,
    value: Option<Quantity>,
    honesty: Honesty,
) -> Option<SampleView> {
    match value {
        Some(quantity) => if quantity.finite() {
            Some(
                SampleView {
                    instance,
                    series: series.name,
                    ts_ms,
                    value: quantity,
                    source: series.source,
                    honesty,
                },
            )
        } else {
            None
        },
        None => None,
    }
}

impl Quantity {
    /// A count is finite, and so is a millionth of a finite number.
    pub open spec fn finite(self) -> bool {
        match self {
            Quantity::Double(bits) => is_finite(bits),
            Quantity::NanosAsMillis(bits) => is_finite(bits),
            Quantity::Count(_) => true,
        }
    }

    /// Whether the number is finite.
    pub fn is_storable(self) -> (r: bool)
        ensures
            r == self.finite(),
    {
        match self {
            Quantity::Double(bits) => finite(bits),
            Quantity::NanosAsMillis(bits) => finite(bits),
            Quantity::Count(_) => true,
        }
    }
}

pub open spec fn as_double(bits: Option<u64>) -> Option<Quantity> {
    match bits {
        Some(b) => Some(Quantity::Double(b)),
        None => None,
    }
}

fn store(
    series: &Series,
    instance: &str,
    ts_ms: i64,
    value: Option<Quantity>,
    honesty: Honesty,
) -> (r: Option<Sample>)
    ensures
        match r {
            Some(sample) => storable(series@, instance@, ts_ms, value, honesty) == Some(sample@),
            None => storable(series@, instance@, ts_ms, value, honesty) is None,
        },
{
    match value {
        Some(quantity) => if quantity.is_storable() {
            Some(
                Sample {
                    instance: instance.to_owned(),
                    series: series.name.clone(),
                    ts_ms,
                    value: quantity,
                    source: series.source,
                    honesty,
                },
            )
        } else {
            None
        },
        None => None,
    }
}

// ---------------------------------------------------------------------------
// The engine's exposition

/// What the previous ticks saw, for the series whose engine-side value is a
/// latch rather than a fresh reading.
#[derive(Debug)]
pub struct Carry {
    /// `muser_completion_tokens_total` when it was last seen.
    pub completion_tokens: Option<u64>,
    /// `transfers.last()` when it was last seen.
    pub transfer_receipt: Option<Json>,
}

impl Carry {
    /// Nothing seen yet.
    pub fn new() -> (r: Carry)
        ensures
            r.completion_tokens is None,
            r.receipt() is None,
    {
        Carry { completion_tokens: None, transfer_receipt: None }
    }

    pub open spec fn receipt(&self) -> Option<Tree> {
        match self.transfer_receipt {
            Some(json) => Some(json.tree()),
            None => None,
        }
    }
}

/// The completion counter of a scrape.
pub open spec fn completions(scrape: ScrapeView) -> Option<u64> {
    scrape.number("muser_completion_tokens_total"@, None)
}

/// A request completed since the counter was last seen: it is strictly
/// greater. A restarted engine's counter is not, and neither is the first one.
pub open spec fn completed(previous: Option<u64>, current: Option<u64>) -> bool {
    match (previous, current) {
        (Some(p), Some(c)) => is_greater(c, p),
        _ => false,
    }
}

/// The newer of two sightings.
pub open spec fn newer<T>(previous: Option<T>, current: Option<T>) -> Option<T> {
    match current {
        Some(_) => current,
        None => previous,
    }
}

/// What one engine series takes from the exposition. The rate of the last
/// request is a latch: it is a reading only when a request completed.
pub open spec fn metrics_sample(
    series: SeriesView,
    scrape: ScrapeView,
    instance: Seq<char>,
    ts_ms: i64,
    fresh: bool,
) -> Option<SampleView> {
    match series.extraction {
        ExtractionView::Prometheus { metric, quantile } => if series.name
            == "request_decode_tok_s"@ && !fresh {
            None
        } else {
            storable(
                series,
                instance,
                ts_ms,
                as_double(scrape.number(metric, quantile_wanted(quantile))),
                Honesty::Measured,
            )
        },
        _ => None,
    }
}

pub open spec fn quantile_wanted(quantile: Option<Seq<char>>) -> Option<(Seq<char>, Seq<char>)> {
    match quantile {
        Some(q) => Some(("quantile"@, q)),
        None => None,
    }
}

/// Everything that the exposition yields.
pub open spec fn metrics_samples(
    scrape: ScrapeView,
    instance: Seq<char>,
    ts_ms: i64,
    fresh: bool,
) -> Seq<SampleView> {
    gathered(
        of_source(catalog(), Source::Metrics),
        |series: SeriesView| metrics_sample(series, scrape, instance, ts_ms, fresh),
    )
}

/// Records what the engine's exposition reports.
pub fn collect_metrics(
    scrape: &Scrape,
    instance: &str,
    ts_ms: i64,
    carry: &mut Carry,
    batch: &mut Vec<Sample>,
)
    requires
        scrape.wf(),
    ensures
        batch_view(final(batch)@) == batch_view(old(batch)@) + metrics_samples(
            scrape@,
            instance@,
            ts_ms,
            completed(old(carry).completion_tokens, completions(scrape@)),
        ),
        final(carry).completion_tokens == newer(
            old(carry).completion_tokens,
            completions(scrape@),
        ),
        final(carry).transfer_receipt == old(carry).transfer_receipt,
{
    let current = scrape.number("muser_completion_tokens_total", None);
    let fresh = match (carry.completion_tokens, current) {
        (Some(p), Some(c)) => greater(c, p),
        _ => false,
    };
    if current.is_some() {
        carry.completion_tokens = current;
    }
    let list = with_source(Source::Metrics);
    let ghost all = entries(list@);
    let ghost pick = |series: SeriesView|
        metrics_sample(series, scrape@, instance@, ts_ms, fresh);
    let ghost start = batch_view(batch@);
    assert(start + gathered(all.take(0), pick) =~= start);
    for i in 0..list.len()
        invariant
            scrape.wf(),
            all == entries(list@),
            pick == (|series: SeriesView|
                metrics_sample(series, scrape@, instance@, ts_ms, fresh)),
            batch_view(batch@) == start + gathered(all.take(i as int), pick),
    {
        let series = &list[i];
        let ghost before = batch_view(batch@);
        proof {
            let next = all.take(i + 1);
            assert(next.drop_last() =~= all.take(i as int));
            assert(next.last() == series@);
        }
        if let Extraction::Prometheus { metric, quantile } = &series.extraction {
            if !(same(series.name.as_str(), "request_decode_tok_s") && !fresh) {
                let wanted = match quantile {
                    Some(q) => Some(("quantile", *q)),
                    None => None,
                };
                let value = match scrape.number(metric, wanted) {
                    Some(bits) => Some(Quantity::Double(bits)),
                    None => None,
                };
                match store(series, instance, ts_ms, value, Honesty::Measured) {
                    Some(sample) => {
                        let ghost view = sample@;
                        batch.push(sample);
                        assert(batch_view(batch@) =~= before.push(view));
                    },
                    None => {},
                }
            }
        }
        assert(batch_view(batch@) =~= start + gathered(all.take(i + 1), pick));
    }
    assert(all.take(all.len() as int) =~= all);
}

// ---------------------------------------------------------------------------
// Agent expositions

/// The distinct `gpu` labels that an agent published, in order of appearance.
pub open spec fn gpus(lines: Seq<LineView>) -> Seq<Seq<char>>
    decreases lines.len(),
{
    if lines.len() == 0 {
        Seq::empty()
    } else {
        let head = gpus(lines.drop_last());
        let line = lines.last();
        match label_value(line.labels, "gpu"@) {
            Some(index) => if starts(line.metric, "muser_gpu_"@) && !head.contains(index) {
                head.push(index)
            } else {
                head
            },
            None => head,
        }
    }
}

/// What one agent series takes from the exposition.
pub open spec fn agent_sample(
    series: SeriesView,
    scrape: ScrapeView,
    instance: Seq<char>,
    ts_ms: i64,
) -> Option<SampleView> {
    match series.extraction {
        ExtractionView::Agent { metric, gpu } => storable(
            series,
            instance,
            ts_ms,
            as_double(
                scrape.number(
                    metric,
                    match gpu {
                        Some(index) => Some(("gpu"@, index)),
                        None => None,
                    },
                ),
            ),
            Honesty::AgentMeasured,
        ),
        _ => None,
    }
}

/// The exporter says that its own data source did not answer.
pub open spec fn says_down(scrape: ScrapeView) -> bool {
    match scrape.number("muser_agent_up"@, None) {
        Some(bits) => is_zero(bits),
        None => false,
    }
}

/// Everything that an agent's exposition yields: nothing at all where the
/// exporter says that its source is down.
pub open spec fn agent_samples(scrape: ScrapeView, instance: Seq<char>, ts_ms: i64) -> Seq<
    SampleView,
> {
    if says_down(scrape) {
        Seq::empty()
    } else {
        gathered(
            of_source(catalog(), Source::Agent),
            |series: SeriesView| agent_sample(series, scrape, instance, ts_ms),
        )
    }
}

/// What one agent scrape contained, beyond the samples it produced.
#[derive(Clone, Copy, PartialEq, Eq, Debug, Structural)]
pub struct AgentScrape {
    /// Distinct `gpu` labels, those that the catalog has no name for included.
    pub gpus_seen: usize,
}

fn count_gpus(exposition: &Exposition) -> (r: usize)
    ensures
        r == gpus(exposition.deep_view()).len(),
{
    let mut seen: Vec<String> = Vec::new();
    let ghost all = exposition.deep_view();
    for i in 0..exposition.samples.len()
        invariant
            all == exposition.samples.deep_view(),
            seen.deep_view() == gpus(all.take(i as int)),
    {
        let line = &exposition.samples[i];
        let ghost before = seen.deep_view();
        proof {
            let next = all.take(i + 1);
            assert(next.drop_last() =~= all.take(i as int));
            assert(next.last() == line.deep_view());
        }
        let label = line.label("gpu");
        if let Some(index) = label {
            if starts_with(line.metric.as_str(), "muser_gpu_") && !listed(&seen, index) {
                seen.push(index.to_owned());
                assert(seen.deep_view() =~= before.push(index@));
            }
        }
    }
    assert(all.take(all.len() as int) =~= all);
    assert(seen.deep_view().len() == seen@.len());
    seen.len()
}

/// Whether `text` is one of `list`.
fn listed(list: &Vec<String>, text: &str) -> (r: bool)
    ensures
        r == list.deep_view().contains(text@),
{
    for i in 0..list.len()
        invariant
            forall|j: int| 0 <= j < i ==> (#[trigger] list@[j])@ != text@,
    {
        if same(list[i].as_str(), text) {
            assert(list.deep_view()[i as int] == text@);
            return true;
        }
    }
    assert forall|j: int| 0 <= j < list.deep_view().len() implies list.deep_view()[j] != text@ by {
        assert(list.deep_view()[j] == list@[j]@);
    }
    false
}

/// Records what an agent's exposition reports.
pub fn collect_agent(
    scrape: &Scrape,
    instance: &str,
    ts_ms: i64,
    batch: &mut Vec<Sample>,
) -> (r: AgentScrape)
    requires
        scrape.wf(),
    ensures
        r.gpus_seen == gpus(scrape@.lines).len(),
        batch_view(final(batch)@) == batch_view(old(batch)@) + agent_samples(
            scrape@,
            instance@,
            ts_ms,
        ),
{
    let report = AgentScrape { gpus_seen: count_gpus(&scrape.exposition) };
    let ghost start = batch_view(batch@);
    let down = match scrape.number("muser_agent_up", None) {
        Some(bits) => zero(bits),
        None => false,
    };
    if down {
        assert(start + Seq::<SampleView>::empty() =~= start);
        return report;
    }
    let list = with_source(Source::Agent);
    let ghost all = entries(list@);
    let ghost pick = |series: SeriesView| agent_sample(series, scrape@, instance@, ts_ms);
    assert(start + gathered(all.take(0), pick) =~= start);
    for i in 0..list.len()
        invariant
            scrape.wf(),
            all == entries(list@),
            pick == (|series: SeriesView| agent_sample(series, scrape@, instance@, ts_ms)),
            batch_view(batch@) == start + gathered(all.take(i as int), pick),
    {
        let series = &list[i];
        let ghost before = batch_view(batch@);
        proof {
            let next = all.take(i + 1);
            assert(next.drop_last() =~= all.take(i as int));
            assert(next.last() == series@);
        }
        if let Extraction::Agent { metric, gpu } = &series.extraction {
            let number = match gpu {
                Some(index) => scrape.number(metric, Some(("gpu", index.as_str()))),
                None => scrape.number(metric, None),
            };
            let value = match number {
                Some(bits) => Some(Quantity::Double(bits)),
                None => None,
            };
            match store(series, instance, ts_ms, value, Honesty::AgentMeasured) {
                Some(sample) => {
                    let ghost view = sample@;
                    batch.push(sample);
                    assert(batch_view(batch@) =~= before.push(view));
                },
                None => {},
            }
        }
        assert(batch_view(batch@) =~= start + gathered(all.take(i + 1), pick));
    }
    assert(all.take(all.len() as int) =~= all);
    report
}

// ---------------------------------------------------------------------------
// The engine's snapshot

/// The closest tag for `path` in the sidecar: the tag of the exact path, else
/// that of the longest prefix that is tagged.
pub open spec fn closest_tag(sidecar: Tree, path: Seq<Seq<char>>, end: nat) -> Option<Seq<char>>
    decreases end,
{
    if end == 0 {
        None
    } else {
        match sidecar.at(path.take(end as int)) {
            Some(Tree::Text(tag)) => Some(tag),
            _ => closest_tag(sidecar, path, (end - 1) as nat),
        }
    }
}

/// The honesty of a dotted path: what the closest tag names. A path without
/// any tag has none, except under a `_`-prefixed process extension, which is
/// measured.
pub open spec fn honesty_of(snapshot: Tree, path: Seq<char>) -> Option<Honesty> {
    let segments = pieces(path, '.');
    let tag = match snapshot.member("_honesty"@) {
        Some(sidecar) => closest_tag(sidecar, segments, segments.len()),
        None => None,
    };
    match tag {
        Some(text) => Honesty::tagged(text),
        None => if starts(segments[0], "_"@) {
            Some(Honesty::Measured)
        } else {
            None
        },
    }
}

/// Reads the tag of a dotted path out of the snapshot's `_honesty` sidecar.
pub fn honesty_for(snapshot: &Json, path: &str) -> (r: Option<Honesty>)
    ensures
        r == honesty_of(snapshot.tree(), path@),
{
    let chars = chars_of(path);
    let segments = split(chars.as_slice(), '.');
    let ghost all = views(segments@);
    proof {
        lemma_pieces_nonempty(path@, '.');
    }
    if let Some(sidecar) = snapshot.get("_honesty") {
        let mut end: usize = segments.len();
        while end > 0
            invariant
                end <= segments@.len(),
                all == views(segments@),
                closest_tag(sidecar.tree(), all, all.len()) == closest_tag(
                    sidecar.tree(),
                    all,
                    end as nat,
                ),
                snapshot.tree().member("_honesty"@) == Some(sidecar.tree()),
                all == pieces(path@, '.'),
            decreases end,
        {
            let prefix = slice_subrange(segments.as_slice(), 0, end);
            assert(views(prefix@) =~= all.take(end as int));
            if let Some(found) = json_at(sidecar, prefix) {
                if let Some(tag) = found.as_str() {
                    return Honesty::from_tag(tag);
                }
            }
            end -= 1;
        }
    }
    let first = crate::text::text_of(segments[0].as_slice());
    if starts_with(first.as_str(), "_") {
        Some(Honesty::Measured)
    } else {
        None
    }
}

proof fn lemma_pieces_nonempty(s: Seq<char>, c: char)
    ensures
        pieces(s, c).len() > 0,
{
}

/// How many transfers have a phase other than `"done"`.
pub open spec fn active(transfers: Seq<Tree>) -> nat
    decreases transfers.len(),
{
    if transfers.len() == 0 {
        0
    } else {
        active(transfers.drop_last()) + if transfers.last().member("phase"@) == Some(
            Tree::Text("done"@),
        ) {
            0nat
        } else {
            1nat
        }
    }
}

/// The list of transfers.
pub open spec fn transfers(snapshot: Tree) -> Option<Seq<Tree>> {
    match snapshot.member("transfers"@) {
        Some(Tree::Array(items)) => Some(items),
        _ => None,
    }
}

/// The last transfer.
pub open spec fn receipt(snapshot: Tree) -> Option<Tree> {
    match transfers(snapshot) {
        Some(items) => if items.len() > 0 {
            Some(items.last())
        } else {
            None
        },
        None => None,
    }
}

/// The value that an extraction takes from a snapshot. An empty list of
/// transfers counts zero active ones, and describes no handoff at all.
pub open spec fn taken(snapshot: Tree, extraction: ExtractionView) -> Option<Quantity> {
    match extraction {
        ExtractionView::Snapshot { path } => match snapshot.at(pieces(path, '.')) {
            Some(value) => as_double(value.bits()),
            None => None,
        },
        ExtractionView::TransfersActive => match transfers(snapshot) {
            Some(items) => Some(Quantity::Count(active(items) as u64)),
            None => None,
        },
        ExtractionView::TransferLast { field, scale } => match receipt(snapshot) {
            Some(last) => match last.member(field) {
                Some(value) => match value.bits() {
                    Some(bits) => Some(
                        match scale {
                            Scale::Unit => Quantity::Double(bits),
                            Scale::NanosToMillis => Quantity::NanosAsMillis(bits),
                        },
                    ),
                    None => None,
                },
                None => None,
            },
            None => None,
        },
        _ => None,
    }
}

fn count_active(items: &Vec<Json>) -> (r: usize)
    ensures
        r == active(trees(items@)),
{
    let ghost all = trees(items@);
    let mut count: usize = 0;
    for i in 0..items.len()
        invariant
            all == trees(items@),
            count <= i,
            count == active(all.take(i as int)),
    {
        proof {
            let next = all.take(i + 1);
            assert(next.drop_last() =~= all.take(i as int));
            assert(next.last() == items@[i as int].tree());
        }
        let done = match items[i].get("phase") {
            Some(phase) => match phase.as_str() {
                Some(text) => same(text, "done"),
                None => false,
            },
            None => false,
        };
        if !done {
            count += 1;
        }
    }
    assert(all.take(all.len() as int) =~= all);
    count
}

fn transfer_list(snapshot: &Json) -> (r: Option<&Vec<Json>>)
    ensures
        match r {
            Some(items) => transfers(snapshot.tree()) == Some(trees(items@)),
            None => transfers(snapshot.tree()) is None,
        },
{
    match snapshot.get("transfers") {
        Some(value) => value.as_array(),
        None => None,
    }
}

fn last_transfer(snapshot: &Json) -> (r: Option<&Json>)
    ensures
        match r {
            Some(json) => receipt(snapshot.tree()) == Some(json.tree()),
            None => receipt(snapshot.tree()) is None,
        },
{
    match transfer_list(snapshot) {
        Some(items) => if items.len() > 0 {
            assert(trees(items@).last() == items@[items@.len() - 1].tree());
            Some(&items[items.len() - 1])
        } else {
            None
        },
        None => None,
    }
}

/// The value that an extraction takes from a snapshot.
pub fn snapshot_value(snapshot: &Json, extraction: &Extraction) -> (r: Option<Quantity>)
    ensures
        r == taken(snapshot.tree(), extraction@),
{
    match extraction {
        Extraction::Snapshot { path } => {
            let chars = chars_of(path);
            let segments = split(chars.as_slice(), '.');
            match json_at(snapshot, segments.as_slice()) {
                Some(value) => match value.as_bits() {
                    Some(bits) => Some(Quantity::Double(bits)),
                    None => None,
                },
                None => None,
            }
        },
        Extraction::TransfersActive => match transfer_list(snapshot) {
            Some(items) => Some(Quantity::Count(count_active(items) as u64)),
            None => None,
        },
        Extraction::TransferLast { field, scale } => match last_transfer(snapshot) {
            Some(last) => match last.get(field) {
                Some(value) => match value.as_bits() {
                    Some(bits) => Some(
                        match scale {
                            Scale::Unit => Quantity::Double(bits),
                            Scale::NanosToMillis => Quantity::NanosAsMillis(bits),
                        },
                    ),
                    None => None,
                },
                None => None,
            },
            None => None,
        },
        Extraction::Prometheus { .. } => None,
        Extraction::Agent { .. } => None,
    }
}

/// What one snapshot series takes from the snapshot. Honesty comes first: a
/// mock or untagged field is skipped. A transfer receipt is a latch: it is
/// news only while it changes.
pub open spec fn snapshot_sample(
    series: SeriesView,
    snapshot: Tree,
    instance: Seq<char>,
    ts_ms: i64,
    fresh: bool,
) -> Option<SampleView> {
    match series.honesty_path {
        None => None,
        Some(path) => if series.extraction is TransferLast && !fresh {
            None
        } else {
            match honesty_of(snapshot, path) {
                Some(honesty) => storable(
                    series,
                    instance,
                    ts_ms,
                    taken(snapshot, series.extraction),
                    honesty,
                ),
                None => None,
            }
        },
    }
}

/// The receipt is there and differs from the one last seen.
pub open spec fn receipt_is_new(previous: Option<Tree>, current: Option<Tree>) -> bool {
    current is Some && current != previous
}

/// Everything that the snapshot yields.
pub open spec fn snapshot_samples(
    snapshot: Tree,
    instance: Seq<char>,
    ts_ms: i64,
    fresh: bool,
) -> Seq<SampleView> {
    gathered(
        of_source(catalog(), Source::Snapshot),
        |series: SeriesView| snapshot_sample(series, snapshot, instance, ts_ms, fresh),
    )
}

/// Records what the engine's snapshot reports.
pub fn collect_snapshot(
    snapshot: &Json,
    instance: &str,
    ts_ms: i64,
    carry: &mut Carry,
    batch: &mut Vec<Sample>,
)
    ensures
        batch_view(final(batch)@) == batch_view(old(batch)@) + snapshot_samples(
            snapshot.tree(),
            instance@,
            ts_ms,
            receipt_is_new(old(carry).receipt(), receipt(snapshot.tree())),
        ),
        final(carry).receipt() == newer(old(carry).receipt(), receipt(snapshot.tree())),
        final(carry).completion_tokens == old(carry).completion_tokens,
{
    let last = last_transfer(snapshot);
    let fresh = match last {
        Some(current) => match &carry.transfer_receipt {
            Some(previous) => !current.same_as(previous),
            None => true,
        },
        None => false,
    };
    if let Some(current) = last {
        carry.transfer_receipt = Some(current.copy());
    }
    let list = with_source(Source::Snapshot);
    let ghost all = entries(list@);
    let ghost tree = snapshot.tree();
    let ghost pick = |series: SeriesView| snapshot_sample(series, tree, instance@, ts_ms, fresh);
    let ghost start = batch_view(batch@);
    assert(start + gathered(all.take(0), pick) =~= start);
    for i in 0..list.len()
        invariant
            tree == snapshot.tree(),
            all == entries(list@),
            pick == (|series: SeriesView|
                snapshot_sample(series, tree, instance@, ts_ms, fresh)),
            batch_view(batch@) == start + gathered(all.take(i as int), pick),
    {
        let series = &list[i];
        let ghost before = batch_view(batch@);
        proof {
            let next = all.take(i + 1);
            assert(next.drop_last() =~= all.take(i as int));
            assert(next.last() == series@);
        }
        if let Some(path) = series.honesty_path {
            let latched = match series.extraction {
                Extraction::TransferLast { .. } => true,
                _ => false,
            };
            if !latched || fresh {
                if let Some(honesty) = honesty_for(snapshot, path) {
                    let value = snapshot_value(snapshot, &series.extraction);
                    match store(series, instance, ts_ms, value, honesty) {
                        Some(sample) => {
                            let ghost view = sample@;
                            batch.push(sample);
                            assert(batch_view(batch@) =~= before.push(view));
                        },
                        None => {},
                    }
                }
            }
        }
        assert(batch_view(batch@) =~= start + gathered(all.take(i + 1), pick));
    }
    assert(all.take(all.len() as int) =~= all);
}

/// The engine's marker that a DFlash runtime exists.
pub open spec fn dflash_configured(snapshot: Option<Tree>) -> bool {
    match snapshot {
        Some(tree) => match tree.at(pieces("specdec.draft_len"@, '.')) {
            Some(value) => value.unsigned() is Some,
            None => false,
        },
        None => false,
    }
}

/// The samples whose series is not a DFlash one.
pub open spec fn without_dflash(batch: Seq<SampleView>) -> Seq<SampleView>
    decreases batch.len(),
{
    if batch.len() == 0 {
        Seq::empty()
    } else {
        let head = without_dflash(batch.drop_last());
        if starts(batch.last().series, "dflash_"@) {
            head
        } else {
            head.push(batch.last())
        }
    }
}

/// A missing marker is unavailable, never a measured zero.
pub open spec fn gated(snapshot: Option<Tree>, batch: Seq<SampleView>) -> Seq<SampleView> {
    if dflash_configured(snapshot) {
        batch
    } else {
        without_dflash(batch)
    }
}

pub open spec fn opt_tree(snapshot: Option<&Json>) -> Option<Tree> {
    match snapshot {
        Some(json) => Some(json.tree()),
        None => None,
    }
}

/// Removes series whose optional runtime was not present this tick.
pub fn gate_optional_features(snapshot: Option<&Json>, batch: &mut Vec<Sample>)
    ensures
        batch_view(final(batch)@) == gated(opt_tree(snapshot), batch_view(old(batch)@)),
{
    let configured = match snapshot {
        Some(json) => {
            let chars = chars_of("specdec.draft_len");
            let segments = split(chars.as_slice(), '.');
            match json_at(json, segments.as_slice()) {
                Some(value) => value.as_unsigned().is_some(),
                None => false,
            }
        },
        None => false,
    };
    if configured {
        return;
    }
    let ghost all = batch_view(batch@);
    let mut samples: Vec<Sample> = Vec::new();
    std::mem::swap(batch, &mut samples);
    assert(batch_view(batch@) =~= without_dflash(all.take(0)));
    for sample in it: samples
        invariant
            batch_view(it.seq()) == all,
            batch_view(batch@) == without_dflash(all.take(it.index() as int)),
    {
        let ghost i = it.index() as int;
        let ghost before = batch_view(batch@);
        proof {
            let next = all.take(i + 1);
            assert(next.drop_last() =~= all.take(i));
            assert(next.last() == batch_view(it.seq())[i]);
            assert(next.last() == sample@);
        }
        if !starts_with(sample.series.as_str(), "dflash_") {
            let ghost view = sample@;
            batch.push(sample);
            assert(batch_view(batch@) =~= before.push(view));
        }
    }
    assert(all.take(all.len() as int) =~= all);
}

// ---------------------------------------------------------------------------
// Health

/// Tracks up and down, so that a failure is logged on the change and not on
/// every tick.
#[derive(Clone, Copy, PartialEq, Eq, Debug, Structural)]
pub struct Health {
    pub up: Option<bool>,
}

/// The line that an outcome is worth: nothing while nothing changes, and
/// nothing for a healthy start.
pub open spec fn health_line(
    up: Option<bool>,
    subject: Seq<char>,
    what: Seq<char>,
    outcome: Result<(), Seq<char>>,
) -> Option<Seq<char>> {
    match outcome {
        Ok(_) => if up == Some(false) {
            Some("history sampler: "@ + subject + " "@ + what + " recovered"@)
        } else {
            None
        },
        Err(reason) => if up == Some(false) {
            None
        } else {
            Some(
                "history sampler: "@ + subject + " "@ + what + " unavailable ("@ + reason
                    + "); recording nothing until it returns"@,
            )
        },
    }
}

/// The text behind an optional line.
pub open spec fn line_view(line: Option<String>) -> Option<Seq<char>> {
    match line {
        Some(text) => Some(text@),
        None => None,
    }
}

pub open spec fn outcome_view(outcome: Result<(), &str>) -> Result<(), Seq<char>> {
    match outcome {
        Ok(_) => Ok(()),
        Err(reason) => Err(reason@),
    }
}

impl Health {
    /// No outcome yet.
    pub fn new() -> (r: Health)
        ensures
            r.up is None,
    {
        Health { up: None }
    }

    /// Notes an outcome and gives the line that it is worth.
    pub fn note(&mut self, subject: &str, what: &str, outcome: Result<(), &str>) -> (r: Option<
        String,
    >)
        ensures
            final(self).up == Some(outcome is Ok),
            line_view(r) == health_line(old(self).up, subject@, what@, outcome_view(outcome)),
    {
        let before = self.up;
        match outcome {
            Ok(_) => {
                self.up = Some(true);
                match before {
                    Some(false) => {
                        let head = cat3("history sampler: ", subject, " ");
                        Some(cat3(head.as_str(), what, " recovered"))
                    },
                    _ => None,
                }
            },
            Err(reason) => {
                self.up = Some(false);
                match before {
                    Some(false) => None,
                    _ => {
                        let head = cat3("history sampler: ", subject, " ");
                        let middle = cat3(head.as_str(), what, " unavailable (");
                        Some(
                            cat3(
                                middle.as_str(),
                                reason,
                                "); recording nothing until it returns",
                            ),
                        )
                    },
                }
            },
        }
    }
}

/// Per-agent tracking: reachability, and whether the agent published more
/// devices than the catalog can name.
#[derive(Clone, Copy, PartialEq, Eq, Debug, Structural)]
pub struct AgentHealth {
    pub reach: Health,
    pub overflowing: Option<bool>,
}

/// The line that a device count is worth: said once per change.
pub open spec fn overflow_line(
    overflowing: Option<bool>,
    subject: Seq<char>,
    gpus_seen: nat,
) -> Option<Seq<char>> {
    let limit = decimal(MAX_AGENT_GPUS as nat);
    if gpus_seen > MAX_AGENT_GPUS && overflowing != Some(true) {
        Some(
            "history sampler: "@ + subject + " published "@ + decimal(gpus_seen)
                + " GPUs; storing the first "@ + limit + " and recording nothing for the rest"@,
        )
    } else if gpus_seen <= MAX_AGENT_GPUS && overflowing == Some(true) {
        Some("history sampler: "@ + subject + " is back within "@ + limit + " GPUs"@)
    } else {
        None
    }
}

impl AgentHealth {
    /// No outcome yet.
    pub fn new() -> (r: AgentHealth)
        ensures
            r.reach.up is None,
            r.overflowing is None,
    {
        AgentHealth { reach: Health::new(), overflowing: None }
    }

    /// Notes a device count and gives the line that it is worth. Devices past
    /// the catalog are dropped; saying so is the only honest option.
    pub fn note_overflow(&mut self, subject: &str, gpus_seen: usize) -> (r: Option<String>)
        ensures
            final(self).overflowing == Some(gpus_seen > MAX_AGENT_GPUS),
            final(self).reach == old(self).reach,
            line_view(r) == overflow_line(old(self).overflowing, subject@, gpus_seen as nat),
    {
        let before = self.overflowing;
        let now = gpus_seen > MAX_AGENT_GPUS;
        self.overflowing = Some(now);
        let was = match before {
            Some(flag) => flag,
            None => false,
        };
        if now == was {
            return None;
        }
        let limit = decimal_of(MAX_AGENT_GPUS as u64);
        if now {
            let count = decimal_of(gpus_seen as u64);
            let head = cat3("history sampler: ", subject, " published ");
            let middle = cat3(head.as_str(), count.as_str(), " GPUs; storing the first ");
            Some(
                cat3(middle.as_str(), limit.as_str(), " and recording nothing for the rest"),
            )
        } else {
            let head = cat3("history sampler: ", subject, " is back within ");
            Some(cat3(head.as_str(), limit.as_str(), " GPUs"))
        }
    }
}

// ---------------------------------------------------------------------------
// A tick

/// An agent's half of a tick: its name and its scrape, or why there is none.
#[derive(Debug)]
pub struct AgentBody {
    pub name: String,
    pub outcome: Result<Scrape, String>,
}

/// An agent's half of a tick, as mathematical values.
pub struct AgentBodyView {
    pub name: Seq<char>,
    pub outcome: Result<ScrapeView, Seq<char>>,
}

impl View for AgentBody {
    type V = AgentBodyView;

    open spec fn view(&self) -> AgentBodyView {
        AgentBodyView { name: self.name@, outcome: scrape_view(self.outcome) }
    }
}

pub open spec fn scrape_view(outcome: Result<Scrape, String>) -> Result<ScrapeView, Seq<char>> {
    match outcome {
        Ok(scrape) => Ok(scrape@),
        Err(reason) => Err(reason@),
    }
}

pub open spec fn scrape_wf(outcome: Result<Scrape, String>) -> bool {
    outcome matches Ok(scrape) ==> scrape.wf()
}

pub open spec fn snapshot_view(outcome: Result<Json, String>) -> Result<Tree, Seq<char>> {
    match outcome {
        Ok(json) => Ok(json.tree()),
        Err(reason) => Err(reason@),
    }
}

/// An outcome without what it brought.
pub open spec fn bare<T>(outcome: Result<T, Seq<char>>) -> Result<(), Seq<char>> {
    match outcome {
        Ok(_) => Ok(()),
        Err(reason) => Err(reason),
    }
}

/// A list with an optional last line.
pub open spec fn with_line(lines: Seq<Seq<char>>, line: Option<Seq<char>>) -> Seq<Seq<char>> {
    match line {
        Some(text) => lines.push(text),
        None => lines,
    }
}

/// How a log line names an upstream.
pub open spec fn subject_of(kind: Seq<char>, name: Seq<char>) -> Seq<char> {
    kind + name + "'"@
}

/// The state that an agent's outcome leaves it in.
pub open spec fn reached(agent: AgentBodyView) -> AgentState {
    if agent.outcome is Ok {
        AgentState::Live
    } else {
        AgentState::Unreachable
    }
}

/// The health that an agent's outcome leaves.
pub open spec fn agent_health(health: AgentHealth, agent: AgentBodyView) -> AgentHealth {
    AgentHealth {
        reach: Health { up: Some(agent.outcome is Ok) },
        overflowing: match agent.outcome {
            Ok(scrape) => Some(gpus(scrape.lines).len() > MAX_AGENT_GPUS),
            Err(_) => health.overflowing,
        },
    }
}

/// The lines that an agent's outcome is worth.
pub open spec fn agent_lines(health: AgentHealth, agent: AgentBodyView) -> Seq<Seq<char>> {
    let subject = subject_of("agent '"@, agent.name);
    let reach = with_line(
        Seq::empty(),
        health_line(health.reach.up, subject, "/metrics"@, bare(agent.outcome)),
    );
    match agent.outcome {
        Ok(scrape) => with_line(
            reach,
            overflow_line(health.overflowing, subject, gpus(scrape.lines).len()),
        ),
        Err(_) => reach,
    }
}

/// What an agent's outcome yields.
pub open spec fn agent_part(agent: AgentBodyView, instance: Seq<char>, ts_ms: i64) -> Seq<
    SampleView,
> {
    match agent.outcome {
        Ok(scrape) => agent_samples(scrape, instance, ts_ms),
        Err(_) => Seq::empty(),
    }
}

/// What all agents yield, in their order.
pub open spec fn agents_part(
    agents: Seq<AgentBodyView>,
    instance: Seq<char>,
    ts_ms: i64,
) -> Seq<SampleView>
    decreases agents.len(),
{
    if agents.len() == 0 {
        Seq::empty()
    } else {
        agents_part(agents.drop_last(), instance, ts_ms) + agent_part(
            agents.last(),
            instance,
            ts_ms,
        )
    }
}

/// The lines that all agents are worth, in their order.
pub open spec fn agents_lines(healths: Seq<AgentHealth>, agents: Seq<AgentBodyView>) -> Seq<
    Seq<char>,
>
    decreases agents.len(),
{
    if agents.len() == 0 {
        Seq::empty()
    } else {
        let last = agents.len() - 1;
        agents_lines(healths, agents.drop_last()) + agent_lines(healths[last], agents[last])
    }
}

/// What the engine's two documents yield together.
pub open spec fn engine_part(
    metrics: Result<ScrapeView, Seq<char>>,
    snapshot: Result<Tree, Seq<char>>,
    tokens: Option<u64>,
    last: Option<Tree>,
    instance: Seq<char>,
    ts_ms: i64,
) -> Seq<SampleView> {
    let from_metrics = match metrics {
        Ok(scrape) => metrics_samples(
            scrape,
            instance,
            ts_ms,
            completed(tokens, completions(scrape)),
        ),
        Err(_) => Seq::empty(),
    };
    let from_snapshot = match snapshot {
        Ok(tree) => snapshot_samples(
            tree,
            instance,
            ts_ms,
            receipt_is_new(last, receipt(tree)),
        ),
        Err(_) => Seq::empty(),
    };
    gated(
        match snapshot {
            Ok(tree) => Some(tree),
            Err(_) => None,
        },
        from_metrics + from_snapshot,
    )
}

/// One agent's half of a tick: reachability, then whatever it published.
pub fn collect_agent_tick(
    agent: &AgentBody,
    health: &mut AgentHealth,
    instance: &str,
    ts_ms: i64,
    batch: &mut Vec<Sample>,
    lines: &mut Vec<String>,
) -> (r: AgentState)
    requires
        scrape_wf(agent.outcome),
    ensures
        r == reached(agent@),
        *final(health) == agent_health(*old(health), agent@),
        batch_view(final(batch)@) == batch_view(old(batch)@) + agent_part(
            agent@,
            instance@,
            ts_ms,
        ),
        final(lines).deep_view() == old(lines).deep_view() + agent_lines(*old(health), agent@),
{
    let subject = cat3("agent '", agent.name.as_str(), "'");
    let ghost start = lines.deep_view();
    match &agent.outcome {
        Ok(scrape) => {
            push_line(lines, health.reach.note(subject.as_str(), "/metrics", Ok(())));
            let report = collect_agent(scrape, instance, ts_ms, batch);
            push_line(lines, health.note_overflow(subject.as_str(), report.gpus_seen));
            assert(lines.deep_view() =~= start + agent_lines(*old(health), agent@));
            AgentState::Live
        },
        Err(reason) => {
            push_line(
                lines,
                health.reach.note(subject.as_str(), "/metrics", Err(reason.as_str())),
            );
            proof {
                assert(batch_view(batch@) + Seq::<SampleView>::empty() =~= batch_view(batch@));
                assert(lines.deep_view() =~= start + agent_lines(*old(health), agent@));
            }
            AgentState::Unreachable
        },
    }
}

fn push_line(lines: &mut Vec<String>, line: Option<String>)
    ensures
        final(lines).deep_view() == with_line(old(lines).deep_view(), line_view(line)),
{
    if let Some(text) = line {
        lines.push(text);
        assert(lines.deep_view() =~= old(lines).deep_view().push(text@));
    }
}

/// What one instance's sampler remembers between ticks.
#[derive(Debug)]
pub struct Sampler {
    pub metrics: Health,
    pub snapshot: Health,
    pub carry: Carry,
    /// One for each agent of the instance, in their order.
    pub agents: Vec<AgentHealth>,
}

/// What a tick brought: samples to store, the state of each agent, and the
/// lines worth logging.
#[derive(Debug)]
pub struct Tick {
    pub batch: Vec<Sample>,
    pub states: Vec<AgentState>,
    pub lines: Vec<String>,
}

impl Sampler {
    /// A sampler for an instance with this many agents.
    pub fn new(agents: usize) -> (r: Sampler)
        ensures
            r.metrics.up is None,
            r.snapshot.up is None,
            r.carry.completion_tokens is None,
            r.carry.receipt() is None,
            r.agents@.len() == agents,
            forall|i: int|
                0 <= i < agents ==> (#[trigger] r.agents@[i]).reach.up is None
                    && r.agents@[i].overflowing is None,
    {
        let mut healths: Vec<AgentHealth> = Vec::new();
        for i in 0..agents
            invariant
                healths@.len() == i,
                forall|j: int|
                    0 <= j < i ==> (#[trigger] healths@[j]).reach.up is None
                        && healths@[j].overflowing is None,
        {
            healths.push(AgentHealth::new());
        }
        Sampler {
            metrics: Health::new(),
            snapshot: Health::new(),
            carry: Carry::new(),
            agents: healths,
        }
    }

    /// Takes one tick's documents, all under one timestamp, and says what to
    /// store, what to log and how each agent answered.
    pub fn tick(
        &mut self,
        instance: &str,
        ts_ms: i64,
        metrics: &Result<Scrape, String>,
        snapshot: &Result<Json, String>,
        agents: &Vec<AgentBody>,
    ) -> (r: Tick)
        requires
            scrape_wf(*metrics),
            old(self).agents@.len() == agents@.len(),
            forall|i: int| 0 <= i < agents@.len() ==> scrape_wf((#[trigger] agents@[i]).outcome),
        ensures
            batch_view(r.batch@) == engine_part(
                scrape_view(*metrics),
                snapshot_view(*snapshot),
                old(self).carry.completion_tokens,
                old(self).carry.receipt(),
                instance@,
                ts_ms,
            ) + agents_part(bodies(agents@), instance@, ts_ms),
            r.states@ == bodies(agents@).map_values(|agent: AgentBodyView| reached(agent)),
            r.lines.deep_view() == with_line(
                with_line(
                    Seq::empty(),
                    health_line(
                        old(self).metrics.up,
                        subject_of("instance '"@, instance@),
                        "/metrics"@,
                        bare(scrape_view(*metrics)),
                    ),
                ),
                health_line(
                    old(self).snapshot.up,
                    subject_of("instance '"@, instance@),
                    "/snapshot"@,
                    bare(snapshot_view(*snapshot)),
                ),
            ) + agents_lines(old(self).agents@, bodies(agents@)),
            final(self).metrics.up == Some(metrics is Ok),
            final(self).snapshot.up == Some(snapshot is Ok),
            final(self).carry.completion_tokens == match scrape_view(*metrics) {
                Ok(scrape) => newer(old(self).carry.completion_tokens, completions(scrape)),
                Err(_) => old(self).carry.completion_tokens,
            },
            final(self).carry.receipt() == match snapshot_view(*snapshot) {
                Ok(tree) => newer(old(self).carry.receipt(), receipt(tree)),
                Err(_) => old(self).carry.receipt(),
            },
            final(self).agents@.len() == agents@.len(),
            forall|i: int|
                0 <= i < agents@.len() ==> #[trigger] final(self).agents@[i] == agent_health(
                    old(self).agents@[i],
                    agents@[i]@,
                ),
    {
        let mut batch: Vec<Sample> = Vec::new();
        let mut lines: Vec<String> = Vec::new();
        let mut states: Vec<AgentState> = Vec::new();
        let subject = cat3("instance '", instance, "'");
        assert(batch_view(batch@) =~= Seq::<SampleView>::empty());
        assert(lines.deep_view() =~= Seq::<Seq<char>>::empty());
        match metrics {
            Ok(scrape) => {
                push_line(&mut lines, self.metrics.note(subject.as_str(), "/metrics", Ok(())));
                collect_metrics(scrape, instance, ts_ms, &mut self.carry, &mut batch);
            },
            Err(reason) => {
                push_line(
                    &mut lines,
                    self.metrics.note(subject.as_str(), "/metrics", Err(reason.as_str())),
                );
            },
        }
        match snapshot {
            Ok(json) => {
                push_line(&mut lines, self.snapshot.note(subject.as_str(), "/snapshot", Ok(())));
                collect_snapshot(json, instance, ts_ms, &mut self.carry, &mut batch);
            },
            Err(reason) => {
                push_line(
                    &mut lines,
                    self.snapshot.note(subject.as_str(), "/snapshot", Err(reason.as_str())),
                );
            },
        }
        let present = match snapshot {
            Ok(json) => Some(json),
            Err(_) => None,
        };
        gate_optional_features(present, &mut batch);
        let ghost engine = batch_view(batch@);
        let ghost engine_lines = lines.deep_view();
        let ghost all = bodies(agents@);
        proof {
            let from_metrics = match scrape_view(*metrics) {
                Ok(scrape) => metrics_samples(
                    scrape,
                    instance@,
                    ts_ms,
                    completed(old(self).carry.completion_tokens, completions(scrape)),
                ),
                Err(_) => Seq::empty(),
            };
            let from_snapshot = match snapshot_view(*snapshot) {
                Ok(tree) => snapshot_samples(
                    tree,
                    instance@,
                    ts_ms,
                    receipt_is_new(old(self).carry.receipt(), receipt(tree)),
                ),
                Err(_) => Seq::empty(),
            };
            assert(Seq::<SampleView>::empty() + from_metrics =~= from_metrics);
            assert(from_metrics + Seq::<SampleView>::empty() =~= from_metrics);
            assert(engine == engine_part(
                scrape_view(*metrics),
                snapshot_view(*snapshot),
                old(self).carry.completion_tokens,
                old(self).carry.receipt(),
                instance@,
                ts_ms,
            ));
            assert(engine + agents_part(all.take(0), instance@, ts_ms) =~= engine);
            assert(engine_lines + agents_lines(old(self).agents@, all.take(0)) =~= engine_lines);
        }
        for i in 0..agents.len()
            invariant
                all == bodies(agents@),
                forall|j: int|
                    0 <= j < agents@.len() ==> scrape_wf((#[trigger] agents@[j]).outcome),
                self.agents@.len() == agents@.len(),
                old(self).agents@.len() == agents@.len(),
                self.metrics.up == Some(metrics is Ok),
                self.snapshot.up == Some(snapshot is Ok),
                self.carry.completion_tokens == match scrape_view(*metrics) {
                    Ok(scrape) => newer(old(self).carry.completion_tokens, completions(scrape)),
                    Err(_) => old(self).carry.completion_tokens,
                },
                self.carry.receipt() == match snapshot_view(*snapshot) {
                    Ok(tree) => newer(old(self).carry.receipt(), receipt(tree)),
                    Err(_) => old(self).carry.receipt(),
                },
                forall|j: int|
                    0 <= j < i ==> #[trigger] self.agents@[j] == agent_health(
                        old(self).agents@[j],
                        agents@[j]@,
                    ),
                forall|j: int|
                    i <= j < agents@.len() ==> #[trigger] self.agents@[j] == old(self).agents@[j],
                states@.len() == i,
                forall|j: int| 0 <= j < i ==> #[trigger] states@[j] == reached(all[j]),
                batch_view(batch@) == engine + agents_part(
                    all.take(i as int),
                    instance@,
                    ts_ms,
                ),
                lines.deep_view() == engine_lines + agents_lines(
                    old(self).agents@,
                    all.take(i as int),
                ),
        {
            let mut health = self.agents[i];
            let state = collect_agent_tick(
                &agents[i],
                &mut health,
                instance,
                ts_ms,
                &mut batch,
                &mut lines,
            );
            self.agents.set(i, health);
            states.push(state);
            proof {
                let next = all.take(i + 1);
                assert(next.drop_last() =~= all.take(i as int));
                assert(next.last() == agents@[i as int]@);
                assert(batch_view(batch@) =~= engine + agents_part(next, instance@, ts_ms));
                assert(lines.deep_view() =~= engine_lines + agents_lines(
                    old(self).agents@,
                    next,
                ));
            }
        }
        proof {
            assert(all.take(all.len() as int) =~= all);
            assert(states@ =~= all.map_values(|agent: AgentBodyView| reached(agent)));
        }
        Tick { batch, states, lines }
    }
}

/// The halves that a list of agents brought.
pub open spec fn bodies(agents: Seq<AgentBody>) -> Seq<AgentBodyView> {
    Seq::new(agents.len(), |i: int| agents[i]@)
}

// ---------------------------------------------------------------------------
// Laws

proof fn lemma_gathered(
    series: Seq<SeriesView>,
    pick: spec_fn(SeriesView) -> Option<SampleView>,
    k: int,
) -> (i: int)
    requires
        0 <= k < gathered(series, pick).len(),
    ensures
        0 <= i < series.len(),
        pick(series[i]) == Some(gathered(series, pick)[k]),
    decreases series.len(),
{
    let head = gathered(series.drop_last(), pick);
    if k < head.len() {
        let i = lemma_gathered(series.drop_last(), pick, k);
        assert(series.drop_last()[i] == series[i]);
        i
    } else {
        series.len() - 1
    }
}

proof fn lemma_of_source(series: Seq<SeriesView>, source: Source, k: int) -> (i: int)
    requires
        0 <= k < of_source(series, source).len(),
    ensures
        0 <= i < series.len(),
        series[i] == of_source(series, source)[k],
        series[i].source == source,
    decreases series.len(),
{
    let head = of_source(series.drop_last(), source);
    if k < head.len() {
        let i = lemma_of_source(series.drop_last(), source, k);
        assert(series.drop_last()[i] == series[i]);
        i
    } else {
        series.len() - 1
    }
}

/// Every number an agent brings is stored under the instance and the tick's
/// timestamp as `agent` and `agent-measured`, is finite, and belongs to a
/// catalog series: it can never present itself as measured by the engine.
pub proof fn law_agent_samples_are_agent_measured(
    scrape: ScrapeView,
    instance: Seq<char>,
    ts_ms: i64,
    k: int,
)
    requires
        0 <= k < agent_samples(scrape, instance, ts_ms).len(),
    ensures
        ({
            let sample = agent_samples(scrape, instance, ts_ms)[k];
            &&& sample.source == Source::Agent
            &&& sample.honesty == Honesty::AgentMeasured
            &&& sample.instance == instance
            &&& sample.ts_ms == ts_ms
            &&& sample.value.finite()
            &&& exists|i: int|
                0 <= i < catalog().len() && (#[trigger] catalog()[i]).name == sample.series
        }),
{
    let list = of_source(catalog(), Source::Agent);
    let pick = |series: SeriesView| agent_sample(series, scrape, instance, ts_ms);
    let j = lemma_gathered(list, pick, k);
    let i = lemma_of_source(catalog(), Source::Agent, j);
    assert(catalog()[i].name == agent_samples(scrape, instance, ts_ms)[k].series);
}

/// Every number of the exposition is stored as `metrics` and `measured`, is
/// finite, and belongs to a catalog series.
pub proof fn law_metrics_samples_are_measured(
    scrape: ScrapeView,
    instance: Seq<char>,
    ts_ms: i64,
    fresh: bool,
    k: int,
)
    requires
        0 <= k < metrics_samples(scrape, instance, ts_ms, fresh).len(),
    ensures
        ({
            let sample = metrics_samples(scrape, instance, ts_ms, fresh)[k];
            &&& sample.source == Source::Metrics
            &&& sample.honesty == Honesty::Measured
            &&& sample.instance == instance
            &&& sample.ts_ms == ts_ms
            &&& sample.value.finite()
            &&& sample.series == "request_decode_tok_s"@ ==> fresh
            &&& exists|i: int|
                0 <= i < catalog().len() && (#[trigger] catalog()[i]).name == sample.series
        }),
{
    let list = of_source(catalog(), Source::Metrics);
    let pick = |series: SeriesView| metrics_sample(series, scrape, instance, ts_ms, fresh);
    let j = lemma_gathered(list, pick, k);
    let i = lemma_of_source(catalog(), Source::Metrics, j);
    assert(catalog()[i].name == metrics_samples(scrape, instance, ts_ms, fresh)[k].series);
}

/// Every number of the snapshot is stored under the honesty that the sidecar
/// gives its path; a path without one, a `mock` path among them, stores
/// nothing. A receipt that is not news stores nothing either.
pub proof fn law_snapshot_samples_are_honest(
    snapshot: Tree,
    instance: Seq<char>,
    ts_ms: i64,
    fresh: bool,
    k: int,
)
    requires
        0 <= k < snapshot_samples(snapshot, instance, ts_ms, fresh).len(),
    ensures
        ({
            let sample = snapshot_samples(snapshot, instance, ts_ms, fresh)[k];
            &&& sample.source == Source::Snapshot
            &&& sample.instance == instance
            &&& sample.ts_ms == ts_ms
            &&& sample.value.finite()
            &&& exists|i: int|
                0 <= i < catalog().len() && (#[trigger] catalog()[i]).name == sample.series && (
                catalog()[i].honesty_path matches Some(path) && honesty_of(snapshot, path) == Some(
                    sample.honesty,
                )) && (catalog()[i].extraction is TransferLast ==> fresh)
        }),
{
    let list = of_source(catalog(), Source::Snapshot);
    let pick = |series: SeriesView| snapshot_sample(series, snapshot, instance, ts_ms, fresh);
    let j = lemma_gathered(list, pick, k);
    let i = lemma_of_source(catalog(), Source::Snapshot, j);
    let sample = snapshot_samples(snapshot, instance, ts_ms, fresh)[k];
    assert(catalog()[i].name == sample.series);
}

/// A path that its sidecar tags `mock` has no honesty.
pub proof fn law_mock_is_never_honest(snapshot: Tree, path: Seq<char>)
    requires
        snapshot.member("_honesty"@) matches Some(sidecar) && sidecar.at(pieces(path, '.'))
            == Some(Tree::Text("mock"@)),
    ensures
        honesty_of(snapshot, path) is None,
{
    let segments = pieces(path, '.');
    lemma_pieces_nonempty(path, '.');
    assert(segments.take(segments.len() as int) =~= segments);
    crate::history::catalog::law_honesty_tag_round_trips(Honesty::Measured, "mock"@);
}

/// An instance that answered neither document records nothing, and one whose
/// agents did not answer either records nothing at all: a gap stays a gap.
pub proof fn law_silence_records_nothing(
    metrics: Seq<char>,
    snapshot: Seq<char>,
    tokens: Option<u64>,
    last: Option<Tree>,
    agents: Seq<AgentBodyView>,
    instance: Seq<char>,
    ts_ms: i64,
)
    requires
        forall|i: int| 0 <= i < agents.len() ==> (#[trigger] agents[i]).outcome is Err,
    ensures
        engine_part(Err(metrics), Err(snapshot), tokens, last, instance, ts_ms).len() == 0,
        agents_part(agents, instance, ts_ms).len() == 0,
    decreases agents.len(),
{
    assert(Seq::<SampleView>::empty() + Seq::<SampleView>::empty() =~= Seq::empty());
    assert(without_dflash(Seq::empty()) =~= Seq::empty());
    if agents.len() > 0 {
        let head = agents.drop_last();
        assert forall|i: int| 0 <= i < head.len() implies (#[trigger] head[i]).outcome is Err by {
            assert(head[i] == agents[i]);
        }
        law_silence_records_nothing(metrics, snapshot, tokens, last, head, instance, ts_ms);
        assert(agents.last() == agents[agents.len() - 1]);
    }
}

/// What one agent did says nothing of the engine's samples: an agent can only
/// add to a tick.
pub proof fn law_unreachable_agent_leaves_the_rest(
    agents: Seq<AgentBodyView>,
    agent: AgentBodyView,
    instance: Seq<char>,
    ts_ms: i64,
)
    requires
        agent.outcome is Err,
    ensures
        agents_part(agents.push(agent), instance, ts_ms) == agents_part(agents, instance, ts_ms),
{
    assert(agents.push(agent).drop_last() =~= agents);
}

/// Without the marker of a DFlash runtime no DFlash series survives, and no
/// other sample is lost.
pub proof fn law_gate_drops_exactly_dflash(batch: Seq<SampleView>, sample: SampleView)
    ensures
        without_dflash(batch).contains(sample) <==> batch.contains(sample) && !starts(
            sample.series,
            "dflash_"@,
        ),
    decreases batch.len(),
{
    if batch.len() > 0 {
        let head = batch.drop_last();
        law_gate_drops_exactly_dflash(head, sample);
        let kept = without_dflash(head);
        assert(batch =~= head.push(batch.last()));
        assert(batch.contains(sample) <==> head.contains(sample) || batch.last() == sample) by {
            if head.contains(sample) {
                let i = choose|i: int| 0 <= i < head.len() && head[i] == sample;
                assert(batch[i] == sample);
            }
            if batch.last() == sample {
                assert(batch[batch.len() - 1] == sample);
            }
        }
        assert(kept.push(batch.last()).contains(sample) <==> kept.contains(sample) || batch.last()
            == sample) by {
            let pushed = kept.push(batch.last());
            if kept.contains(sample) {
                let i = choose|i: int| 0 <= i < kept.len() && kept[i] == sample;
                assert(pushed[i] == sample);
            }
            if batch.last() == sample {
                assert(pushed[kept.len() as int] == sample);
            }
        }
    }
}

/// The same documents a tick later are no news: the completion counter has
/// not moved and the receipt is the one last seen.
pub proof fn law_latches_are_recorded_once(scrape: ScrapeView, snapshot: Tree, tokens: Option<u64>, last: Option<Tree>)
    ensures
        !completed(newer(tokens, completions(scrape)), completions(scrape)),
        !receipt_is_new(newer(last, receipt(snapshot)), receipt(snapshot)),
{
}

/// Samples a tick later, without those of the last transfer: the same values
/// and tags under the new timestamp.
pub open spec fn repeated(samples: Seq<SampleView>, ts_ms: i64) -> Seq<SampleView>
    decreases samples.len(),
{
    if samples.len() == 0 {
        Seq::empty()
    } else {
        let head = repeated(samples.drop_last(), ts_ms);
        let last = samples.last();
        if names_receipt(last.series) {
            head
        } else {
            head.push(SampleView { ts_ms, ..last })
        }
    }
}

proof fn lemma_repeated(
    series: Seq<SeriesView>,
    snapshot: Tree,
    instance: Seq<char>,
    earlier: i64,
    later: i64,
    fresh: bool,
)
    requires
        forall|i: int|
            0 <= i < series.len() ==> (names_receipt((#[trigger] series[i]).name)
                <==> series[i].extraction is TransferLast),
    ensures
        gathered(
            series,
            |entry: SeriesView| snapshot_sample(entry, snapshot, instance, later, false),
        ) == repeated(
            gathered(
                series,
                |entry: SeriesView| snapshot_sample(entry, snapshot, instance, earlier, fresh),
            ),
            later,
        ),
    decreases series.len(),
{
    if series.len() > 0 {
        let head = series.drop_last();
        let entry = series[series.len() - 1];
        let pick = |entry: SeriesView|
            snapshot_sample(entry, snapshot, instance, earlier, fresh);
        assert forall|i: int| 0 <= i < head.len() implies (names_receipt(
            (#[trigger] head[i]).name,
        ) <==> head[i].extraction is TransferLast) by {
            assert(head[i] == series[i]);
        }
        lemma_repeated(head, snapshot, instance, earlier, later, fresh);
        let before = gathered(head, pick);
        if let Some(sample) = pick(entry) {
            assert(before.push(sample).drop_last() =~= before);
        }
    }
}

/// The same snapshot a tick later records everything again but the last
/// transfer: the same values and tags, under the later timestamp.
pub proof fn law_a_repeated_snapshot_records_no_transfer(
    snapshot: Tree,
    instance: Seq<char>,
    last: Option<Tree>,
    earlier: i64,
    later: i64,
)
    ensures
        ({
            let first = snapshot_samples(
                snapshot,
                instance,
                earlier,
                receipt_is_new(last, receipt(snapshot)),
            );
            let second = snapshot_samples(
                snapshot,
                instance,
                later,
                receipt_is_new(newer(last, receipt(snapshot)), receipt(snapshot)),
            );
            &&& second == repeated(first, later)
            &&& forall|k: int|
                0 <= k < second.len() ==> !names_receipt((#[trigger] second[k]).series)
                    && second[k].ts_ms == later
        }),
{
    let list = of_source(catalog(), Source::Snapshot);
    let fresh = receipt_is_new(last, receipt(snapshot));
    assert forall|k: int| 0 <= k < list.len() implies (names_receipt((#[trigger] list[k]).name)
        <==> list[k].extraction is TransferLast) by {
        let i = lemma_of_source(catalog(), Source::Snapshot, k);
        law_receipt_series_are_named_so(i);
    }
    lemma_repeated(list, snapshot, instance, earlier, later, fresh);
    let second = snapshot_samples(snapshot, instance, later, false);
    let pick = |series: SeriesView| snapshot_sample(series, snapshot, instance, later, false);
    assert forall|k: int| 0 <= k < second.len() implies !names_receipt(
        (#[trigger] second[k]).series,
    ) && second[k].ts_ms == later by {
        let j = lemma_gathered(list, pick, k);
        assert(pick(list[j]) == Some(second[k]));
    }
}

/// An upstream that stays down is logged once, and so is its return: the same
/// outcome again is worth no line.
pub proof fn law_logged_once_per_change(
    up: Option<bool>,
    subject: Seq<char>,
    what: Seq<char>,
    first: Result<(), Seq<char>>,
    again: Result<(), Seq<char>>,
)
    requires
        first is Ok <==> again is Ok,
    ensures
        health_line(Some(first is Ok), subject, what, again) is None,
        health_line(None, subject, what, Ok(())) is None,
{
}

/// No request to an agent carries a credential, whatever the configuration.
pub proof fn law_agents_are_sent_no_credential(
    headers: Seq<Header>,
    authority: Seq<char>,
    i: int,
)
    requires
        fetches(headers, authority, None),
        0 <= i < headers.len(),
    ensures
        headers[i].name@ != "authorization"@,
        headers[i].name@ != "cookie"@,
        headers[i].name@ != "x-csrf-token"@,
{
    reveal_strlit("host");
    reveal_strlit("accept-encoding");
    reveal_strlit("authorization");
    reveal_strlit("cookie");
    assert("host"@.len() == 4);
    assert("accept-encoding"@.len() == 15);
    assert("authorization"@.len() == 13);
    assert("cookie"@.len() == 6);
    reveal_strlit("x-csrf-token");
    assert("x-csrf-token"@.len() == 12);
}

/// An exporter that says that its own source is down is live and records
/// nothing, whatever else it publishes.
pub proof fn law_disclaimed_readings_are_not_recorded(
    agent: AgentBodyView,
    instance: Seq<char>,
    ts_ms: i64,
)
    requires
        agent.outcome matches Ok(scrape) && says_down(scrape),
    ensures
        agent_part(agent, instance, ts_ms).len() == 0,
        reached(agent) == AgentState::Live,
{
}

/// Whether a sample stands under this instance and this time, with a finite
/// number.
pub open spec fn stamped(sample: SampleView, instance: Seq<char>, ts_ms: i64) -> bool {
    sample.instance == instance && sample.ts_ms == ts_ms && sample.value.finite()
}

proof fn lemma_agents_stamped(
    agents: Seq<AgentBodyView>,
    instance: Seq<char>,
    ts_ms: i64,
    sample: SampleView,
)
    requires
        agents_part(agents, instance, ts_ms).contains(sample),
    ensures
        stamped(sample, instance, ts_ms),
    decreases agents.len(),
{
    let head = agents_part(agents.drop_last(), instance, ts_ms);
    let tail = agent_part(agents.last(), instance, ts_ms);
    let k = choose|k: int| 0 <= k < (head + tail).len() && (head + tail)[k] == sample;
    if k < head.len() {
        assert(head[k] == sample);
        lemma_agents_stamped(agents.drop_last(), instance, ts_ms, sample);
    } else {
        assert(tail[k - head.len()] == sample);
        if let Ok(scrape) = agents.last().outcome {
            law_agent_samples_are_agent_measured(scrape, instance, ts_ms, k - head.len());
        }
    }
}

/// Everything that a tick records, from the engine and from its agents, stands
/// under the instance and the one timestamp of the tick, with a finite number.
pub proof fn law_ticks_share_one_timestamp(
    metrics: Result<ScrapeView, Seq<char>>,
    snapshot: Result<Tree, Seq<char>>,
    tokens: Option<u64>,
    last: Option<Tree>,
    agents: Seq<AgentBodyView>,
    instance: Seq<char>,
    ts_ms: i64,
    sample: SampleView,
)
    requires
        (engine_part(metrics, snapshot, tokens, last, instance, ts_ms) + agents_part(
            agents,
            instance,
            ts_ms,
        )).contains(sample),
    ensures
        stamped(sample, instance, ts_ms),
{
    let engine = engine_part(metrics, snapshot, tokens, last, instance, ts_ms);
    let rest = agents_part(agents, instance, ts_ms);
    let k = choose|k: int| 0 <= k < (engine + rest).len() && (engine + rest)[k] == sample;
    if k >= engine.len() {
        assert(rest[k - engine.len()] == sample);
        lemma_agents_stamped(agents, instance, ts_ms, sample);
    } else {
        assert(engine[k] == sample);
        let from_metrics = match metrics {
            Ok(scrape) => metrics_samples(
                scrape,
                instance,
                ts_ms,
                completed(tokens, completions(scrape)),
            ),
            Err(_) => Seq::empty(),
        };
        let from_snapshot = match snapshot {
            Ok(tree) => snapshot_samples(
                tree,
                instance,
                ts_ms,
                receipt_is_new(last, receipt(tree)),
            ),
            Err(_) => Seq::empty(),
        };
        let whole = from_metrics + from_snapshot;
        law_gate_drops_exactly_dflash(whole, sample);
        assert(engine == whole || engine == without_dflash(whole));
        assert(whole.contains(sample));
        let j = choose|j: int| 0 <= j < whole.len() && whole[j] == sample;
        if j < from_metrics.len() {
            assert(from_metrics[j] == sample);
            if let Ok(scrape) = metrics {
                law_metrics_samples_are_measured(
                    scrape,
                    instance,
                    ts_ms,
                    completed(tokens, completions(scrape)),
                    j,
                );
            }
        } else {
            let i = j - from_metrics.len();
            assert(from_snapshot[i] == sample);
            if let Ok(tree) = snapshot {
                law_snapshot_samples_are_honest(
                    tree,
                    instance,
                    ts_ms,
                    receipt_is_new(last, receipt(tree)),
                    i,
                );
            }
        }
    }
}

// ---------------------------------------------------------------------------
// What a tick tells of each series

/// Whether the samples of a tick tell this number of a series and no other:
/// there is one where there is a number, and none where there is none.
pub open spec fn tells(samples: Seq<SampleView>, name: Seq<char>, number: Option<Quantity>) -> bool {
    &&& forall|k: int|
        0 <= k < samples.len() && (#[trigger] samples[k]).series == name ==> number == Some(
            samples[k].value,
        )
    &&& number is Some ==> exists|k: int|
        0 <= k < samples.len() && (#[trigger] samples[k]).series == name
}

/// A source's entries hold every catalog entry of that source.
proof fn lemma_source_has(series: Seq<SeriesView>, source: Source, i: int) -> (k: int)
    requires
        0 <= i < series.len(),
        series[i].source == source,
    ensures
        0 <= k < of_source(series, source).len(),
        of_source(series, source)[k] == series[i],
    decreases series.len(),
{
    let head = series.drop_last();
    if i < head.len() {
        assert(head[i] == series[i]);
        let k = lemma_source_has(head, source, i);
        assert(of_source(series, source)[k] == of_source(head, source)[k]);
        k
    } else {
        of_source(head, source).len() as int
    }
}

/// What is picked of an entry is gathered.
proof fn lemma_gathered_has(
    series: Seq<SeriesView>,
    pick: spec_fn(SeriesView) -> Option<SampleView>,
    i: int,
) -> (k: int)
    requires
        0 <= i < series.len(),
        pick(series[i]) is Some,
    ensures
        0 <= k < gathered(series, pick).len(),
        Some(gathered(series, pick)[k]) == pick(series[i]),
    decreases series.len(),
{
    let head = series.drop_last();
    if i < head.len() {
        assert(head[i] == series[i]);
        let k = lemma_gathered_has(head, pick, i);
        assert(gathered(series, pick)[k] == gathered(head, pick)[k]);
        k
    } else {
        gathered(head, pick).len() as int
    }
}

/// What is gathered of a source tells of each series what was picked of it.
proof fn lemma_tells(source: Source, pick: spec_fn(SeriesView) -> Option<SampleView>, i: int)
    requires
        0 <= i < series_count(),
        catalog()[i].source == source,
        forall|entry: SeriesView|
            (#[trigger] pick(entry)) matches Some(sample) ==> sample.series == entry.name,
    ensures
        tells(
            gathered(of_source(catalog(), source), pick),
            catalog()[i].name,
            match pick(catalog()[i]) {
                Some(sample) => Some(sample.value),
                None => None,
            },
        ),
{
    let list = of_source(catalog(), source);
    let samples = gathered(list, pick);
    let entry = catalog()[i];
    assert forall|k: int| 0 <= k < samples.len() && (#[trigger] samples[k]).series
        == entry.name implies pick(entry) == Some(samples[k]) by {
        let j = lemma_gathered(list, pick, k);
        let m = lemma_of_source(catalog(), source, j);
        assert(pick(list[j]) matches Some(sample) ==> sample.series == list[j].name);
        if m < i {
            law_names_are_unique(m, i);
        } else if i < m {
            law_names_are_unique(i, m);
        }
    }
    if pick(entry) is Some {
        let j = lemma_source_has(catalog(), source, i);
        let k = lemma_gathered_has(list, pick, j);
        assert(samples[k].series == entry.name);
    }
}

/// A series of the engine's exposition tells the finite number on the first
/// line of its metric, or of the quantile it selects, and nothing where the
/// exposition has no such line or the number is not finite. The rate of the
/// last request is told only on the tick after a request completed.
pub proof fn law_engine_series_tell_their_line(
    scrape: ScrapeView,
    instance: Seq<char>,
    ts_ms: i64,
    fresh: bool,
    i: int,
    p: int,
)
    requires
        0 <= i < series_count(),
        catalog()[i].source == Source::Metrics,
    ensures
        catalog()[i].extraction matches ExtractionView::Prometheus { metric, quantile } && {
            let label = match quantile {
                Some(q) => Some(("quantile"@, q)),
                None => None,
            };
            let samples = metrics_samples(scrape, instance, ts_ms, fresh);
            let name = catalog()[i].name;
            &&& leads(scrape.lines, p, metric, label) && is_finite(scrape.numbers[p]) && (name
                != "request_decode_tok_s"@ || fresh) ==> tells(
                samples,
                name,
                Some(Quantity::Double(scrape.numbers[p])),
            )
            &&& leads(scrape.lines, p, metric, label) && !is_finite(scrape.numbers[p]) ==> tells(
                samples,
                name,
                None,
            )
            &&& (forall|j: int|
                0 <= j < scrape.lines.len() ==> !bears(#[trigger] scrape.lines[j], metric, label))
                ==> tells(samples, name, None)
            &&& name == "request_decode_tok_s"@ && !fresh ==> tells(samples, name, None)
        },
{
    law_entries_match_their_source(i);
    let pick = |series: SeriesView| metrics_sample(series, scrape, instance, ts_ms, fresh);
    lemma_tells(Source::Metrics, pick, i);
    if let ExtractionView::Prometheus { metric, quantile } = catalog()[i].extraction {
        let label = match quantile {
            Some(q) => Some(("quantile"@, q)),
            None => None,
        };
        law_the_first_line_is_read(scrape.lines, metric, label, p);
    }
}

/// The two quantiles of a metric do not change places: over a document with
/// both, the series that ends in `_p50` tells the number of the line labelled
/// `0.50`, and the one that ends in `_p95` that of the line labelled `0.95`.
pub proof fn law_quantiles_are_told_under_their_names(
    scrape: ScrapeView,
    instance: Seq<char>,
    ts_ms: i64,
    fresh: bool,
    median: int,
    tail: int,
)
    requires
        is_finite(scrape.numbers[median]),
        is_finite(scrape.numbers[tail]),
    ensures
        ({
            let samples = metrics_samples(scrape, instance, ts_ms, fresh);
            let at_median = Some(Quantity::Double(scrape.numbers[median]));
            let at_tail = Some(Quantity::Double(scrape.numbers[tail]));
            let half = Some(("quantile"@, "0.50"@));
            let most = Some(("quantile"@, "0.95"@));
            &&& leads(scrape.lines, median, "muser_itl_milliseconds"@, half) ==> tells(
                samples,
                "itl_ms_p50"@,
                at_median,
            )
            &&& leads(scrape.lines, tail, "muser_itl_milliseconds"@, most) ==> tells(
                samples,
                "itl_ms_p95"@,
                at_tail,
            )
            &&& leads(scrape.lines, median, "muser_ttft_milliseconds"@, half) ==> tells(
                samples,
                "ttft_ms_p50"@,
                at_median,
            )
            &&& leads(scrape.lines, tail, "muser_ttft_milliseconds"@, most) ==> tells(
                samples,
                "ttft_ms_p95"@,
                at_tail,
            )
        }),
{
    lemma_latencies();
    law_engine_series_tell_their_line(scrape, instance, ts_ms, fresh, 5, median);
    law_engine_series_tell_their_line(scrape, instance, ts_ms, fresh, 6, tail);
    law_engine_series_tell_their_line(scrape, instance, ts_ms, fresh, 7, median);
    law_engine_series_tell_their_line(scrape, instance, ts_ms, fresh, 8, tail);
}

/// The latency series: where they stand, and that none of them is the rate of
/// the last request.
proof fn lemma_latencies()
    ensures
        catalog()[5].name == "ttft_ms_p50"@,
        catalog()[6].name == "ttft_ms_p95"@,
        catalog()[7].name == "itl_ms_p50"@,
        catalog()[8].name == "itl_ms_p95"@,
        forall|i: int|
            5 <= i < 9 ==> (#[trigger] catalog()[i]).name != "request_decode_tok_s"@
                && catalog()[i].source == Source::Metrics,
{
    reveal_strlit("ttft_ms_p50");
    reveal_strlit("ttft_ms_p95");
    reveal_strlit("itl_ms_p50");
    reveal_strlit("itl_ms_p95");
    reveal_strlit("request_decode_tok_s");
    assert("request_decode_tok_s"@.len() == 20);
    assert(catalog()[5].name == "ttft_ms_p50"@);
    assert(catalog()[6].name == "ttft_ms_p95"@);
    assert(catalog()[7].name == "itl_ms_p50"@);
    assert(catalog()[8].name == "itl_ms_p95"@);
}

/// Throughput, queue and counters of the exposition are told from the metrics
/// they are named for, the decoding rate from the traffic of the last ten
/// seconds.
pub proof fn law_engine_metrics_are_told_under_their_names(
    scrape: ScrapeView,
    instance: Seq<char>,
    ts_ms: i64,
    fresh: bool,
    p: int,
)
    requires
        is_finite(scrape.numbers[p]),
    ensures
        ({
            let samples = metrics_samples(scrape, instance, ts_ms, fresh);
            let number = Some(Quantity::Double(scrape.numbers[p]));
            let lines = scrape.lines;
            &&& leads(lines, p, "completion_traffic_tok_s_10s"@, None) ==> tells(
                samples,
                "decode_tok_s"@,
                number,
            )
            &&& leads(lines, p, "muser_request_decode_tok_s"@, None) && fresh ==> tells(
                samples,
                "request_decode_tok_s"@,
                number,
            )
            &&& leads(lines, p, "muser_queue_depth"@, None) ==> tells(
                samples,
                "queue_depth"@,
                number,
            )
            &&& leads(lines, p, "muser_overload_rejections_total"@, None) ==> tells(
                samples,
                "overload_rejections_total"@,
                number,
            )
            &&& leads(lines, p, "muser_completion_tokens_total"@, None) ==> tells(
                samples,
                "completion_tokens_total"@,
                number,
            )
            &&& leads(lines, p, "muser_dflash_acceptance_ratio"@, None) ==> tells(
                samples,
                "dflash_accept_rate"@,
                number,
            )
            &&& !fresh ==> tells(samples, "request_decode_tok_s"@, None)
        }),
{
    reveal_strlit("decode_tok_s");
    reveal_strlit("queue_depth");
    reveal_strlit("overload_rejections_total");
    reveal_strlit("completion_tokens_total");
    reveal_strlit("dflash_accept_rate");
    reveal_strlit("request_decode_tok_s");
    assert("request_decode_tok_s"@.len() == 20);
    assert(catalog()[0].name == "decode_tok_s"@);
    assert(catalog()[1].name == "request_decode_tok_s"@);
    assert(catalog()[2].name == "queue_depth"@);
    assert(catalog()[3].name == "overload_rejections_total"@);
    assert(catalog()[4].name == "completion_tokens_total"@);
    assert(catalog()[9].name == "dflash_accept_rate"@);
    law_engine_series_tell_their_line(scrape, instance, ts_ms, fresh, 0, p);
    law_engine_series_tell_their_line(scrape, instance, ts_ms, fresh, 1, p);
    law_engine_series_tell_their_line(scrape, instance, ts_ms, fresh, 2, p);
    law_engine_series_tell_their_line(scrape, instance, ts_ms, fresh, 3, p);
    law_engine_series_tell_their_line(scrape, instance, ts_ms, fresh, 4, p);
    law_engine_series_tell_their_line(scrape, instance, ts_ms, fresh, 9, p);
}

/// A request completed since the last tick exactly where both ticks saw the
/// completion counter and it grew: the counter is the number on the first line
/// of `muser_completion_tokens_total`, and one that stands still, falls back or
/// is seen for the first time says nothing.
pub proof fn law_a_grown_counter_is_a_completion(
    previous: Option<u64>,
    scrape: ScrapeView,
    p: int,
)
    requires
        leads(scrape.lines, p, "muser_completion_tokens_total"@, None),
        scrape.numbers[p] < 0x7ff0_0000_0000_0000,
        previous matches Some(bits) ==> bits < 0x7ff0_0000_0000_0000,
    ensures
        completed(previous, completions(scrape)) <==> (previous matches Some(bits) && bits
            < scrape.numbers[p]),
        newer(previous, completions(scrape)) == Some(scrape.numbers[p]),
{
    law_the_first_line_is_read(scrape.lines, "muser_completion_tokens_total"@, None, p);
    if let Some(bits) = previous {
        law_doubles_compare_as_numbers(scrape.numbers[p], bits);
    }
}

/// An agent that does not disclaim its readings tells of each device and of
/// the host the finite number on the first line of the metric, for a device on
/// the first that bears the device's label; a device without a line is told
/// nothing of.
pub proof fn law_agent_series_tell_their_line(
    scrape: ScrapeView,
    instance: Seq<char>,
    ts_ms: i64,
    i: int,
    p: int,
    up: int,
)
    requires
        0 <= i < series_count(),
        catalog()[i].source == Source::Agent,
        leads(scrape.lines, up, "muser_agent_up"@, None) && scrape.numbers[up] != 0
            && scrape.numbers[up] != 0x8000_0000_0000_0000 || forall|j: int|
            0 <= j < scrape.lines.len() ==> (#[trigger] scrape.lines[j]).metric
                != "muser_agent_up"@,
    ensures
        catalog()[i].extraction matches ExtractionView::Agent { metric, gpu } && {
            let label = match gpu {
                Some(index) => Some(("gpu"@, index)),
                None => None,
            };
            let samples = agent_samples(scrape, instance, ts_ms);
            let name = catalog()[i].name;
            &&& leads(scrape.lines, p, metric, label) && is_finite(scrape.numbers[p]) ==> tells(
                samples,
                name,
                Some(Quantity::Double(scrape.numbers[p])),
            )
            &&& leads(scrape.lines, p, metric, label) && !is_finite(scrape.numbers[p]) ==> tells(
                samples,
                name,
                None,
            )
            &&& (forall|j: int|
                0 <= j < scrape.lines.len() ==> !bears(#[trigger] scrape.lines[j], metric, label))
                ==> tells(samples, name, None)
        },
{
    law_entries_match_their_source(i);
    let pick = |series: SeriesView| agent_sample(series, scrape, instance, ts_ms);
    lemma_tells(Source::Agent, pick, i);
    law_the_first_line_is_read(scrape.lines, "muser_agent_up"@, None, up);
    if let ExtractionView::Agent { metric, gpu } = catalog()[i].extraction {
        let label = match gpu {
            Some(index) => Some(("gpu"@, index)),
            None => None,
        };
        law_the_first_line_is_read(scrape.lines, metric, label, p);
    }
}

/// An agent whose `muser_agent_up` is zero, of either sign, records nothing.
pub proof fn law_a_down_agent_records_nothing(
    scrape: ScrapeView,
    instance: Seq<char>,
    ts_ms: i64,
    up: int,
)
    requires
        leads(scrape.lines, up, "muser_agent_up"@, None),
        scrape.numbers[up] == 0 || scrape.numbers[up] == 0x8000_0000_0000_0000,
    ensures
        agent_samples(scrape, instance, ts_ms).len() == 0,
{
    law_the_first_line_is_read(scrape.lines, "muser_agent_up"@, None, up);
}

/// Devices are counted by their labels, each once: a label counts exactly
/// where some line of a device metric bears it.
pub proof fn law_devices_are_counted_once(lines: Seq<LineView>, index: Seq<char>)
    ensures
        gpus(lines).contains(index) <==> exists|j: int|
            0 <= j < lines.len() && starts((#[trigger] lines[j]).metric, "muser_gpu_"@)
                && label_value(lines[j].labels, "gpu"@) == Some(index),
        gpus(lines).no_duplicates(),
        gpus(lines).len() <= lines.len(),
    decreases lines.len(),
{
    if lines.len() > 0 {
        let head = lines.drop_last();
        law_devices_are_counted_once(head, index);
        let seen = gpus(head);
        let last = lines.len() - 1;
        if gpus(lines).contains(index) {
            if seen.contains(index) {
                let j = choose|j: int|
                    0 <= j < head.len() && starts((#[trigger] head[j]).metric, "muser_gpu_"@)
                        && label_value(head[j].labels, "gpu"@) == Some(index);
                assert(lines[j] == head[j]);
            } else {
                assert(gpus(lines) != seen);
                assert(gpus(lines) == seen.push(label_value(lines[last].labels, "gpu"@)->0));
                let k = choose|k: int| 0 <= k < gpus(lines).len() && gpus(lines)[k] == index;
                assert(k == seen.len()) by {
                    if k < seen.len() {
                        assert(seen[k] == index);
                    }
                }
                assert(label_value(lines[last].labels, "gpu"@) == Some(index));
            }
        }
        if exists|j: int|
            0 <= j < lines.len() && starts((#[trigger] lines[j]).metric, "muser_gpu_"@)
                && label_value(lines[j].labels, "gpu"@) == Some(index) {
            let j = choose|j: int|
                0 <= j < lines.len() && starts((#[trigger] lines[j]).metric, "muser_gpu_"@)
                    && label_value(lines[j].labels, "gpu"@) == Some(index);
            if j < last {
                assert(head[j] == lines[j]);
                let k = choose|k: int| 0 <= k < seen.len() && seen[k] == index;
                assert(gpus(lines)[k] == index);
            } else if seen.contains(index) {
                assert(gpus(lines) == seen);
            } else {
                assert(gpus(lines) == seen.push(index));
                assert(gpus(lines)[seen.len() as int] == index);
            }
        }
        if let Some(label) = label_value(lines[last].labels, "gpu"@) {
            if !seen.contains(label) {
                law_devices_are_counted_once(head, label);
                assert forall|a: int, b: int| 0 <= a < b < seen.push(label).len() implies seen.push(
                    label,
                )[a] != seen.push(label)[b] by {
                    assert(seen.push(label)[a] == seen[a]);
                    if b < seen.len() {
                        assert(seen.push(label)[b] == seen[b]);
                    }
                }
            }
        }
    }
}

// ---------------------------------------------------------------------------
// What the snapshot tells

/// A path of two names leads to the second member of the first.
proof fn lemma_two_names(tree: Tree, path: Seq<char>, a: Seq<char>, b: Seq<char>)
    requires
        path == a + seq!['.'] + b,
        forall|i: int| 0 <= i < a.len() ==> a[i] != '.',
        forall|i: int| 0 <= i < b.len() ==> b[i] != '.',
    ensures
        pieces(path, '.') == seq![a, b],
        tree.at(pieces(path, '.')) == match tree.member(a) {
            Some(inner) => inner.member(b),
            None => None,
        },
{
    law_pieces_end_at_the_separator(a, '.', b);
    law_pieces_end_at_the_separator(b, '.', b);
    assert(seq![a] + seq![b] =~= seq![a, b]);
    law_chains_go_from_member_to_member(tree, a, b, Seq::empty());
}

/// What a tag says: `measured`, `target` and `agent-measured` are honest,
/// every other tag is not.
pub open spec fn says(tag: Seq<char>) -> Option<Honesty> {
    if tag == "measured"@ {
        Some(Honesty::Measured)
    } else if tag == "target"@ {
        Some(Honesty::Target)
    } else if tag == "agent-measured"@ {
        Some(Honesty::AgentMeasured)
    } else {
        None
    }
}

/// A tag of one name speaks for it. Without one there is no honesty, but for a
/// name that starts with an underscore, which is measured.
pub proof fn law_a_tag_speaks_for_its_name(snapshot: Tree, a: Seq<char>)
    requires
        a.len() > 0,
        forall|i: int| 0 <= i < a.len() ==> a[i] != '.',
    ensures
        ({
            let tag = match snapshot.member("_honesty"@) {
                Some(sidecar) => sidecar.member(a),
                None => None,
            };
            &&& tag matches Some(Tree::Text(text)) ==> honesty_of(snapshot, a) == says(text)
            &&& !(tag matches Some(Tree::Text(_))) ==> honesty_of(snapshot, a) == if a[0] == '_' {
                Some(Honesty::Measured)
            } else {
                None
            }
        }),
{
    law_pieces_end_at_the_separator(a, '.', a);
    let segments = pieces(a, '.');
    assert(segments == seq![a]);
    lemma_underscore(a);
    if let Some(sidecar) = snapshot.member("_honesty"@) {
        assert(segments.take(1) =~= seq![a]);
        law_chains_go_from_member_to_member(sidecar, a, a, Seq::empty());
        reveal_with_fuel(closest_tag, 2);
    }
}

/// A tag of a whole path speaks for it, and where the path has none of its own
/// the tag of its first name does. Without either there is no honesty, but for
/// a path that starts with an underscore, which is measured.
pub proof fn law_the_closest_tag_speaks_for_a_path(snapshot: Tree, a: Seq<char>, b: Seq<char>)
    requires
        a.len() > 0,
        forall|i: int| 0 <= i < a.len() ==> a[i] != '.',
        forall|i: int| 0 <= i < b.len() ==> b[i] != '.',
    ensures
        ({
            let outer = match snapshot.member("_honesty"@) {
                Some(sidecar) => sidecar.member(a),
                None => None,
            };
            let inner = match outer {
                Some(tree) => tree.member(b),
                None => None,
            };
            let honesty = honesty_of(snapshot, a + seq!['.'] + b);
            &&& inner matches Some(Tree::Text(text)) ==> honesty == says(text)
            &&& outer matches Some(Tree::Text(text)) ==> honesty == says(text)
            &&& !(inner matches Some(Tree::Text(_))) && !(outer matches Some(Tree::Text(_)))
                ==> honesty == if a[0] == '_' {
                Some(Honesty::Measured)
            } else {
                None
            }
        }),
{
    let path = a + seq!['.'] + b;
    lemma_two_names(snapshot, path, a, b);
    let segments = pieces(path, '.');
    lemma_underscore(a);
    if let Some(sidecar) = snapshot.member("_honesty"@) {
        assert(segments.take(2) =~= seq![a, b]);
        assert(segments.take(1) =~= seq![a]);
        law_chains_go_from_member_to_member(sidecar, a, b, Seq::empty());
        reveal_with_fuel(closest_tag, 3);
    }
}

proof fn lemma_underscore(a: Seq<char>)
    requires
        a.len() > 0,
    ensures
        starts(a, "_"@) <==> a[0] == '_',
{
    reveal_strlit("_");
    assert("_"@ =~= seq!['_']);
    assert(a.take(1)[0] == a[0]);
    if a[0] == '_' {
        assert(a.take(1) =~= "_"@);
    }
}

/// The number at a member of a member.
pub open spec fn number_at(tree: Tree, a: Seq<char>, b: Seq<char>) -> Option<u64> {
    match tree.member(a) {
        Some(inner) => match inner.member(b) {
            Some(Tree::Number(number)) => Some(number.bits),
            _ => None,
        },
        None => None,
    }
}

/// Whether a series tells the finite number at a member of a member under the
/// honesty of a path, and nothing where there is no number or no honesty.
pub open spec fn reads(
    snapshot: Tree,
    instance: Seq<char>,
    ts_ms: i64,
    fresh: bool,
    name: Seq<char>,
    a: Seq<char>,
    b: Seq<char>,
    honesty: Option<Honesty>,
) -> bool {
    let samples = snapshot_samples(snapshot, instance, ts_ms, fresh);
    &&& tells(
        samples,
        name,
        match (number_at(snapshot, a, b), honesty) {
            (Some(bits), Some(_)) => if is_finite(bits) {
                Some(Quantity::Double(bits))
            } else {
                None
            },
            _ => None,
        },
    )
    &&& forall|k: int|
        0 <= k < samples.len() && (#[trigger] samples[k]).series == name ==> Some(
            samples[k].honesty,
        ) == honesty
}

/// What is picked of a series of the snapshot is what `reads` says.
proof fn lemma_reads(
    snapshot: Tree,
    instance: Seq<char>,
    ts_ms: i64,
    fresh: bool,
    i: int,
    path: Seq<char>,
    a: Seq<char>,
    b: Seq<char>,
    honesty: Seq<char>,
)
    requires
        0 <= i < series_count(),
        catalog()[i].source == Source::Snapshot,
        catalog()[i].extraction == (ExtractionView::Snapshot { path }),
        catalog()[i].honesty_path == Some(honesty),
        path == a + seq!['.'] + b,
        words_to(a, a.len() as int),
        words_to(b, b.len() as int),
    ensures
        reads(
            snapshot,
            instance,
            ts_ms,
            fresh,
            catalog()[i].name,
            a,
            b,
            honesty_of(snapshot, honesty),
        ),
{
    let pick = |series: SeriesView| snapshot_sample(series, snapshot, instance, ts_ms, fresh);
    lemma_words(a, a.len() as int);
    lemma_words(b, b.len() as int);
    lemma_two_names(snapshot, path, a, b);
    lemma_tells(Source::Snapshot, pick, i);
    let list = of_source(catalog(), Source::Snapshot);
    let samples = snapshot_samples(snapshot, instance, ts_ms, fresh);
    let name = catalog()[i].name;
    assert forall|k: int| 0 <= k < samples.len() && (#[trigger] samples[k]).series == name implies Some(
        samples[k].honesty,
    ) == honesty_of(snapshot, honesty) by {
        let j = lemma_gathered(list, pick, k);
        let m = lemma_of_source(catalog(), Source::Snapshot, j);
        if m < i {
            law_names_are_unique(m, i);
        } else if i < m {
            law_names_are_unique(i, m);
        }
    }
}

/// The wire, the speculative decoder, the remote half and the economics of a
/// snapshot are each told from their own member, under the honesty of their own
/// path.
#[verifier::rlimit(60)]
pub proof fn law_snapshot_series_read_their_members(
    snapshot: Tree,
    instance: Seq<char>,
    ts_ms: i64,
    fresh: bool,
)
    ensures
        reads(
            snapshot,
            instance,
            ts_ms,
            fresh,
            "requests_per_s"@,
            "wire"@,
            "requests_per_s"@,
            honesty_of(snapshot, "wire.requests_per_s"@),
        ),
        reads(
            snapshot,
            instance,
            ts_ms,
            fresh,
            "wire_ingress_gbps"@,
            "wire"@,
            "ingress_gbps"@,
            honesty_of(snapshot, "wire.ingress_gbps"@),
        ),
        reads(
            snapshot,
            instance,
            ts_ms,
            fresh,
            "dflash_drafted_total"@,
            "specdec"@,
            "cumulative_drafted"@,
            honesty_of(snapshot, "specdec"@),
        ),
        reads(
            snapshot,
            instance,
            ts_ms,
            fresh,
            "dflash_accepted_total"@,
            "specdec"@,
            "cumulative_accepted"@,
            honesty_of(snapshot, "specdec"@),
        ),
        reads(
            snapshot,
            instance,
            ts_ms,
            fresh,
            "dflash_ane_route_failures_total"@,
            "specdec"@,
            "ane_route_failures"@,
            honesty_of(snapshot, "specdec"@),
        ),
        reads(
            snapshot,
            instance,
            ts_ms,
            fresh,
            "dflash_metal_route_failures_total"@,
            "specdec"@,
            "metal_route_failures"@,
            honesty_of(snapshot, "specdec"@),
        ),
        reads(
            snapshot,
            instance,
            ts_ms,
            fresh,
            "remote_fallbacks_total"@,
            "_remote"@,
            "fallbacks"@,
            honesty_of(snapshot, "_remote"@),
        ),
        reads(
            snapshot,
            instance,
            ts_ms,
            fresh,
            "disagg_prefills_total"@,
            "economics"@,
            "disagg_prefills"@,
            honesty_of(snapshot, "economics.counters"@),
        ),
        reads(
            snapshot,
            instance,
            ts_ms,
            fresh,
            "disagg_bytes_installed_total"@,
            "economics"@,
            "disagg_bytes_installed"@,
            honesty_of(snapshot, "economics.counters"@),
        ),
{
    reveal_with_fuel(words_to, 30);
    reveal_strlit("wire");
    assert(words_to("wire"@, 4));
    reveal_strlit("requests_per_s");
    assert(words_to("requests_per_s"@, 14));
    reveal_strlit("ingress_gbps");
    assert(words_to("ingress_gbps"@, 12));
    reveal_strlit("specdec");
    assert(words_to("specdec"@, 7));
    reveal_strlit("cumulative_drafted");
    assert(words_to("cumulative_drafted"@, 18));
    reveal_strlit("cumulative_accepted");
    assert(words_to("cumulative_accepted"@, 19));
    reveal_strlit("ane_route_failures");
    assert(words_to("ane_route_failures"@, 18));
    reveal_strlit("metal_route_failures");
    assert(words_to("metal_route_failures"@, 20));
    reveal_strlit("_remote");
    assert(words_to("_remote"@, 7));
    reveal_strlit("fallbacks");
    assert(words_to("fallbacks"@, 9));
    reveal_strlit("economics");
    assert(words_to("economics"@, 9));
    reveal_strlit("disagg_prefills");
    assert(words_to("disagg_prefills"@, 15));
    reveal_strlit("disagg_bytes_installed");
    assert(words_to("disagg_bytes_installed"@, 22));
    reveal_strlit("wire.requests_per_s");
    assert("wire.requests_per_s"@ =~= "wire"@ + seq!['.'] + "requests_per_s"@);
    assert(catalog()[10].name == "requests_per_s"@);
    lemma_reads(
        snapshot,
        instance,
        ts_ms,
        fresh,
        10,
        "wire.requests_per_s"@,
        "wire"@,
        "requests_per_s"@,
        "wire.requests_per_s"@,
    );
    reveal_strlit("wire.ingress_gbps");
    assert("wire.ingress_gbps"@ =~= "wire"@ + seq!['.'] + "ingress_gbps"@);
    assert(catalog()[11].name == "wire_ingress_gbps"@);
    lemma_reads(
        snapshot,
        instance,
        ts_ms,
        fresh,
        11,
        "wire.ingress_gbps"@,
        "wire"@,
        "ingress_gbps"@,
        "wire.ingress_gbps"@,
    );
    reveal_strlit("specdec.cumulative_drafted");
    assert("specdec.cumulative_drafted"@ =~= "specdec"@ + seq!['.'] + "cumulative_drafted"@);
    assert(catalog()[12].name == "dflash_drafted_total"@);
    lemma_reads(
        snapshot,
        instance,
        ts_ms,
        fresh,
        12,
        "specdec.cumulative_drafted"@,
        "specdec"@,
        "cumulative_drafted"@,
        "specdec"@,
    );
    reveal_strlit("specdec.cumulative_accepted");
    assert("specdec.cumulative_accepted"@ =~= "specdec"@ + seq!['.'] + "cumulative_accepted"@);
    assert(catalog()[13].name == "dflash_accepted_total"@);
    lemma_reads(
        snapshot,
        instance,
        ts_ms,
        fresh,
        13,
        "specdec.cumulative_accepted"@,
        "specdec"@,
        "cumulative_accepted"@,
        "specdec"@,
    );
    reveal_strlit("specdec.ane_route_failures");
    assert("specdec.ane_route_failures"@ =~= "specdec"@ + seq!['.'] + "ane_route_failures"@);
    assert(catalog()[14].name == "dflash_ane_route_failures_total"@);
    lemma_reads(
        snapshot,
        instance,
        ts_ms,
        fresh,
        14,
        "specdec.ane_route_failures"@,
        "specdec"@,
        "ane_route_failures"@,
        "specdec"@,
    );
    reveal_strlit("specdec.metal_route_failures");
    assert("specdec.metal_route_failures"@ =~= "specdec"@ + seq!['.'] + "metal_route_failures"@);
    assert(catalog()[15].name == "dflash_metal_route_failures_total"@);
    lemma_reads(
        snapshot,
        instance,
        ts_ms,
        fresh,
        15,
        "specdec.metal_route_failures"@,
        "specdec"@,
        "metal_route_failures"@,
        "specdec"@,
    );
    reveal_strlit("_remote.fallbacks");
    assert("_remote.fallbacks"@ =~= "_remote"@ + seq!['.'] + "fallbacks"@);
    assert(catalog()[16].name == "remote_fallbacks_total"@);
    lemma_reads(
        snapshot,
        instance,
        ts_ms,
        fresh,
        16,
        "_remote.fallbacks"@,
        "_remote"@,
        "fallbacks"@,
        "_remote"@,
    );
    reveal_strlit("economics.disagg_prefills");
    assert("economics.disagg_prefills"@ =~= "economics"@ + seq!['.'] + "disagg_prefills"@);
    assert(catalog()[23].name == "disagg_prefills_total"@);
    lemma_reads(
        snapshot,
        instance,
        ts_ms,
        fresh,
        23,
        "economics.disagg_prefills"@,
        "economics"@,
        "disagg_prefills"@,
        "economics.counters"@,
    );
    reveal_strlit("economics.disagg_bytes_installed");
    assert("economics.disagg_bytes_installed"@ =~= "economics"@ + seq!['.'] + "disagg_bytes_installed"@);
    assert(catalog()[24].name == "disagg_bytes_installed_total"@);
    lemma_reads(
        snapshot,
        instance,
        ts_ms,
        fresh,
        24,
        "economics.disagg_bytes_installed"@,
        "economics"@,
        "disagg_bytes_installed"@,
        "economics.counters"@,
    );
}

// ---------------------------------------------------------------------------
// What the transfers tell

/// The receipt is the last entry of `transfers`, whatever stands in front of
/// it: a series of the last transfer takes the number of its field there, as it
/// is or as a millionth of it, and nothing where the field is no number.
pub proof fn law_the_receipt_is_the_last_transfer(
    snapshot: Tree,
    items: Seq<Tree>,
    t: Tree,
    field: Seq<char>,
)
    requires
        snapshot.member("transfers"@) == Some(Tree::Array(items.push(t))),
    ensures
        receipt(snapshot) == Some(t),
        t.member(field) matches Some(Tree::Number(number)) ==> {
            &&& taken(snapshot, ExtractionView::TransferLast { field, scale: Scale::Unit }) == Some(
                Quantity::Double(number.bits),
            )
            &&& taken(
                snapshot,
                ExtractionView::TransferLast { field, scale: Scale::NanosToMillis },
            ) == Some(Quantity::NanosAsMillis(number.bits))
        },
        !(t.member(field) matches Some(Tree::Number(_))) ==> forall|scale: Scale|
            (#[trigger] taken(snapshot, ExtractionView::TransferLast { field, scale })) is None,
{
    assert(items.push(t).last() == t);
}

/// A handoff appended to the list is a new receipt, unless it repeats the one
/// before it; a list that did not change holds no news, and neither does one
/// that is empty or is not there.
pub proof fn law_an_appended_transfer_is_news(
    earlier: Tree,
    later: Tree,
    before: Option<Tree>,
    items: Seq<Tree>,
    t: Tree,
)
    requires
        earlier.member("transfers"@) == Some(Tree::Array(items)),
        later.member("transfers"@) == Some(Tree::Array(items.push(t))),
    ensures
        items.len() > 0 ==> (receipt_is_new(newer(before, receipt(earlier)), receipt(later)) <==> t
            != items.last()),
        items.len() == 0 ==> !receipt_is_new(before, receipt(earlier)) && (receipt_is_new(
            newer(before, receipt(earlier)),
            receipt(later),
        ) <==> before != Some(t)),
        !receipt_is_new(newer(before, receipt(later)), receipt(later)),
        newer(before, receipt(later)) == Some(t),
{
    assert(items.push(t).last() == t);
}

/// Without a list of transfers there is no receipt, and what was seen before
/// stays what was last seen.
pub proof fn law_no_transfers_are_no_news(snapshot: Tree, before: Option<Tree>)
    requires
        !(snapshot.member("transfers"@) matches Some(Tree::Array(_))),
    ensures
        !receipt_is_new(before, receipt(snapshot)),
        newer(before, receipt(snapshot)) == before,
        taken(snapshot, ExtractionView::TransfersActive) is None,
{
}

/// The number of a field of the last transfer, where it is finite.
pub open spec fn finite_field(t: Tree, field: Seq<char>) -> Option<u64> {
    match t.member(field) {
        Some(Tree::Number(number)) => if is_finite(number.bits) {
            Some(number.bits)
        } else {
            None
        },
        _ => None,
    }
}

pub open spec fn plain(bits: Option<u64>) -> Option<Quantity> {
    match bits {
        Some(b) => Some(Quantity::Double(b)),
        None => None,
    }
}

pub open spec fn millionth(bits: Option<u64>) -> Option<Quantity> {
    match bits {
        Some(b) => Some(Quantity::NanosAsMillis(b)),
        None => None,
    }
}

/// A new and honest handoff is told whole: size, throughput and hidden part as
/// its fields say, and the two times, which it holds in nanoseconds, in
/// milliseconds. One that was seen before is told nothing of.
pub proof fn law_a_new_handoff_is_told(
    snapshot: Tree,
    instance: Seq<char>,
    ts_ms: i64,
    before: Option<Tree>,
    items: Seq<Tree>,
    t: Tree,
)
    requires
        snapshot.member("transfers"@) == Some(Tree::Array(items.push(t))),
        honesty_of(snapshot, "transfers"@) is Some,
    ensures
        ({
            let samples = snapshot_samples(
                snapshot,
                instance,
                ts_ms,
                receipt_is_new(before, receipt(snapshot)),
            );
            &&& before != Some(t) ==> {
                &&& tells(
                    samples,
                    "transfer_last_bytes_total"@,
                    plain(finite_field(t, "bytes_total"@)),
                )
                &&& tells(
                    samples,
                    "transfer_last_throughput_gbps"@,
                    plain(finite_field(t, "throughput_gbps"@)),
                )
                &&& tells(
                    samples,
                    "transfer_last_hidden_pct"@,
                    plain(finite_field(t, "hidden_pct"@)),
                )
                &&& tells(
                    samples,
                    "transfer_last_control_ms"@,
                    millionth(finite_field(t, "_control_ns"@)),
                )
                &&& tells(
                    samples,
                    "transfer_last_accept_ms"@,
                    millionth(finite_field(t, "_accept_ns"@)),
                )
            }
            &&& before == Some(t) ==> {
                &&& tells(samples, "transfer_last_bytes_total"@, None)
                &&& tells(samples, "transfer_last_throughput_gbps"@, None)
                &&& tells(samples, "transfer_last_hidden_pct"@, None)
                &&& tells(samples, "transfer_last_control_ms"@, None)
                &&& tells(samples, "transfer_last_accept_ms"@, None)
            }
        }),
{
    let fresh = receipt_is_new(before, receipt(snapshot));
    let pick = |series: SeriesView| snapshot_sample(series, snapshot, instance, ts_ms, fresh);
    law_the_receipt_is_the_last_transfer(snapshot, items, t, "bytes_total"@);
    law_the_receipt_is_the_last_transfer(snapshot, items, t, "throughput_gbps"@);
    law_the_receipt_is_the_last_transfer(snapshot, items, t, "hidden_pct"@);
    law_the_receipt_is_the_last_transfer(snapshot, items, t, "_control_ns"@);
    law_the_receipt_is_the_last_transfer(snapshot, items, t, "_accept_ns"@);
    assert(catalog()[18].name == "transfer_last_bytes_total"@);
    lemma_tells(Source::Snapshot, pick, 18);
    assert(catalog()[19].name == "transfer_last_throughput_gbps"@);
    lemma_tells(Source::Snapshot, pick, 19);
    assert(catalog()[20].name == "transfer_last_hidden_pct"@);
    lemma_tells(Source::Snapshot, pick, 20);
    assert(catalog()[21].name == "transfer_last_control_ms"@);
    lemma_tells(Source::Snapshot, pick, 21);
    assert(catalog()[22].name == "transfer_last_accept_ms"@);
    lemma_tells(Source::Snapshot, pick, 22);
}

/// The active transfers are those whose phase is not `done`, each counted once:
/// an honest list tells how many there are, an empty one tells zero.
pub proof fn law_active_transfers_are_counted(
    snapshot: Tree,
    instance: Seq<char>,
    ts_ms: i64,
    fresh: bool,
    items: Seq<Tree>,
)
    requires
        snapshot.member("transfers"@) == Some(Tree::Array(items)),
        honesty_of(snapshot, "transfers"@) is Some,
        items.len() <= u64::MAX,
    ensures
        ({
            let running = items.filter(
                |t: Tree| t.member("phase"@) != Some(Tree::Text("done"@)),
            );
            tells(
                snapshot_samples(snapshot, instance, ts_ms, fresh),
                "transfers_active"@,
                Some(Quantity::Count(running.len() as u64)),
            )
        }),
        items.len() == 0 ==> tells(
            snapshot_samples(snapshot, instance, ts_ms, fresh),
            "transfers_active"@,
            Some(Quantity::Count(0)),
        ),
{
    let pick = |series: SeriesView| snapshot_sample(series, snapshot, instance, ts_ms, fresh);
    assert(catalog()[17].name == "transfers_active"@);
    lemma_tells(Source::Snapshot, pick, 17);
    lemma_active(items);
}

proof fn lemma_active(items: Seq<Tree>)
    ensures
        active(items) == items.filter(
            |t: Tree| t.member("phase"@) != Some(Tree::Text("done"@)),
        ).len(),
        active(items) <= items.len(),
    decreases items.len(),
{
    reveal(Seq::filter);
    if items.len() > 0 {
        lemma_active(items.drop_last());
    }
}

// ---------------------------------------------------------------------------
// Optional features and what is logged

/// A DFlash runtime is there exactly where `specdec.draft_len` is a whole
/// number; without one no DFlash series is told, and with one, or of the other
/// series, nothing is lost.
pub proof fn law_the_gate_needs_a_draft_length(
    snapshot: Tree,
    batch: Seq<SampleView>,
    sample: SampleView,
)
    ensures
        ({
            let draft = match snapshot.member("specdec"@) {
                Some(inner) => inner.member("draft_len"@),
                None => None,
            };
            let there = draft matches Some(Tree::Number(number)) && number.notation is Unsigned;
            &&& there ==> gated(Some(snapshot), batch) == batch
            &&& !there ==> (gated(Some(snapshot), batch).contains(sample) <==> batch.contains(sample)
                && !starts(sample.series, "dflash_"@))
            &&& gated(None, batch).contains(sample) <==> batch.contains(sample) && !starts(
                sample.series,
                "dflash_"@,
            )
        }),
{
    reveal_with_fuel(words_to, 12);
    reveal_strlit("specdec");
    reveal_strlit("draft_len");
    reveal_strlit("specdec.draft_len");
    assert(words_to("specdec"@, 7));
    assert(words_to("draft_len"@, 9));
    lemma_words("specdec"@, 7);
    lemma_words("draft_len"@, 9);
    assert("specdec.draft_len"@ =~= "specdec"@ + seq!['.'] + "draft_len"@);
    lemma_two_names(snapshot, "specdec.draft_len"@, "specdec"@, "draft_len"@);
    law_gate_drops_exactly_dflash(batch, sample);
}

/// Every change of an upstream is logged, and only a change: its first failure
/// and a failure after a success, and a success after a failure.
pub proof fn law_every_change_is_logged(
    up: Option<bool>,
    subject: Seq<char>,
    what: Seq<char>,
    reason: Seq<char>,
)
    ensures
        health_line(up, subject, what, Err(reason)) is Some <==> up != Some(false),
        health_line(up, subject, what, Ok(())) is Some <==> up == Some(false),
        health_line(up, subject, what, Err(reason)) matches Some(line) ==> exists|a: Seq<char>, b: Seq<
            char,
        >, c: Seq<char>, d: Seq<char>|
            line == a + subject + b + what + c + reason + d,
        health_line(up, subject, what, Ok(())) matches Some(line) ==> exists|
            a: Seq<char>,
            b: Seq<char>,
            c: Seq<char>,
        | line == a + subject + b + what + c,
{
    assert(health_line(Some(true), subject, what, Err(reason)) == Some(
        "history sampler: "@ + subject + " "@ + what + " unavailable ("@ + reason
            + "); recording nothing until it returns"@,
    ));
}

/// More devices than eight is said once, and so is the return to eight or
/// fewer.
pub proof fn law_more_than_eight_devices_are_said_once(
    overflowing: Option<bool>,
    subject: Seq<char>,
    seen: nat,
)
    ensures
        overflow_line(overflowing, subject, seen) is Some <==> (if seen > 8 {
            overflowing != Some(true)
        } else {
            overflowing == Some(true)
        }),
        overflow_line(Some(seen > 8), subject, seen) is None,
{
}

/// What is gathered of some series comes in their order, from each at most
/// once.
proof fn lemma_gathered_once(
    series: Seq<SeriesView>,
    pick: spec_fn(SeriesView) -> Option<SampleView>,
)
    requires
        forall|i: int, j: int|
            0 <= i < j < series.len() ==> (#[trigger] series[i]).name != (#[trigger] series[j]).name,
        forall|entry: SeriesView|
            (#[trigger] pick(entry)) matches Some(sample) ==> sample.series == entry.name,
    ensures
        forall|k: int, l: int|
            0 <= k < l < gathered(series, pick).len() ==> (#[trigger] gathered(
                series,
                pick,
            )[k]).series != (#[trigger] gathered(series, pick)[l]).series,
        gathered(series, pick).len() <= series.len(),
    decreases series.len(),
{
    if series.len() > 0 {
        let init = series.drop_last();
        assert forall|i: int, j: int| 0 <= i < j < init.len() implies (#[trigger] init[i]).name != (
        #[trigger] init[j]).name by {
            assert(init[i] == series[i] && init[j] == series[j]);
        }
        lemma_gathered_once(init, pick);
        let head = gathered(init, pick);
        let all = gathered(series, pick);
        assert forall|k: int, l: int| 0 <= k < l < all.len() implies (#[trigger] all[k]).series != (
        #[trigger] all[l]).series by {
            assert(all[k] == head[k]);
            if l < head.len() {
                assert(all[l] == head[l]);
            } else {
                let i = lemma_gathered(init, pick, k);
                assert(init[i] == series[i]);
                assert(pick(series[i]) == Some(all[k]));
                assert(pick(series.last()) == Some(all[l]));
                assert(series.last() == series[series.len() - 1]);
            }
        }
    }
}

proof fn lemma_source_is_unique(source: Source)
    ensures
        ({
            let list = of_source(catalog(), source);
            forall|i: int, j: int|
                0 <= i < j < list.len() ==> (#[trigger] list[i]).name != (#[trigger] list[j]).name
        }),
{
    let n = catalog().len() as int;
    assert(catalog().take(n) =~= catalog());
    assert forall|i: int, j: int| 0 <= i < j < n implies (#[trigger] catalog()[i]).name != (
    #[trigger] catalog()[j]).name by {
        law_names_are_unique(i, j);
    }
    lemma_source_keeps_unique(catalog(), source);
}

proof fn lemma_source_keeps_unique(series: Seq<SeriesView>, source: Source)
    requires
        forall|i: int, j: int|
            0 <= i < j < series.len() ==> (#[trigger] series[i]).name != (#[trigger] series[j]).name,
    ensures
        ({
            let list = of_source(series, source);
            forall|i: int, j: int|
                0 <= i < j < list.len() ==> (#[trigger] list[i]).name != (#[trigger] list[j]).name
        }),
    decreases series.len(),
{
    if series.len() > 0 {
        let init = series.drop_last();
        assert forall|i: int, j: int| 0 <= i < j < init.len() implies (#[trigger] init[i]).name != (
        #[trigger] init[j]).name by {
            assert(init[i] == series[i] && init[j] == series[j]);
        }
        lemma_source_keeps_unique(init, source);
        let list = of_source(series, source);
        let head = of_source(init, source);
        assert forall|i: int, j: int| 0 <= i < j < list.len() implies (#[trigger] list[i]).name != (
        #[trigger] list[j]).name by {
            assert(list[i] == head[i]);
            if j < head.len() {
                assert(list[j] == head[j]);
            } else {
                let k = lemma_of_source(init, source, i);
                assert(init[k] == series[k]);
                assert(series.last() == series[series.len() - 1]);
            }
        }
    }
}

/// Of every source a tick records each series at most once.
pub proof fn law_a_series_is_recorded_once(
    scrape: ScrapeView,
    snapshot: Tree,
    instance: Seq<char>,
    ts_ms: i64,
    fresh: bool,
    k: int,
    l: int,
)
    requires
        0 <= k < l,
    ensures
        l < metrics_samples(scrape, instance, ts_ms, fresh).len() ==> metrics_samples(
            scrape,
            instance,
            ts_ms,
            fresh,
        )[k].series != metrics_samples(scrape, instance, ts_ms, fresh)[l].series,
        l < snapshot_samples(snapshot, instance, ts_ms, fresh).len() ==> snapshot_samples(
            snapshot,
            instance,
            ts_ms,
            fresh,
        )[k].series != snapshot_samples(snapshot, instance, ts_ms, fresh)[l].series,
        l < agent_samples(scrape, instance, ts_ms).len() ==> agent_samples(
            scrape,
            instance,
            ts_ms,
        )[k].series != agent_samples(scrape, instance, ts_ms)[l].series,
{
    lemma_source_is_unique(Source::Metrics);
    lemma_source_is_unique(Source::Snapshot);
    lemma_source_is_unique(Source::Agent);
    lemma_gathered_once(
        of_source(catalog(), Source::Metrics),
        |series: SeriesView| metrics_sample(series, scrape, instance, ts_ms, fresh),
    );
    lemma_gathered_once(
        of_source(catalog(), Source::Snapshot),
        |series: SeriesView| snapshot_sample(series, snapshot, instance, ts_ms, fresh),
    );
    lemma_gathered_once(
        of_source(catalog(), Source::Agent),
        |series: SeriesView| agent_sample(series, scrape, instance, ts_ms),
    );
}

/// Each source of a tick is recorded whether or not the others answered: the
/// metrics alone, without the series of a drafter that no snapshot shows to be
/// there; the snapshot alone; and of every exporter its own part, in order.
pub proof fn law_sources_do_not_wait_for_each_other(
    scrape: ScrapeView,
    tree: Tree,
    reason: Seq<char>,
    tokens: Option<u64>,
    last: Option<Tree>,
    agents: Seq<AgentBodyView>,
    agent: AgentBodyView,
    instance: Seq<char>,
    ts_ms: i64,
)
    ensures
        ({
            let metrics = metrics_samples(
                scrape,
                instance,
                ts_ms,
                completed(tokens, completions(scrape)),
            );
            let snapshot = snapshot_samples(
                tree,
                instance,
                ts_ms,
                receipt_is_new(last, receipt(tree)),
            );
            let kept = |samples: Seq<SampleView>|
                samples.filter(|sample: SampleView| !starts(sample.series, "dflash_"@));
            &&& engine_part(Ok(scrape), Err(reason), tokens, last, instance, ts_ms) == kept(metrics)
            &&& dflash_configured(Some(tree)) ==> engine_part(
                Ok(scrape),
                Ok(tree),
                tokens,
                last,
                instance,
                ts_ms,
            ) == metrics + snapshot
            &&& dflash_configured(Some(tree)) ==> engine_part(
                Err(reason),
                Ok(tree),
                tokens,
                last,
                instance,
                ts_ms,
            ) == snapshot
            &&& !dflash_configured(Some(tree)) ==> engine_part(
                Ok(scrape),
                Ok(tree),
                tokens,
                last,
                instance,
                ts_ms,
            ) == kept(metrics + snapshot)
        }),
        agents_part(agents.push(agent), instance, ts_ms) == agents_part(agents, instance, ts_ms) + (
        match agent.outcome {
            Ok(answer) => agent_samples(answer, instance, ts_ms),
            Err(_) => Seq::empty(),
        }),
        agents_part(Seq::empty(), instance, ts_ms).len() == 0,
{
    let metrics = metrics_samples(
        scrape,
        instance,
        ts_ms,
        completed(tokens, completions(scrape)),
    );
    let snapshot = snapshot_samples(tree, instance, ts_ms, receipt_is_new(last, receipt(tree)));
    let none = Seq::<SampleView>::empty();
    assert(metrics + none =~= metrics);
    assert(none + snapshot =~= snapshot);
    lemma_without_dflash(metrics);
    lemma_without_dflash(metrics + snapshot);
    assert(agents.push(agent).drop_last() =~= agents);
}

proof fn lemma_without_dflash(batch: Seq<SampleView>)
    ensures
        without_dflash(batch) == batch.filter(
            |sample: SampleView| !starts(sample.series, "dflash_"@),
        ),
    decreases batch.len(),
{
    reveal(Seq::filter);
    if batch.len() > 0 {
        lemma_without_dflash(batch.drop_last());
    }
}

/// An exporter is live where it answered and unreachable where it did not, and
/// what it is remembered by says the same; how many devices it showed is
/// forgotten by no failure.
pub proof fn law_exporters_are_remembered(
    health: AgentHealth,
    name: Seq<char>,
    scrape: ScrapeView,
    reason: Seq<char>,
)
    ensures
        ({
            let answered = AgentBodyView { name, outcome: Ok(scrape) };
            let silent = AgentBodyView { name, outcome: Err(reason) };
            &&& reached(answered) == AgentState::Live
            &&& reached(silent) == AgentState::Unreachable
            &&& agent_health(health, answered).reach.up == Some(true)
            &&& agent_health(health, silent).reach.up == Some(false)
            &&& agent_health(health, answered).overflowing == Some(gpus(scrape.lines).len() > 8)
            &&& agent_health(health, silent).overflowing == health.overflowing
        }),
{
}

/// What the sampler logs, in full.
pub proof fn law_what_the_sampler_logs(
    health: AgentHealth,
    subject: Seq<char>,
    what: Seq<char>,
    reason: Seq<char>,
    name: Seq<char>,
    scrape: ScrapeView,
    seen: nat,
)
    ensures
        health_line(Some(true), subject, what, Err(reason)) == Some(
            "history sampler: "@ + subject + " "@ + what + " unavailable ("@ + reason
                + "); recording nothing until it returns"@,
        ),
        health_line(Some(false), subject, what, Ok(())) == Some(
            "history sampler: "@ + subject + " "@ + what + " recovered"@,
        ),
        seen > 8 ==> overflow_line(None, subject, seen) == Some(
            "history sampler: "@ + subject + " published "@ + decimal(seen)
                + " GPUs; storing the first "@ + decimal(8)
                + " and recording nothing for the rest"@,
        ),
        seen <= 8 ==> overflow_line(Some(true), subject, seen) == Some(
            "history sampler: "@ + subject + " is back within "@ + decimal(8) + " GPUs"@,
        ),
        health.reach.up == Some(true) ==> agent_lines(
            health,
            AgentBodyView { name, outcome: Err(reason) },
        ) == seq![
            "history sampler: "@ + ("agent '"@ + name + "'"@) + " "@ + "/metrics"@
                + " unavailable ("@ + reason + "); recording nothing until it returns"@,
        ],
        health.reach.up == Some(true) && health.overflowing != Some(true) && gpus(
            scrape.lines,
        ).len() <= 8 ==> agent_lines(health, AgentBodyView { name, outcome: Ok(scrape) }).len()
            == 0,
{
}

/// What a fetch sends: the host, that nothing be compressed, and to an engine
/// its credential.
pub proof fn law_what_a_fetch_sends(headers: Seq<Header>, authority: Seq<char>, bearer: Seq<u8>)
    ensures
        fetches(headers, authority, Some(bearer)) <==> headers.len() == 3 && headers[0].name@
            == "host"@ && headers[0].value@ == encode_utf8(authority) && headers[1].name@
            == "accept-encoding"@ && headers[1].value@ == encode_utf8("identity"@)
            && headers[2].name@ == "authorization"@ && headers[2].value@ == bearer,
        fetches(headers, authority, None) <==> headers.len() == 2 && headers[0].name@ == "host"@
            && headers[0].value@ == encode_utf8(authority) && headers[1].name@
            == "accept-encoding"@ && headers[1].value@ == encode_utf8("identity"@),
{
}

/// A body is read as UTF-8 or not at all.
pub proof fn law_bodies_are_read_as_text(text: Seq<char>, bytes: Seq<u8>, reason: Seq<char>)
    ensures
        valid_utf8(bytes) ==> body_text(Ok(bytes)) == Ok::<Seq<char>, Seq<char>>(
            decode_utf8(bytes),
        ),
        !valid_utf8(bytes) ==> body_text(Ok(bytes)) == Err::<Seq<char>, Seq<char>>(
            "response was not UTF-8"@,
        ),
        body_text(Err(reason)) == Err::<Seq<char>, Seq<char>>(reason),
{
}

/// Lines of several exporters come one exporter after the other.
pub proof fn law_exporters_log_in_order(
    healths: Seq<AgentHealth>,
    agents: Seq<AgentBodyView>,
    agent: AgentBodyView,
)
    ensures
        agents_lines(healths, agents.push(agent)) == agents_lines(healths, agents) + agent_lines(
            healths[agents.len() as int],
            agent,
        ),
        agents_lines(healths, Seq::empty()).len() == 0,
{
    assert(agents.push(agent).drop_last() =~= agents);
}

/// The models of scrapes and of an exporter's half of a tick show what these
/// hold.
pub proof fn law_models_show_what_is_held(scrape: Scrape, agent: AgentBody)
    ensures
        scrape@.lines == scrape.exposition.deep_view(),
        scrape@.numbers == scrape.numbers@,
        agent@.name == agent.name@,
        agent.outcome matches Ok(answer) ==> agent@.outcome == Ok::<ScrapeView, Seq<char>>(answer@),
        agent.outcome matches Err(reason) ==> agent@.outcome == Err::<ScrapeView, Seq<char>>(
            reason@,
        ),
{
}

} // verus!
