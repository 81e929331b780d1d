//! The fixed history series catalog: every series that can be stored, where
//! its value comes from, and where its honesty tag is read.
//!
//! Nothing is stored that is not listed here, and nothing listed here is ever
//! synthesized: when a source field is absent, unreadable, or tagged `mock`,
//! a tick records no sample for it.
//!
//! Where a field exists in both engine documents the Prometheus exposition
//! wins: one series, one source, no duplicates.
use crate::text::{cat3, decimal, decimal_of, lemma_small_decimal, same, starts};
use vstd::prelude::*;

verus! {

/// How many GPUs one agent can publish before the catalog runs out of names.
pub const MAX_AGENT_GPUS: usize = 8;

/// Counter or gauge decides how a series is aggregated: a gauge averages, a
/// counter keeps the last value.
#[derive(Clone, Copy, PartialEq, Eq, Debug, Structural)]
pub enum Kind {
    Gauge,
    Counter,
}

impl Kind {
    pub open spec fn text(self) -> Seq<char> {
        match self {
            Kind::Gauge => "gauge"@,
            Kind::Counter => "counter"@,
        }
    }

    /// The name of the kind.
    pub fn as_str(self) -> (r: &'static str)
        ensures
            r@ == self.text(),
    {
        match self {
            Kind::Gauge => "gauge",
            Kind::Counter => "counter",
        }
    }
}

/// Which read path produced a sample.
#[derive(Clone, Copy, PartialEq, Eq, Debug, Structural)]
pub enum Source {
    /// The engine's Prometheus exposition.
    Metrics,
    /// The engine's snapshot document.
    Snapshot,
    /// A sidecar exporter's exposition.
    Agent,
}

impl Source {
    pub open spec fn text(self) -> Seq<char> {
        match self {
            Source::Metrics => "metrics"@,
            Source::Snapshot => "snapshot"@,
            Source::Agent => "agent"@,
        }
    }

    /// The source that a stored text names.
    pub open spec fn stored(text: Seq<char>) -> Option<Source> {
        if text == "metrics"@ {
            Some(Source::Metrics)
        } else if text == "snapshot"@ {
            Some(Source::Snapshot)
        } else if text == "agent"@ {
            Some(Source::Agent)
        } else {
            None
        }
    }

    /// The name of the source, as it is stored on a row.
    pub fn as_str(self) -> (r: &'static str)
        ensures
            r@ == self.text(),
    {
        match self {
            Source::Metrics => "metrics",
            Source::Snapshot => "snapshot",
            Source::Agent => "agent",
        }
    }

    /// Inverse of `as_str`: reads the vocabulary as it is stored on a row.
    pub fn from_stored(text: &str) -> (r: Option<Source>)
        ensures
            r == Source::stored(text@),
    {
        if same(text, "metrics") {
            Some(Source::Metrics)
        } else if same(text, "snapshot") {
            Some(Source::Snapshot)
        } else if same(text, "agent") {
            Some(Source::Agent)
        } else {
            None
        }
    }
}

/// The honesty vocabulary that survives into the store. The engine's third
/// tag, `mock`, deliberately has no variant.
#[derive(Clone, Copy, PartialEq, Eq, Debug, Structural)]
pub enum Honesty {
    /// The engine reported it and tagged it measured.
    Measured,
    /// The engine reported it and tagged it a target.
    Target,
    /// A sidecar exporter measured it; the engine never saw it.
    AgentMeasured,
}

impl Honesty {
    pub open spec fn text(self) -> Seq<char> {
        match self {
            Honesty::Measured => "measured"@,
            Honesty::Target => "target"@,
            Honesty::AgentMeasured => "agent-measured"@,
        }
    }

    /// The honesty that a tag names.
    pub open spec fn tagged(tag: Seq<char>) -> Option<Honesty> {
        if tag == "measured"@ {
            Some(Honesty::Measured)
        } else if tag == "target"@ {
            Some(Honesty::Target)
        } else if tag == "agent-measured"@ {
            Some(Honesty::AgentMeasured)
        } else {
            None
        }
    }

    /// The tag of the honesty.
    pub fn as_str(self) -> (r: &'static str)
        ensures
            r@ == self.text(),
    {
        match self {
            Honesty::Measured => "measured",
            Honesty::Target => "target",
            Honesty::AgentMeasured => "agent-measured",
        }
    }

    /// Reads a tag. `mock` and every unknown tag give nothing: the caller
    /// skips the sample.
    pub fn from_tag(tag: &str) -> (r: Option<Honesty>)
        ensures
            r == Honesty::tagged(tag@),
    {
        if same(tag, "measured") {
            Some(Honesty::Measured)
        } else if same(tag, "target") {
            Some(Honesty::Target)
        } else if same(tag, "agent-measured") {
            Some(Honesty::AgentMeasured)
        } else {
            None
        }
    }
}

/// What a value is multiplied by on its way into the store.
#[derive(Clone, Copy, PartialEq, Eq, Debug, Structural)]
pub enum Scale {
    Unit,
    /// A millionth: nanoseconds become milliseconds.
    NanosToMillis,
}

/// How a tick's payload yields a series' value.
#[derive(Debug)]
pub enum Extraction {
    /// A Prometheus metric, selected by its `quantile` label where one is
    /// named.
    Prometheus { metric: &'static str, quantile: Option<&'static str> },
    /// A dotted path into the snapshot.
    Snapshot { path: &'static str },
    /// Count of `transfers[]` entries whose `phase` is not `"done"`.
    TransfersActive,
    /// A field of the last `transfers[]` entry.
    TransferLast { field: &'static str, scale: Scale },
    /// An exporter's Prometheus metric, selected by its `gpu` label where the
    /// exporter publishes one line per device.
    Agent { metric: &'static str, gpu: Option<String> },
}

/// A catalog entry.
#[derive(Debug)]
pub struct Series {
    pub name: String,
    pub kind: Kind,
    pub source: Source,
    pub unit: &'static str,
    pub extraction: Extraction,
    /// Dotted path under the snapshot's `_honesty` sidecar; only snapshot
    /// series have one.
    pub honesty_path: Option<&'static str>,
}

/// How a tick's payload yields a series' value, as texts.
pub enum ExtractionView {
    Prometheus { metric: Seq<char>, quantile: Option<Seq<char>> },
    Snapshot { path: Seq<char> },
    TransfersActive,
    TransferLast { field: Seq<char>, scale: Scale },
    Agent { metric: Seq<char>, gpu: Option<Seq<char>> },
}

/// A catalog entry, as texts.
pub struct SeriesView {
    pub name: Seq<char>,
    pub kind: Kind,
    pub source: Source,
    pub unit: Seq<char>,
    pub extraction: ExtractionView,
    pub honesty_path: Option<Seq<char>>,
}

/// The text behind an optional string slice.
pub open spec fn opt_text(text: Option<&str>) -> Option<Seq<char>> {
    match text {
        Some(t) => Some(t@),
        None => None,
    }
}

impl View for Extraction {
    type V = ExtractionView;

    open spec fn view(&self) -> ExtractionView {
        match self {
            Extraction::Prometheus { metric, quantile } => ExtractionView::Prometheus {
                metric: metric@,
                quantile: opt_text(*quantile),
            },
            Extraction::Snapshot { path } => ExtractionView::Snapshot { path: path@ },
            Extraction::TransfersActive => ExtractionView::TransfersActive,
            Extraction::TransferLast { field, scale } => ExtractionView::TransferLast {
                field: field@,
                scale: *scale,
            },
            Extraction::Agent { metric, gpu } => ExtractionView::Agent {
                metric: metric@,
                gpu: match gpu {
                    Some(index) => Some(index@),
                    None => None,
                },
            },
        }
    }
}

impl View for Series {
    type V = SeriesView;

    open spec fn view(&self) -> SeriesView {
        SeriesView {
            name: self.name@,
            kind: self.kind,
            source: self.source,
            unit: self.unit@,
            extraction: self.extraction@,
            honesty_path: opt_text(self.honesty_path),
        }
    }
}

// ---------------------------------------------------------------------------
// The table

pub open spec fn prom_view(
    name: Seq<char>,
    kind: Kind,
    unit: Seq<char>,
    metric: Seq<char>,
    quantile: Option<Seq<char>>,
) -> SeriesView {
    SeriesView {
        name,
        kind,
        source: Source::Metrics,
        unit,
        extraction: ExtractionView::Prometheus { metric, quantile },
        honesty_path: None,
    }
}

pub open spec fn snap_view(
    name: Seq<char>,
    kind: Kind,
    unit: Seq<char>,
    path: Seq<char>,
    honesty_path: Seq<char>,
) -> SeriesView {
    SeriesView {
        name,
        kind,
        source: Source::Snapshot,
        unit,
        extraction: ExtractionView::Snapshot { path },
        honesty_path: Some(honesty_path),
    }
}

pub open spec fn transfer_last_view(
    name: Seq<char>,
    unit: Seq<char>,
    field: Seq<char>,
    scale: Scale,
) -> SeriesView {
    SeriesView {
        name,
        kind: Kind::Gauge,
        source: Source::Snapshot,
        unit,
        extraction: ExtractionView::TransferLast { field, scale },
        honesty_path: Some("transfers"@),
    }
}

pub open spec fn transfers_active_view() -> SeriesView {
    SeriesView {
        name: "transfers_active"@,
        kind: Kind::Gauge,
        source: Source::Snapshot,
        unit: "transfers"@,
        extraction: ExtractionView::TransfersActive,
        honesty_path: Some("transfers"@),
    }
}

pub open spec fn host_view(name: Seq<char>, unit: Seq<char>, metric: Seq<char>) -> SeriesView {
    SeriesView {
        name,
        kind: Kind::Gauge,
        source: Source::Agent,
        unit,
        extraction: ExtractionView::Agent { metric, gpu: None },
        honesty_path: None,
    }
}

/// How many engine series there are.
pub open spec fn engine_count() -> int {
    25
}

/// How many readings one device has.
pub open spec fn readings_per_gpu() -> int {
    5
}

/// How many series there are.
pub open spec fn series_count() -> int {
    engine_count() + MAX_AGENT_GPUS * readings_per_gpu() + 3
}

/// The engine series, in listing order.
pub open spec fn engine(i: int) -> SeriesView {
    if i == 0 {
        prom_view("decode_tok_s"@, Kind::Gauge, "tok/s"@, "completion_traffic_tok_s_10s"@, None)
    } else if i == 1 {
        prom_view("request_decode_tok_s"@, Kind::Gauge, "tok/s"@, "muser_request_decode_tok_s"@, None)
    } else if i == 2 {
        prom_view("queue_depth"@, Kind::Gauge, "requests"@, "muser_queue_depth"@, None)
    } else if i == 3 {
        prom_view("overload_rejections_total"@, Kind::Counter, "requests"@, "muser_overload_rejections_total"@, None)
    } else if i == 4 {
        prom_view("completion_tokens_total"@, Kind::Counter, "tokens"@, "muser_completion_tokens_total"@, None)
    } else if i == 5 {
        prom_view("ttft_ms_p50"@, Kind::Gauge, "ms"@, "muser_ttft_milliseconds"@, Some("0.50"@))
    } else if i == 6 {
        prom_view("ttft_ms_p95"@, Kind::Gauge, "ms"@, "muser_ttft_milliseconds"@, Some("0.95"@))
    } else if i == 7 {
        prom_view("itl_ms_p50"@, Kind::Gauge, "ms"@, "muser_itl_milliseconds"@, Some("0.50"@))
    } else if i == 8 {
        prom_view("itl_ms_p95"@, Kind::Gauge, "ms"@, "muser_itl_milliseconds"@, Some("0.95"@))
    } else if i == 9 {
        prom_view("dflash_accept_rate"@, Kind::Gauge, "ratio"@, "muser_dflash_acceptance_ratio"@, None)
    } else if i == 10 {
        snap_view("requests_per_s"@, Kind::Gauge, "req/s"@, "wire.requests_per_s"@, "wire.requests_per_s"@)
    } else if i == 11 {
        snap_view("wire_ingress_gbps"@, Kind::Gauge, "Gb/s"@, "wire.ingress_gbps"@, "wire.ingress_gbps"@)
    } else if i == 12 {
        snap_view("dflash_drafted_total"@, Kind::Counter, "tokens"@, "specdec.cumulative_drafted"@, "specdec"@)
    } else if i == 13 {
        snap_view("dflash_accepted_total"@, Kind::Counter, "tokens"@, "specdec.cumulative_accepted"@, "specdec"@)
    } else if i == 14 {
        snap_view("dflash_ane_route_failures_total"@, Kind::Counter, "attempts"@, "specdec.ane_route_failures"@, "specdec"@)
    } else if i == 15 {
        snap_view("dflash_metal_route_failures_total"@, Kind::Counter, "attempts"@, "specdec.metal_route_failures"@, "specdec"@)
    } else if i == 16 {
        snap_view("remote_fallbacks_total"@, Kind::Counter, "requests"@, "_remote.fallbacks"@, "_remote"@)
    } else if i == 17 {
        transfers_active_view()
    } else if i == 18 {
        transfer_last_view("transfer_last_bytes_total"@, "bytes"@, "bytes_total"@, Scale::Unit)
    } else if i == 19 {
        transfer_last_view("transfer_last_throughput_gbps"@, "Gb/s"@, "throughput_gbps"@, Scale::Unit)
    } else if i == 20 {
        transfer_last_view("transfer_last_hidden_pct"@, "ratio"@, "hidden_pct"@, Scale::Unit)
    } else if i == 21 {
        transfer_last_view("transfer_last_control_ms"@, "ms"@, "_control_ns"@, Scale::NanosToMillis)
    } else if i == 22 {
        transfer_last_view("transfer_last_accept_ms"@, "ms"@, "_accept_ns"@, Scale::NanosToMillis)
    } else if i == 23 {
        snap_view("disagg_prefills_total"@, Kind::Counter, "prefills"@, "economics.disagg_prefills"@, "economics.counters"@)
    } else {
        snap_view("disagg_bytes_installed_total"@, Kind::Counter, "bytes"@, "economics.disagg_bytes_installed"@, "economics.counters"@)
    }
}

/// Name suffix, unit and metric of a device's readings.
pub open spec fn gpu_reading(i: int) -> (Seq<char>, Seq<char>, Seq<char>) {
    if i == 0 {
        ("_utilization_ratio"@, "ratio"@, "muser_gpu_utilization_ratio"@)
    } else if i == 1 {
        ("_power_watts"@, "W"@, "muser_gpu_power_watts"@)
    } else if i == 2 {
        ("_temperature_celsius"@, "°C"@, "muser_gpu_temperature_celsius"@)
    } else if i == 3 {
        ("_memory_used_bytes"@, "bytes"@, "muser_gpu_memory_used_bytes"@)
    } else {
        ("_memory_total_bytes"@, "bytes"@, "muser_gpu_memory_total_bytes"@)
    }
}

/// The device's index is part of both the name and the label it selects on.
pub open spec fn gpu_view(gpu: int, reading: int) -> SeriesView {
    let index = decimal(gpu as nat);
    SeriesView {
        name: "gpu"@ + index + gpu_reading(reading).0,
        kind: Kind::Gauge,
        source: Source::Agent,
        unit: gpu_reading(reading).1,
        extraction: ExtractionView::Agent {
            metric: gpu_reading(reading).2,
            gpu: Some(index),
        },
        honesty_path: None,
    }
}

/// The whole-host agent series.
pub open spec fn host(i: int) -> SeriesView {
    if i == 0 {
        host_view("host_package_power_watts"@, "W"@, "muser_host_package_power_watts"@)
    } else if i == 1 {
        host_view("host_cpu_power_watts"@, "W"@, "muser_host_cpu_power_watts"@)
    } else {
        host_view("host_gpu_power_watts"@, "W"@, "muser_host_gpu_power_watts"@)
    }
}

/// The agent series, in listing order.
pub open spec fn agent(i: int) -> SeriesView {
    if i < MAX_AGENT_GPUS * readings_per_gpu() {
        gpu_view(i / readings_per_gpu(), i % readings_per_gpu())
    } else {
        host(i - MAX_AGENT_GPUS * readings_per_gpu())
    }
}

/// Everything that can be stored: engine series first, agent series after.
pub open spec fn catalog() -> Seq<SeriesView> {
    Seq::new(
        series_count() as nat,
        |i: int|
            if i < engine_count() {
                engine(i)
            } else {
                agent(i - engine_count())
            },
    )
}

/// The entries that a list of series holds.
pub open spec fn entries(series: Seq<Series>) -> Seq<SeriesView> {
    Seq::new(series.len(), |i: int| series[i]@)
}

fn prom(
    name: &'static str,
    kind: Kind,
    unit: &'static str,
    metric: &'static str,
    quantile: Option<&'static str>,
) -> (r: Series)
    ensures
        r@ == prom_view(name@, kind, unit@, metric@, opt_text(quantile)),
{
    Series {
        name: name.to_owned(),
        kind,
        source: Source::Metrics,
        unit,
        extraction: Extraction::Prometheus { metric, quantile },
        honesty_path: None,
    }
}

fn snap(
    name: &'static str,
    kind: Kind,
    unit: &'static str,
    path: &'static str,
    honesty_path: &'static str,
) -> (r: Series)
    ensures
        r@ == snap_view(name@, kind, unit@, path@, honesty_path@),
{
    Series {
        name: name.to_owned(),
        kind,
        source: Source::Snapshot,
        unit,
        extraction: Extraction::Snapshot { path },
        honesty_path: Some(honesty_path),
    }
}

fn transfer_last(
    name: &'static str,
    unit: &'static str,
    field: &'static str,
    scale: Scale,
) -> (r: Series)
    ensures
        r@ == transfer_last_view(name@, unit@, field@, scale),
{
    Series {
        name: name.to_owned(),
        kind: Kind::Gauge,
        source: Source::Snapshot,
        unit,
        extraction: Extraction::TransferLast { field, scale },
        honesty_path: Some("transfers"),
    }
}

fn transfers_active() -> (r: Series)
    ensures
        r@ == transfers_active_view(),
{
    Series {
        name: "transfers_active".to_owned(),
        kind: Kind::Gauge,
        source: Source::Snapshot,
        unit: "transfers",
        extraction: Extraction::TransfersActive,
        honesty_path: Some("transfers"),
    }
}

fn agent_host(name: &'static str, unit: &'static str, metric: &'static str) -> (r: Series)
    ensures
        r@ == host_view(name@, unit@, metric@),
{
    Series {
        name: name.to_owned(),
        kind: Kind::Gauge,
        source: Source::Agent,
        unit,
        extraction: Extraction::Agent { metric, gpu: None },
        honesty_path: None,
    }
}

fn reading(i: u64) -> (r: (&'static str, &'static str, &'static str))
    ensures
        (r.0@, r.1@, r.2@) == gpu_reading(i as int),
{
    if i == 0 {
        ("_utilization_ratio", "ratio", "muser_gpu_utilization_ratio")
    } else if i == 1 {
        ("_power_watts", "W", "muser_gpu_power_watts")
    } else if i == 2 {
        ("_temperature_celsius", "°C", "muser_gpu_temperature_celsius")
    } else if i == 3 {
        ("_memory_used_bytes", "bytes", "muser_gpu_memory_used_bytes")
    } else {
        ("_memory_total_bytes", "bytes", "muser_gpu_memory_total_bytes")
    }
}

fn agent_gpu(gpu: u64, i: u64) -> (r: Series)
    ensures
        r@ == gpu_view(gpu as int, i as int),
{
    let (suffix, unit, metric) = reading(i);
    let index = decimal_of(gpu);
    Series {
        name: cat3("gpu", index.as_str(), suffix),
        kind: Kind::Gauge,
        source: Source::Agent,
        unit,
        extraction: Extraction::Agent { metric, gpu: Some(index) },
        honesty_path: None,
    }
}

fn engine_series() -> (v: Vec<Series>)
    ensures
        v@.len() == engine_count(),
        forall|i: int| 0 <= i < engine_count() ==> (#[trigger] v@[i])@ == engine(i),
{
    let mut v: Vec<Series> = Vec::new();
    v.push(prom("decode_tok_s", Kind::Gauge, "tok/s", "completion_traffic_tok_s_10s", None));
    v.push(prom("request_decode_tok_s", Kind::Gauge, "tok/s", "muser_request_decode_tok_s", None));
    v.push(prom("queue_depth", Kind::Gauge, "requests", "muser_queue_depth", None));
    v.push(prom("overload_rejections_total", Kind::Counter, "requests", "muser_overload_rejections_total", None));
    v.push(prom("completion_tokens_total", Kind::Counter, "tokens", "muser_completion_tokens_total", None));
    v.push(prom("ttft_ms_p50", Kind::Gauge, "ms", "muser_ttft_milliseconds", Some("0.50")));
    v.push(prom("ttft_ms_p95", Kind::Gauge, "ms", "muser_ttft_milliseconds", Some("0.95")));
    v.push(prom("itl_ms_p50", Kind::Gauge, "ms", "muser_itl_milliseconds", Some("0.50")));
    v.push(prom("itl_ms_p95", Kind::Gauge, "ms", "muser_itl_milliseconds", Some("0.95")));
    v.push(prom("dflash_accept_rate", Kind::Gauge, "ratio", "muser_dflash_acceptance_ratio", None));
    v.push(snap("requests_per_s", Kind::Gauge, "req/s", "wire.requests_per_s", "wire.requests_per_s"));
    v.push(snap("wire_ingress_gbps", Kind::Gauge, "Gb/s", "wire.ingress_gbps", "wire.ingress_gbps"));
    v.push(snap("dflash_drafted_total", Kind::Counter, "tokens", "specdec.cumulative_drafted", "specdec"));
    v.push(snap("dflash_accepted_total", Kind::Counter, "tokens", "specdec.cumulative_accepted", "specdec"));
    v.push(snap("dflash_ane_route_failures_total", Kind::Counter, "attempts", "specdec.ane_route_failures", "specdec"));
    v.push(snap("dflash_metal_route_failures_total", Kind::Counter, "attempts", "specdec.metal_route_failures", "specdec"));
    v.push(snap("remote_fallbacks_total", Kind::Counter, "requests", "_remote.fallbacks", "_remote"));
    v.push(transfers_active());
    v.push(transfer_last("transfer_last_bytes_total", "bytes", "bytes_total", Scale::Unit));
    v.push(transfer_last("transfer_last_throughput_gbps", "Gb/s", "throughput_gbps", Scale::Unit));
    v.push(transfer_last("transfer_last_hidden_pct", "ratio", "hidden_pct", Scale::Unit));
    v.push(transfer_last("transfer_last_control_ms", "ms", "_control_ns", Scale::NanosToMillis));
    v.push(transfer_last("transfer_last_accept_ms", "ms", "_accept_ns", Scale::NanosToMillis));
    v.push(snap("disagg_prefills_total", Kind::Counter, "prefills", "economics.disagg_prefills", "economics.counters"));
    v.push(snap("disagg_bytes_installed_total", Kind::Counter, "bytes", "economics.disagg_bytes_installed", "economics.counters"));
    v
}

/// Everything that can be stored: engine series first, agent series after,
/// each half in its own declared order.
pub fn all() -> (v: Vec<Series>)
    ensures
        entries(v@) == catalog(),
{
    let mut v = engine_series();
    let mut gpu: u64 = 0;
    while gpu < 8
        invariant
            gpu <= 8,
            v@.len() == engine_count() + gpu * readings_per_gpu(),
            forall|i: int| 0 <= i < v@.len() ==> (#[trigger] v@[i])@ == catalog()[i],
        decreases 8 - gpu,
    {
        let mut i: u64 = 0;
        while i < 5
            invariant
                gpu < 8,
                i <= 5,
                v@.len() == engine_count() + gpu * readings_per_gpu() + i,
                forall|i: int| 0 <= i < v@.len() ==> (#[trigger] v@[i])@ == catalog()[i],
            decreases 5 - i,
        {
            proof {
                let k = v@.len() as int;
                assert((k - engine_count()) / 5 == gpu && (k - engine_count()) % 5 == i);
                assert(catalog()[k] == gpu_view(gpu as int, i as int));
            }
            v.push(agent_gpu(gpu, i));
            i += 1;
        }
        gpu += 1;
    }
    v.push(agent_host("host_package_power_watts", "W", "muser_host_package_power_watts"));
    v.push(agent_host("host_cpu_power_watts", "W", "muser_host_cpu_power_watts"));
    v.push(agent_host("host_gpu_power_watts", "W", "muser_host_gpu_power_watts"));
    assert(entries(v@) =~= catalog());
    v
}

/// The position of the first entry named `name`, from `from` on.
pub open spec fn position(series: Seq<SeriesView>, name: Seq<char>) -> Option<int>
    decreases series.len(),
{
    if series.len() == 0 {
        None
    } else if series[0].name == name {
        Some(0)
    } else {
        match position(series.skip(1), name) {
            Some(i) => Some(i + 1),
            None => None,
        }
    }
}

/// The entry named `name`.
pub open spec fn named(name: Seq<char>) -> Option<SeriesView> {
    match position(catalog(), name) {
        Some(i) => Some(catalog()[i]),
        None => None,
    }
}

/// Exact-string lookup: an unknown name is never a guess.
pub fn lookup(name: &str) -> (r: Option<Series>)
    ensures
        match r {
            Some(series) => named(name@) == Some(series@),
            None => named(name@) is None,
        },
{
    let mut v = all();
    let ghost all = entries(v@);
    assert(all.skip(0) =~= all);
    let mut i: usize = 0;
    while i < v.len()
        invariant
            i <= v@.len(),
            all == entries(v@),
            all == catalog(),
            position(all, name@) == match position(all.skip(i as int), name@) {
                Some(k) => Some(k + i),
                None => None,
            },
        decreases v@.len() - i,
    {
        let ghost s = all.skip(i as int);
        assert(s[0] == v@[i as int]@);
        if same(v[i].name.as_str(), name) {
            assert(all[i as int] == v@[i as int]@);
            return Some(v.swap_remove(i));
        }
        assert(s.skip(1) =~= all.skip(i + 1));
        i += 1;
    }
    None
}

/// The entries of one source, in order.
pub open spec fn of_source(series: Seq<SeriesView>, source: Source) -> Seq<SeriesView>
    decreases series.len(),
{
    if series.len() == 0 {
        Seq::empty()
    } else {
        let head = of_source(series.drop_last(), source);
        if series.last().source == source {
            head.push(series.last())
        } else {
            head
        }
    }
}

/// The catalog's entries of one source, in catalog order.
pub fn with_source(source: Source) -> (r: Vec<Series>)
    ensures
        entries(r@) == of_source(catalog(), source),
{
    let mut r: Vec<Series> = Vec::new();
    let v = all();
    assert(entries(r@) =~= of_source(catalog().take(0), source));
    for s in it: v
        invariant
            entries(r@) == of_source(catalog().take(it.index() as int), source),
            entries(it.seq()) == catalog(),
    {
        let ghost i = it.index() as int;
        let ghost before = entries(r@);
        proof {
            let next = catalog().take(i + 1);
            assert(next.drop_last() =~= catalog().take(i));
            assert(next.last() == entries(it.seq())[i]);
            assert(next.last() == s@);
        }
        if s.source == source {
            let ghost sv = s@;
            r.push(s);
            assert(entries(r@) =~= before.push(sv));
        }
    }
    assert(catalog().take(catalog().len() as int) =~= catalog());
    r
}

// ---------------------------------------------------------------------------
// Laws

/// The names that do not carry a device: those of the engine, then those of
/// the host.
spec fn fixed_name(i: int) -> Seq<char> {
    if i < engine_count() {
        engine(i).name
    } else {
        host(i - engine_count()).name
    }
}

/// Length, sixth and last character tell the fixed names apart.
spec fn fingerprint(name: Seq<char>) -> (nat, char, char) {
    (name.len(), name[5], name.last())
}

spec fn fingerprint_of(i: int) -> (nat, char, char) {
    if i == 0 {
        (12nat, 'e', 's')
    } else if i == 1 {
        (20nat, 's', 's')
    } else if i == 2 {
        (11nat, '_', 'h')
    } else if i == 3 {
        (25nat, 'o', 'l')
    } else if i == 4 {
        (23nat, 'e', 'l')
    } else if i == 5 {
        (11nat, 'm', '0')
    } else if i == 6 {
        (11nat, 'm', '5')
    } else if i == 7 {
        (10nat, 's', '0')
    } else if i == 8 {
        (10nat, 's', '5')
    } else if i == 9 {
        (18nat, 'h', 'e')
    } else if i == 10 {
        (14nat, 's', 's')
    } else if i == 11 {
        (17nat, 'i', 's')
    } else if i == 12 {
        (20nat, 'h', 'l')
    } else if i == 13 {
        (21nat, 'h', 'l')
    } else if i == 14 {
        (31nat, 'h', 'l')
    } else if i == 15 {
        (33nat, 'h', 'l')
    } else if i == 16 {
        (22nat, 'e', 'l')
    } else if i == 17 {
        (16nat, 'f', 'e')
    } else if i == 18 {
        (25nat, 'f', 'l')
    } else if i == 19 {
        (29nat, 'f', 's')
    } else if i == 20 {
        (24nat, 'f', 't')
    } else if i == 21 {
        (24nat, 'f', 's')
    } else if i == 22 {
        (23nat, 'f', 's')
    } else if i == 23 {
        (21nat, 'g', 'l')
    } else if i == 24 {
        (28nat, 'g', 'l')
    } else if i == 25 {
        (24nat, 'p', 's')
    } else if i == 26 {
        (20nat, 'c', 's')
    } else {
        (20nat, 'g', 's')
    }
}

proof fn lemma_fixed_name(i: int)
    requires
        0 <= i < engine_count() + 3,
    ensures
        fingerprint(fixed_name(i)) == fingerprint_of(i),
        fixed_name(i).len() > 0,
        fixed_name(i)[0] != 'g',
        names_receipt(fixed_name(i)) <==> 18 <= i < 23,
{
    let prefix = "transfer_last_"@;
    let name = fixed_name(i);
    reveal_strlit("transfer_last_");
    if names_receipt(name) {
        assert(name.take(14)[0] == prefix[0] && name.take(14)[8] == prefix[8]);
    }
    if i == 0 {
        reveal_strlit("decode_tok_s");
    }
    if i == 1 {
        reveal_strlit("request_decode_tok_s");
    }
    if i == 2 {
        reveal_strlit("queue_depth");
    }
    if i == 3 {
        reveal_strlit("overload_rejections_total");
    }
    if i == 4 {
        reveal_strlit("completion_tokens_total");
    }
    if i == 5 {
        reveal_strlit("ttft_ms_p50");
    }
    if i == 6 {
        reveal_strlit("ttft_ms_p95");
    }
    if i == 7 {
        reveal_strlit("itl_ms_p50");
    }
    if i == 8 {
        reveal_strlit("itl_ms_p95");
    }
    if i == 9 {
        reveal_strlit("dflash_accept_rate");
    }
    if i == 10 {
        reveal_strlit("requests_per_s");
    }
    if i == 11 {
        reveal_strlit("wire_ingress_gbps");
    }
    if i == 12 {
        reveal_strlit("dflash_drafted_total");
    }
    if i == 13 {
        reveal_strlit("dflash_accepted_total");
    }
    if i == 14 {
        reveal_strlit("dflash_ane_route_failures_total");
    }
    if i == 15 {
        reveal_strlit("dflash_metal_route_failures_total");
    }
    if i == 16 {
        reveal_strlit("remote_fallbacks_total");
    }
    if i == 17 {
        reveal_strlit("transfers_active");
    }
    if i == 18 {
        reveal_strlit("transfer_last_bytes_total");
        assert(name.take(14) =~= prefix);
    }
    if i == 19 {
        reveal_strlit("transfer_last_throughput_gbps");
        assert(name.take(14) =~= prefix);
    }
    if i == 20 {
        reveal_strlit("transfer_last_hidden_pct");
        assert(name.take(14) =~= prefix);
    }
    if i == 21 {
        reveal_strlit("transfer_last_control_ms");
        assert(name.take(14) =~= prefix);
    }
    if i == 22 {
        reveal_strlit("transfer_last_accept_ms");
        assert(name.take(14) =~= prefix);
    }
    if i == 23 {
        reveal_strlit("disagg_prefills_total");
    }
    if i == 24 {
        reveal_strlit("disagg_bytes_installed_total");
    }
    if i == 25 {
        reveal_strlit("host_package_power_watts");
    }
    if i == 26 {
        reveal_strlit("host_cpu_power_watts");
    }
    if i == 27 {
        reveal_strlit("host_gpu_power_watts");
    }
}

proof fn lemma_fingerprints(i: int, j: int)
    requires
        0 <= i < j < engine_count() + 3,
    ensures
        fingerprint_of(i) != fingerprint_of(j),
{
}

proof fn lemma_gpu_name(gpu: int, reading: int)
    requires
        0 <= gpu < MAX_AGENT_GPUS,
        0 <= reading < readings_per_gpu(),
    ensures
        ({
            let name = gpu_view(gpu, reading).name;
            let suffix = gpu_reading(reading).0;
            &&& name.len() == 4 + suffix.len()
            &&& name[0] == 'g'
            &&& name[3] == (gpu + 48) as char
            &&& name[5] == suffix[1]
        }),
{
    reveal_strlit("gpu");
    reveal_strlit("_utilization_ratio");
    reveal_strlit("_power_watts");
    reveal_strlit("_temperature_celsius");
    reveal_strlit("_memory_used_bytes");
    reveal_strlit("_memory_total_bytes");
    lemma_small_decimal(gpu as nat);
    let name = gpu_view(gpu, reading).name;
    let suffix = gpu_reading(reading).0;
    assert(suffix.len() > 1);
    assert(name[5] == suffix[1]);
}

proof fn lemma_gpu_suffixes(r: int, s: int)
    requires
        0 <= r < s < readings_per_gpu(),
    ensures
        gpu_reading(r).0.len() != gpu_reading(s).0.len() || gpu_reading(r).0[1]
            != gpu_reading(s).0[1],
{
    reveal_strlit("_utilization_ratio");
    reveal_strlit("_power_watts");
    reveal_strlit("_temperature_celsius");
    reveal_strlit("_memory_used_bytes");
    reveal_strlit("_memory_total_bytes");
}

/// What the series of the last transfer are called, and no others.
pub open spec fn names_receipt(name: Seq<char>) -> bool {
    starts(name, "transfer_last_"@)
}

/// The series that the last transfer feeds, and no others, are named for it.
pub proof fn law_receipt_series_are_named_so(i: int)
    requires
        0 <= i < series_count(),
    ensures
        names_receipt(catalog()[i].name) <==> catalog()[i].extraction is TransferLast,
{
    let devices = MAX_AGENT_GPUS * readings_per_gpu();
    let e = engine_count();
    if e <= i < e + devices {
        assert(catalog()[i] == gpu_view((i - e) / 5, (i - e) % 5));
        lemma_gpu_name((i - e) / 5, (i - e) % 5);
        let name = catalog()[i].name;
        reveal_strlit("transfer_last_");
        if names_receipt(name) {
            assert(name.take(14)[0] == "transfer_last_"@[0]);
        }
    } else {
        let f = if i < e { i } else { i - devices };
        lemma_fixed_name(f);
        assert(catalog()[i].name == fixed_name(f));
    }
}

/// One name, one series: no two catalog entries share a name.
pub proof fn law_names_are_unique(i: int, j: int)
    requires
        0 <= i < j < series_count(),
    ensures
        catalog()[i].name != catalog()[j].name,
{
    let devices = MAX_AGENT_GPUS * readings_per_gpu();
    let e = engine_count();
    let i_device = e <= i < e + devices;
    let j_device = e <= j < e + devices;
    let fi = if i < e { i } else { i - devices };
    let fj = if j < e { j } else { j - devices };
    if !i_device {
        lemma_fixed_name(fi);
        assert(catalog()[i].name == fixed_name(fi));
    } else {
        assert(catalog()[i] == gpu_view((i - e) / 5, (i - e) % 5));
        lemma_gpu_name((i - e) / 5, (i - e) % 5);
    }
    if !j_device {
        lemma_fixed_name(fj);
        assert(catalog()[j].name == fixed_name(fj));
    } else {
        assert(catalog()[j] == gpu_view((j - e) / 5, (j - e) % 5));
        lemma_gpu_name((j - e) / 5, (j - e) % 5);
    }
    if !i_device && !j_device {
        lemma_fingerprints(fi, fj);
    } else if i_device && j_device {
        let (g, r) = ((i - e) / 5, (i - e) % 5);
        let (h, s) = ((j - e) / 5, (j - e) % 5);
        if g == h {
            assert(r < s);
            lemma_gpu_suffixes(r, s);
        }
    }
}

/// Looking a catalog name up finds its own entry.
pub proof fn law_lookup_finds_every_entry(i: int)
    requires
        0 <= i < series_count(),
    ensures
        named(catalog()[i].name) == Some(catalog()[i]),
{
    let all = catalog();
    lemma_position(all, all[i].name);
    let k = position(all, all[i].name);
    assert(k is Some);
    let k = k->0;
    if k < i {
        law_names_are_unique(k, i);
    } else if i < k {
        law_names_are_unique(i, k);
    }
}

proof fn lemma_position(series: Seq<SeriesView>, name: Seq<char>)
    ensures
        match position(series, name) {
            Some(k) => 0 <= k < series.len() && series[k].name == name,
            None => forall|i: int| 0 <= i < series.len() ==> (#[trigger] series[i]).name != name,
        },
    decreases series.len(),
{
    if series.len() > 0 && series[0].name != name {
        let t = series.skip(1);
        lemma_position(t, name);
        if position(t, name) is None {
            assert forall|i: int| 0 <= i < series.len() implies (#[trigger] series[i]).name
                != name by {
                if i > 0 {
                    assert(t[i - 1] == series[i]);
                }
            }
        }
    }
}

/// A name that looks up is a catalog name, and its entry carries that name.
pub proof fn law_lookup_answers_only_its_name(name: Seq<char>)
    ensures
        named(name) matches Some(entry) ==> entry.name == name && catalog().contains(entry),
        named(name) is None ==> forall|i: int|
            0 <= i < series_count() ==> (#[trigger] catalog()[i]).name != name,
{
    lemma_position(catalog(), name);
}

/// Only snapshot series name an honesty path, and every series is extracted
/// from the document its source says.
pub proof fn law_entries_match_their_source(i: int)
    requires
        0 <= i < series_count(),
    ensures
        catalog()[i].honesty_path is Some <==> catalog()[i].source == Source::Snapshot,
        match catalog()[i].extraction {
            ExtractionView::Prometheus { .. } => catalog()[i].source == Source::Metrics,
            ExtractionView::Agent { .. } => catalog()[i].source == Source::Agent,
            _ => catalog()[i].source == Source::Snapshot,
        },
{
    if i >= engine_count() + MAX_AGENT_GPUS * readings_per_gpu() {
        assert(catalog()[i] == host(i - engine_count() - MAX_AGENT_GPUS * readings_per_gpu()));
    } else if i >= engine_count() {
        assert(catalog()[i] == gpu_view((i - engine_count()) / 5, (i - engine_count()) % 5));
    } else {
        assert(catalog()[i] == engine(i));
    }
}

/// A per-device series is named after the device whose `gpu` label it selects.
pub proof fn law_device_series_name_their_device(i: int)
    requires
        0 <= i < series_count(),
    ensures
        match catalog()[i].extraction {
            ExtractionView::Agent { metric, gpu: Some(index) } => {
                let prefix = "gpu"@ + index;
                prefix.is_prefix_of(catalog()[i].name)
            },
            _ => true,
        },
{
    let e = engine_count();
    if e <= i < e + MAX_AGENT_GPUS * readings_per_gpu() {
        let v = gpu_view((i - e) / 5, (i - e) % 5);
        assert(catalog()[i] == v);
        let index = decimal(((i - e) / 5) as nat);
        assert(v.name.take(("gpu"@ + index).len() as int) =~= "gpu"@ + index);
    } else if i >= e {
        assert(catalog()[i] == host(i - e - MAX_AGENT_GPUS * readings_per_gpu()));
    } else {
        assert(catalog()[i] == engine(i));
    }
}

/// Each source is read back from the text it is stored under, and no other
/// text names a source.
pub proof fn law_source_text_round_trips(source: Source, text: Seq<char>)
    ensures
        Source::stored(source.text()) == Some(source),
        Source::stored(text) matches Some(found) ==> found.text() == text,
{
    reveal_strlit("metrics");
    reveal_strlit("snapshot");
    reveal_strlit("agent");
    assert("metrics"@.len() == 7 && "snapshot"@.len() == 8 && "agent"@.len() == 5);
}

/// Each honesty is read back from its tag, and no other tag is honest:
/// `mock` names nothing.
pub proof fn law_honesty_tag_round_trips(honesty: Honesty, tag: Seq<char>)
    ensures
        Honesty::tagged(honesty.text()) == Some(honesty),
        Honesty::tagged(tag) matches Some(found) ==> found.text() == tag,
        Honesty::tagged("mock"@) is None,
{
    reveal_strlit("measured");
    reveal_strlit("target");
    reveal_strlit("agent-measured");
    reveal_strlit("mock");
    assert("measured"@.len() == 8 && "target"@.len() == 6 && "agent-measured"@.len() == 14);
    assert("mock"@.len() == 4);
}

// ---------------------------------------------------------------------------
// What names tell

/// What a name ends in.
pub open spec fn ends(name: Seq<char>, suffix: Seq<char>) -> bool {
    suffix.is_suffix_of(name)
}

proof fn lemma_ends(name: Seq<char>, suffix: Seq<char>, j: int)
    requires
        0 < j <= suffix.len(),
        j <= name.len(),
        name[name.len() - j] != suffix[suffix.len() - j],
    ensures
        !ends(name, suffix),
{
    if ends(name, suffix) {
        let tail = name.subrange(name.len() - suffix.len(), name.len() as int);
        assert(tail[suffix.len() - j] == name[name.len() - j]);
    }
}

#[verifier::rlimit(60)]
proof fn lemma_endings(i: int)
    requires
        0 <= i < engine_count() + 3,
    ensures
        ends(fixed_name(i), "_p50"@) <==> i == 5 || i == 7,
        ends(fixed_name(i), "_p95"@) <==> i == 6 || i == 8,
        ends(fixed_name(i), "_total"@) <==> i == 3 || i == 4 || i == 12 || i == 13 || i == 14 || i == 15 || i == 16 || i == 18 || i == 23 || i == 24,
        ends(fixed_name(i), "_ms"@) <==> i == 21 || i == 22,
        ends(fixed_name(i), "_gbps"@) <==> i == 11 || i == 19,
        ends(fixed_name(i), "_tok_s"@) <==> i == 0 || i == 1,
        ends(fixed_name(i), "_per_s"@) <==> i == 10,
        ends(fixed_name(i), "_watts"@) <==> i == 25 || i == 26 || i == 27,
{
    let name = fixed_name(i);
    reveal_strlit("_p50");
    reveal_strlit("_p95");
    reveal_strlit("_total");
    reveal_strlit("_ms");
    reveal_strlit("_gbps");
    reveal_strlit("_tok_s");
    reveal_strlit("_per_s");
    reveal_strlit("_watts");
    if i == 0 {
        reveal_strlit("decode_tok_s");
        lemma_ends(name, "_p50"@, 1);
        lemma_ends(name, "_p95"@, 1);
        lemma_ends(name, "_total"@, 1);
        lemma_ends(name, "_ms"@, 2);
        lemma_ends(name, "_gbps"@, 2);
        assert(name.subrange(6, 12) =~= "_tok_s"@);
        lemma_ends(name, "_per_s"@, 3);
        lemma_ends(name, "_watts"@, 2);
    }
    if i == 1 {
        reveal_strlit("request_decode_tok_s");
        lemma_ends(name, "_p50"@, 1);
        lemma_ends(name, "_p95"@, 1);
        lemma_ends(name, "_total"@, 1);
        lemma_ends(name, "_ms"@, 2);
        lemma_ends(name, "_gbps"@, 2);
        assert(name.subrange(14, 20) =~= "_tok_s"@);
        lemma_ends(name, "_per_s"@, 3);
        lemma_ends(name, "_watts"@, 2);
    }
    if i == 2 {
        reveal_strlit("queue_depth");
        lemma_ends(name, "_p50"@, 1);
        lemma_ends(name, "_p95"@, 1);
        lemma_ends(name, "_total"@, 1);
        lemma_ends(name, "_ms"@, 1);
        lemma_ends(name, "_gbps"@, 1);
        lemma_ends(name, "_tok_s"@, 1);
        lemma_ends(name, "_per_s"@, 1);
        lemma_ends(name, "_watts"@, 1);
    }
    if i == 3 {
        reveal_strlit("overload_rejections_total");
        lemma_ends(name, "_p50"@, 1);
        lemma_ends(name, "_p95"@, 1);
        assert(name.subrange(19, 25) =~= "_total"@);
        lemma_ends(name, "_ms"@, 1);
        lemma_ends(name, "_gbps"@, 1);
        lemma_ends(name, "_tok_s"@, 1);
        lemma_ends(name, "_per_s"@, 1);
        lemma_ends(name, "_watts"@, 1);
    }
    if i == 4 {
        reveal_strlit("completion_tokens_total");
        lemma_ends(name, "_p50"@, 1);
        lemma_ends(name, "_p95"@, 1);
        assert(name.subrange(17, 23) =~= "_total"@);
        lemma_ends(name, "_ms"@, 1);
        lemma_ends(name, "_gbps"@, 1);
        lemma_ends(name, "_tok_s"@, 1);
        lemma_ends(name, "_per_s"@, 1);
        lemma_ends(name, "_watts"@, 1);
    }
    if i == 5 {
        reveal_strlit("ttft_ms_p50");
        assert(name.subrange(7, 11) =~= "_p50"@);
        lemma_ends(name, "_p95"@, 1);
        lemma_ends(name, "_total"@, 1);
        lemma_ends(name, "_ms"@, 1);
        lemma_ends(name, "_gbps"@, 1);
        lemma_ends(name, "_tok_s"@, 1);
        lemma_ends(name, "_per_s"@, 1);
        lemma_ends(name, "_watts"@, 1);
    }
    if i == 6 {
        reveal_strlit("ttft_ms_p95");
        lemma_ends(name, "_p50"@, 1);
        assert(name.subrange(7, 11) =~= "_p95"@);
        lemma_ends(name, "_total"@, 1);
        lemma_ends(name, "_ms"@, 1);
        lemma_ends(name, "_gbps"@, 1);
        lemma_ends(name, "_tok_s"@, 1);
        lemma_ends(name, "_per_s"@, 1);
        lemma_ends(name, "_watts"@, 1);
    }
    if i == 7 {
        reveal_strlit("itl_ms_p50");
        assert(name.subrange(6, 10) =~= "_p50"@);
        lemma_ends(name, "_p95"@, 1);
        lemma_ends(name, "_total"@, 1);
        lemma_ends(name, "_ms"@, 1);
        lemma_ends(name, "_gbps"@, 1);
        lemma_ends(name, "_tok_s"@, 1);
        lemma_ends(name, "_per_s"@, 1);
        lemma_ends(name, "_watts"@, 1);
    }
    if i == 8 {
        reveal_strlit("itl_ms_p95");
        lemma_ends(name, "_p50"@, 1);
        assert(name.subrange(6, 10) =~= "_p95"@);
        lemma_ends(name, "_total"@, 1);
        lemma_ends(name, "_ms"@, 1);
        lemma_ends(name, "_gbps"@, 1);
        lemma_ends(name, "_tok_s"@, 1);
        lemma_ends(name, "_per_s"@, 1);
        lemma_ends(name, "_watts"@, 1);
    }
    if i == 9 {
        reveal_strlit("dflash_accept_rate");
        lemma_ends(name, "_p50"@, 1);
        lemma_ends(name, "_p95"@, 1);
        lemma_ends(name, "_total"@, 1);
        lemma_ends(name, "_ms"@, 1);
        lemma_ends(name, "_gbps"@, 1);
        lemma_ends(name, "_tok_s"@, 1);
        lemma_ends(name, "_per_s"@, 1);
        lemma_ends(name, "_watts"@, 1);
    }
    if i == 10 {
        reveal_strlit("requests_per_s");
        lemma_ends(name, "_p50"@, 1);
        lemma_ends(name, "_p95"@, 1);
        lemma_ends(name, "_total"@, 1);
        lemma_ends(name, "_ms"@, 2);
        lemma_ends(name, "_gbps"@, 2);
        lemma_ends(name, "_tok_s"@, 3);
        assert(name.subrange(8, 14) =~= "_per_s"@);
        lemma_ends(name, "_watts"@, 2);
    }
    if i == 11 {
        reveal_strlit("wire_ingress_gbps");
        lemma_ends(name, "_p50"@, 1);
        lemma_ends(name, "_p95"@, 1);
        lemma_ends(name, "_total"@, 1);
        lemma_ends(name, "_ms"@, 2);
        assert(name.subrange(12, 17) =~= "_gbps"@);
        lemma_ends(name, "_tok_s"@, 2);
        lemma_ends(name, "_per_s"@, 2);
        lemma_ends(name, "_watts"@, 2);
    }
    if i == 12 {
        reveal_strlit("dflash_drafted_total");
        lemma_ends(name, "_p50"@, 1);
        lemma_ends(name, "_p95"@, 1);
        assert(name.subrange(14, 20) =~= "_total"@);
        lemma_ends(name, "_ms"@, 1);
        lemma_ends(name, "_gbps"@, 1);
        lemma_ends(name, "_tok_s"@, 1);
        lemma_ends(name, "_per_s"@, 1);
        lemma_ends(name, "_watts"@, 1);
    }
    if i == 13 {
        reveal_strlit("dflash_accepted_total");
        lemma_ends(name, "_p50"@, 1);
        lemma_ends(name, "_p95"@, 1);
        assert(name.subrange(15, 21) =~= "_total"@);
        lemma_ends(name, "_ms"@, 1);
        lemma_ends(name, "_gbps"@, 1);
        lemma_ends(name, "_tok_s"@, 1);
        lemma_ends(name, "_per_s"@, 1);
        lemma_ends(name, "_watts"@, 1);
    }
    if i == 14 {
        reveal_strlit("dflash_ane_route_failures_total");
        lemma_ends(name, "_p50"@, 1);
        lemma_ends(name, "_p95"@, 1);
        assert(name.subrange(25, 31) =~= "_total"@);
        lemma_ends(name, "_ms"@, 1);
        lemma_ends(name, "_gbps"@, 1);
        lemma_ends(name, "_tok_s"@, 1);
        lemma_ends(name, "_per_s"@, 1);
        lemma_ends(name, "_watts"@, 1);
    }
    if i == 15 {
        reveal_strlit("dflash_metal_route_failures_total");
        lemma_ends(name, "_p50"@, 1);
        lemma_ends(name, "_p95"@, 1);
        assert(name.subrange(27, 33) =~= "_total"@);
        lemma_ends(name, "_ms"@, 1);
        lemma_ends(name, "_gbps"@, 1);
        lemma_ends(name, "_tok_s"@, 1);
        lemma_ends(name, "_per_s"@, 1);
        lemma_ends(name, "_watts"@, 1);
    }
    if i == 16 {
        reveal_strlit("remote_fallbacks_total");
        lemma_ends(name, "_p50"@, 1);
        lemma_ends(name, "_p95"@, 1);
        assert(name.subrange(16, 22) =~= "_total"@);
        lemma_ends(name, "_ms"@, 1);
        lemma_ends(name, "_gbps"@, 1);
        lemma_ends(name, "_tok_s"@, 1);
        lemma_ends(name, "_per_s"@, 1);
        lemma_ends(name, "_watts"@, 1);
    }
    if i == 17 {
        reveal_strlit("transfers_active");
        lemma_ends(name, "_p50"@, 1);
        lemma_ends(name, "_p95"@, 1);
        lemma_ends(name, "_total"@, 1);
        lemma_ends(name, "_ms"@, 1);
        lemma_ends(name, "_gbps"@, 1);
        lemma_ends(name, "_tok_s"@, 1);
        lemma_ends(name, "_per_s"@, 1);
        lemma_ends(name, "_watts"@, 1);
    }
    if i == 18 {
        reveal_strlit("transfer_last_bytes_total");
        lemma_ends(name, "_p50"@, 1);
        lemma_ends(name, "_p95"@, 1);
        assert(name.subrange(19, 25) =~= "_total"@);
        lemma_ends(name, "_ms"@, 1);
        lemma_ends(name, "_gbps"@, 1);
        lemma_ends(name, "_tok_s"@, 1);
        lemma_ends(name, "_per_s"@, 1);
        lemma_ends(name, "_watts"@, 1);
    }
    if i == 19 {
        reveal_strlit("transfer_last_throughput_gbps");
        lemma_ends(name, "_p50"@, 1);
        lemma_ends(name, "_p95"@, 1);
        lemma_ends(name, "_total"@, 1);
        lemma_ends(name, "_ms"@, 2);
        assert(name.subrange(24, 29) =~= "_gbps"@);
        lemma_ends(name, "_tok_s"@, 2);
        lemma_ends(name, "_per_s"@, 2);
        lemma_ends(name, "_watts"@, 2);
    }
    if i == 20 {
        reveal_strlit("transfer_last_hidden_pct");
        lemma_ends(name, "_p50"@, 1);
        lemma_ends(name, "_p95"@, 1);
        lemma_ends(name, "_total"@, 1);
        lemma_ends(name, "_ms"@, 1);
        lemma_ends(name, "_gbps"@, 1);
        lemma_ends(name, "_tok_s"@, 1);
        lemma_ends(name, "_per_s"@, 1);
        lemma_ends(name, "_watts"@, 1);
    }
    if i == 21 {
        reveal_strlit("transfer_last_control_ms");
        lemma_ends(name, "_p50"@, 1);
        lemma_ends(name, "_p95"@, 1);
        lemma_ends(name, "_total"@, 1);
        assert(name.subrange(21, 24) =~= "_ms"@);
        lemma_ends(name, "_gbps"@, 2);
        lemma_ends(name, "_tok_s"@, 2);
        lemma_ends(name, "_per_s"@, 2);
        lemma_ends(name, "_watts"@, 2);
    }
    if i == 22 {
        reveal_strlit("transfer_last_accept_ms");
        lemma_ends(name, "_p50"@, 1);
        lemma_ends(name, "_p95"@, 1);
        lemma_ends(name, "_total"@, 1);
        assert(name.subrange(20, 23) =~= "_ms"@);
        lemma_ends(name, "_gbps"@, 2);
        lemma_ends(name, "_tok_s"@, 2);
        lemma_ends(name, "_per_s"@, 2);
        lemma_ends(name, "_watts"@, 2);
    }
    if i == 23 {
        reveal_strlit("disagg_prefills_total");
        lemma_ends(name, "_p50"@, 1);
        lemma_ends(name, "_p95"@, 1);
        assert(name.subrange(15, 21) =~= "_total"@);
        lemma_ends(name, "_ms"@, 1);
        lemma_ends(name, "_gbps"@, 1);
        lemma_ends(name, "_tok_s"@, 1);
        lemma_ends(name, "_per_s"@, 1);
        lemma_ends(name, "_watts"@, 1);
    }
    if i == 24 {
        reveal_strlit("disagg_bytes_installed_total");
        lemma_ends(name, "_p50"@, 1);
        lemma_ends(name, "_p95"@, 1);
        assert(name.subrange(22, 28) =~= "_total"@);
        lemma_ends(name, "_ms"@, 1);
        lemma_ends(name, "_gbps"@, 1);
        lemma_ends(name, "_tok_s"@, 1);
        lemma_ends(name, "_per_s"@, 1);
        lemma_ends(name, "_watts"@, 1);
    }
    if i == 25 {
        reveal_strlit("host_package_power_watts");
        lemma_ends(name, "_p50"@, 1);
        lemma_ends(name, "_p95"@, 1);
        lemma_ends(name, "_total"@, 1);
        lemma_ends(name, "_ms"@, 2);
        lemma_ends(name, "_gbps"@, 2);
        lemma_ends(name, "_tok_s"@, 2);
        lemma_ends(name, "_per_s"@, 2);
        assert(name.subrange(18, 24) =~= "_watts"@);
    }
    if i == 26 {
        reveal_strlit("host_cpu_power_watts");
        lemma_ends(name, "_p50"@, 1);
        lemma_ends(name, "_p95"@, 1);
        lemma_ends(name, "_total"@, 1);
        lemma_ends(name, "_ms"@, 2);
        lemma_ends(name, "_gbps"@, 2);
        lemma_ends(name, "_tok_s"@, 2);
        lemma_ends(name, "_per_s"@, 2);
        assert(name.subrange(14, 20) =~= "_watts"@);
    }
    if i == 27 {
        reveal_strlit("host_gpu_power_watts");
        lemma_ends(name, "_p50"@, 1);
        lemma_ends(name, "_p95"@, 1);
        lemma_ends(name, "_total"@, 1);
        lemma_ends(name, "_ms"@, 2);
        lemma_ends(name, "_gbps"@, 2);
        lemma_ends(name, "_tok_s"@, 2);
        lemma_ends(name, "_per_s"@, 2);
        assert(name.subrange(14, 20) =~= "_watts"@);
    }
}

/// What the names of a device's readings end in.
proof fn lemma_device_endings(gpu: int, reading: int)
    requires
        0 <= gpu < MAX_AGENT_GPUS,
        0 <= reading < readings_per_gpu(),
    ensures
        ({
            let name = gpu_view(gpu, reading).name;
            &&& !ends(name, "_p50"@)
            &&& !ends(name, "_p95"@)
            &&& !ends(name, "_total"@)
            &&& !ends(name, "_ms"@)
            &&& !ends(name, "_gbps"@)
            &&& !ends(name, "_tok_s"@)
            &&& !ends(name, "_per_s"@)
            &&& ends(name, "_watts"@) <==> reading == 1
        }),
{
    let name = gpu_view(gpu, reading).name;
    let suffix = gpu_reading(reading).0;
    lemma_gpu_name(gpu, reading);
    reveal_strlit("gpu");
    lemma_small_decimal(gpu as nat);
    assert forall|j: int| 0 < j <= suffix.len() implies name[name.len() - j] == #[trigger] suffix[
    suffix.len() - j] by {}
    reveal_strlit("_p50");
    reveal_strlit("_p95");
    reveal_strlit("_total");
    reveal_strlit("_ms");
    reveal_strlit("_gbps");
    reveal_strlit("_tok_s");
    reveal_strlit("_per_s");
    reveal_strlit("_watts");
    if reading == 0 {
        reveal_strlit("_utilization_ratio");
        let n = suffix.len() as int;
        assert(name[name.len() - 1] == suffix[n - 1]);
        lemma_ends(name, "_p50"@, 1);
        assert(name[name.len() - 1] == suffix[n - 1]);
        lemma_ends(name, "_p95"@, 1);
        assert(name[name.len() - 1] == suffix[n - 1]);
        lemma_ends(name, "_total"@, 1);
        assert(name[name.len() - 1] == suffix[n - 1]);
        lemma_ends(name, "_ms"@, 1);
        assert(name[name.len() - 1] == suffix[n - 1]);
        lemma_ends(name, "_gbps"@, 1);
        assert(name[name.len() - 1] == suffix[n - 1]);
        lemma_ends(name, "_tok_s"@, 1);
        assert(name[name.len() - 1] == suffix[n - 1]);
        lemma_ends(name, "_per_s"@, 1);
        assert(name[name.len() - 1] == suffix[n - 1]);
        lemma_ends(name, "_watts"@, 1);
    }
    if reading == 1 {
        reveal_strlit("_power_watts");
        let n = suffix.len() as int;
        assert(name[name.len() - 1] == suffix[n - 1]);
        lemma_ends(name, "_p50"@, 1);
        assert(name[name.len() - 1] == suffix[n - 1]);
        lemma_ends(name, "_p95"@, 1);
        assert(name[name.len() - 1] == suffix[n - 1]);
        lemma_ends(name, "_total"@, 1);
        assert(name[name.len() - 2] == suffix[n - 2]);
        lemma_ends(name, "_ms"@, 2);
        assert(name[name.len() - 2] == suffix[n - 2]);
        lemma_ends(name, "_gbps"@, 2);
        assert(name[name.len() - 2] == suffix[n - 2]);
        lemma_ends(name, "_tok_s"@, 2);
        assert(name[name.len() - 2] == suffix[n - 2]);
        lemma_ends(name, "_per_s"@, 2);
        assert(name.subrange(name.len() - 6, name.len() as int) =~= "_watts"@) by {
            assert(name[name.len() - 1] == suffix[n - 1]);
            assert(name[name.len() - 2] == suffix[n - 2]);
            assert(name[name.len() - 3] == suffix[n - 3]);
            assert(name[name.len() - 4] == suffix[n - 4]);
            assert(name[name.len() - 5] == suffix[n - 5]);
            assert(name[name.len() - 6] == suffix[n - 6]);
        }
    }
    if reading == 2 {
        reveal_strlit("_temperature_celsius");
        let n = suffix.len() as int;
        assert(name[name.len() - 1] == suffix[n - 1]);
        lemma_ends(name, "_p50"@, 1);
        assert(name[name.len() - 1] == suffix[n - 1]);
        lemma_ends(name, "_p95"@, 1);
        assert(name[name.len() - 1] == suffix[n - 1]);
        lemma_ends(name, "_total"@, 1);
        assert(name[name.len() - 2] == suffix[n - 2]);
        lemma_ends(name, "_ms"@, 2);
        assert(name[name.len() - 2] == suffix[n - 2]);
        lemma_ends(name, "_gbps"@, 2);
        assert(name[name.len() - 2] == suffix[n - 2]);
        lemma_ends(name, "_tok_s"@, 2);
        assert(name[name.len() - 2] == suffix[n - 2]);
        lemma_ends(name, "_per_s"@, 2);
        assert(name[name.len() - 2] == suffix[n - 2]);
        lemma_ends(name, "_watts"@, 2);
    }
    if reading == 3 {
        reveal_strlit("_memory_used_bytes");
        let n = suffix.len() as int;
        assert(name[name.len() - 1] == suffix[n - 1]);
        lemma_ends(name, "_p50"@, 1);
        assert(name[name.len() - 1] == suffix[n - 1]);
        lemma_ends(name, "_p95"@, 1);
        assert(name[name.len() - 1] == suffix[n - 1]);
        lemma_ends(name, "_total"@, 1);
        assert(name[name.len() - 2] == suffix[n - 2]);
        lemma_ends(name, "_ms"@, 2);
        assert(name[name.len() - 2] == suffix[n - 2]);
        lemma_ends(name, "_gbps"@, 2);
        assert(name[name.len() - 2] == suffix[n - 2]);
        lemma_ends(name, "_tok_s"@, 2);
        assert(name[name.len() - 2] == suffix[n - 2]);
        lemma_ends(name, "_per_s"@, 2);
        assert(name[name.len() - 2] == suffix[n - 2]);
        lemma_ends(name, "_watts"@, 2);
    }
    if reading == 4 {
        reveal_strlit("_memory_total_bytes");
        let n = suffix.len() as int;
        assert(name[name.len() - 1] == suffix[n - 1]);
        lemma_ends(name, "_p50"@, 1);
        assert(name[name.len() - 1] == suffix[n - 1]);
        lemma_ends(name, "_p95"@, 1);
        assert(name[name.len() - 1] == suffix[n - 1]);
        lemma_ends(name, "_total"@, 1);
        assert(name[name.len() - 2] == suffix[n - 2]);
        lemma_ends(name, "_ms"@, 2);
        assert(name[name.len() - 2] == suffix[n - 2]);
        lemma_ends(name, "_gbps"@, 2);
        assert(name[name.len() - 2] == suffix[n - 2]);
        lemma_ends(name, "_tok_s"@, 2);
        assert(name[name.len() - 2] == suffix[n - 2]);
        lemma_ends(name, "_per_s"@, 2);
        assert(name[name.len() - 2] == suffix[n - 2]);
        lemma_ends(name, "_watts"@, 2);
    }
}

/// Where an entry of the catalog stands: in the engine's half, among the
/// readings of a device, or among those of the host.
proof fn lemma_entry(i: int)
    requires
        0 <= i < series_count(),
    ensures
        i < 25 ==> catalog()[i] == engine(i) && catalog()[i].name == fixed_name(i),
        25 <= i < 65 ==> catalog()[i] == gpu_view((i - 25) / 5, (i - 25) % 5),
        65 <= i ==> catalog()[i] == host(i - 65) && catalog()[i].name == fixed_name(i - 40),
        series_count() == 68,
{
}

/// A series selected by a quantile is named for it: the median is read into
/// the series that end in `_p50`, the 95th percentile into those that end in
/// `_p95`, and no other series selects a quantile.
pub proof fn law_quantile_series_are_named_so(i: int)
    requires
        0 <= i < series_count(),
    ensures
        match catalog()[i].extraction {
            ExtractionView::Prometheus { metric, quantile } => {
                &&& quantile == Some("0.50"@) <==> ends(catalog()[i].name, "_p50"@)
                &&& quantile == Some("0.95"@) <==> ends(catalog()[i].name, "_p95"@)
                &&& quantile is None <==> !ends(catalog()[i].name, "_p50"@) && !ends(
                    catalog()[i].name,
                    "_p95"@,
                )
            },
            _ => !ends(catalog()[i].name, "_p50"@) && !ends(catalog()[i].name, "_p95"@),
        },
{
    lemma_entry(i);
    reveal_strlit("0.50");
    reveal_strlit("0.95");
    assert("0.50"@[2] != "0.95"@[2]);
    if i < 25 {
        lemma_endings(i);
    } else if i < 65 {
        lemma_device_endings((i - 25) / 5, (i - 25) % 5);
    } else {
        lemma_endings(i - 40);
    }
}

/// A counter is a running total and is named so: the series that end in
/// `_total` are counters, the size of the last transfer aside, and no other
/// series is one.
pub proof fn law_counters_are_named_so(i: int)
    requires
        0 <= i < series_count(),
    ensures
        catalog()[i].kind == Kind::Counter <==> ends(catalog()[i].name, "_total"@) && !starts(
            catalog()[i].name,
            "transfer_last_"@,
        ),
{
    lemma_entry(i);
    law_receipt_series_are_named_so(i);
    if i < 25 {
        lemma_endings(i);
    } else if i < 65 {
        lemma_device_endings((i - 25) / 5, (i - 25) % 5);
    } else {
        lemma_endings(i - 40);
    }
}

/// Units follow from names: what ends in `_watts` is told in watts, `_gbps` in
/// gigabits a second, `_tok_s` in tokens a second, `_per_s` in requests a
/// second, and the times, `_ms` and the quantiles, in milliseconds.
pub proof fn law_units_follow_from_names(i: int)
    requires
        0 <= i < series_count(),
    ensures
        catalog()[i].unit == "W"@ <==> ends(catalog()[i].name, "_watts"@),
        catalog()[i].unit == "Gb/s"@ <==> ends(catalog()[i].name, "_gbps"@),
        catalog()[i].unit == "tok/s"@ <==> ends(catalog()[i].name, "_tok_s"@),
        catalog()[i].unit == "req/s"@ <==> ends(catalog()[i].name, "_per_s"@),
        catalog()[i].unit == "ms"@ <==> ends(catalog()[i].name, "_ms"@) || ends(
            catalog()[i].name,
            "_p50"@,
        ) || ends(catalog()[i].name, "_p95"@),
{
    lemma_entry(i);
    lemma_units();
    if i < 25 {
        lemma_endings(i);
    } else if i < 65 {
        lemma_device_endings((i - 25) / 5, (i - 25) % 5);
    } else {
        lemma_endings(i - 40);
    }
}

proof fn lemma_units()
    ensures
        "W"@ != "Gb/s"@,
        "W"@ != "tok/s"@,
        "W"@ != "req/s"@,
        "W"@ != "ms"@,
        "W"@ != "ratio"@,
        "W"@ != "bytes"@,
        "W"@ != "requests"@,
        "W"@ != "tokens"@,
        "W"@ != "attempts"@,
        "W"@ != "transfers"@,
        "W"@ != "prefills"@,
        "W"@ != "°C"@,
        "Gb/s"@ != "tok/s"@,
        "Gb/s"@ != "req/s"@,
        "Gb/s"@ != "ms"@,
        "Gb/s"@ != "ratio"@,
        "Gb/s"@ != "bytes"@,
        "Gb/s"@ != "requests"@,
        "Gb/s"@ != "tokens"@,
        "Gb/s"@ != "attempts"@,
        "Gb/s"@ != "transfers"@,
        "Gb/s"@ != "prefills"@,
        "Gb/s"@ != "°C"@,
        "tok/s"@ != "req/s"@,
        "tok/s"@ != "ms"@,
        "tok/s"@ != "ratio"@,
        "tok/s"@ != "bytes"@,
        "tok/s"@ != "requests"@,
        "tok/s"@ != "tokens"@,
        "tok/s"@ != "attempts"@,
        "tok/s"@ != "transfers"@,
        "tok/s"@ != "prefills"@,
        "tok/s"@ != "°C"@,
        "req/s"@ != "ms"@,
        "req/s"@ != "ratio"@,
        "req/s"@ != "bytes"@,
        "req/s"@ != "requests"@,
        "req/s"@ != "tokens"@,
        "req/s"@ != "attempts"@,
        "req/s"@ != "transfers"@,
        "req/s"@ != "prefills"@,
        "req/s"@ != "°C"@,
        "ms"@ != "ratio"@,
        "ms"@ != "bytes"@,
        "ms"@ != "requests"@,
        "ms"@ != "tokens"@,
        "ms"@ != "attempts"@,
        "ms"@ != "transfers"@,
        "ms"@ != "prefills"@,
        "ms"@ != "°C"@,
{
    reveal_strlit("W");
    reveal_strlit("Gb/s");
    reveal_strlit("tok/s");
    reveal_strlit("req/s");
    reveal_strlit("ms");
    reveal_strlit("ratio");
    reveal_strlit("bytes");
    reveal_strlit("requests");
    reveal_strlit("tokens");
    reveal_strlit("attempts");
    reveal_strlit("transfers");
    reveal_strlit("prefills");
    reveal_strlit("°C");
    assert("W"@.len() != "Gb/s"@.len());
    assert("W"@.len() != "tok/s"@.len());
    assert("W"@.len() != "req/s"@.len());
    assert("W"@.len() != "ms"@.len());
    assert("W"@.len() != "ratio"@.len());
    assert("W"@.len() != "bytes"@.len());
    assert("W"@.len() != "requests"@.len());
    assert("W"@.len() != "tokens"@.len());
    assert("W"@.len() != "attempts"@.len());
    assert("W"@.len() != "transfers"@.len());
    assert("W"@.len() != "prefills"@.len());
    assert("W"@.len() != "°C"@.len());
    assert("Gb/s"@.len() != "tok/s"@.len());
    assert("Gb/s"@.len() != "req/s"@.len());
    assert("Gb/s"@.len() != "ms"@.len());
    assert("Gb/s"@.len() != "ratio"@.len());
    assert("Gb/s"@.len() != "bytes"@.len());
    assert("Gb/s"@.len() != "requests"@.len());
    assert("Gb/s"@.len() != "tokens"@.len());
    assert("Gb/s"@.len() != "attempts"@.len());
    assert("Gb/s"@.len() != "transfers"@.len());
    assert("Gb/s"@.len() != "prefills"@.len());
    assert("Gb/s"@.len() != "°C"@.len());
    assert("tok/s"@[0] != "req/s"@[0]);
    assert("tok/s"@.len() != "ms"@.len());
    assert("tok/s"@[0] != "ratio"@[0]);
    assert("tok/s"@[0] != "bytes"@[0]);
    assert("tok/s"@.len() != "requests"@.len());
    assert("tok/s"@.len() != "tokens"@.len());
    assert("tok/s"@.len() != "attempts"@.len());
    assert("tok/s"@.len() != "transfers"@.len());
    assert("tok/s"@.len() != "prefills"@.len());
    assert("tok/s"@.len() != "°C"@.len());
    assert("req/s"@.len() != "ms"@.len());
    assert("req/s"@[1] != "ratio"@[1]);
    assert("req/s"@[0] != "bytes"@[0]);
    assert("req/s"@.len() != "requests"@.len());
    assert("req/s"@.len() != "tokens"@.len());
    assert("req/s"@.len() != "attempts"@.len());
    assert("req/s"@.len() != "transfers"@.len());
    assert("req/s"@.len() != "prefills"@.len());
    assert("req/s"@.len() != "°C"@.len());
    assert("ms"@.len() != "ratio"@.len());
    assert("ms"@.len() != "bytes"@.len());
    assert("ms"@.len() != "requests"@.len());
    assert("ms"@.len() != "tokens"@.len());
    assert("ms"@.len() != "attempts"@.len());
    assert("ms"@.len() != "transfers"@.len());
    assert("ms"@.len() != "prefills"@.len());
    assert("ms"@[0] != "°C"@[0]);
}

/// A reading of a device or of the host is read from the metric of its own
/// name, and a device's from the line of that device.
pub proof fn law_agent_series_read_their_own_metric(i: int)
    requires
        0 <= i < series_count(),
        catalog()[i].source == Source::Agent,
    ensures
        match catalog()[i].extraction {
            ExtractionView::Agent { metric, gpu: None } => metric == "muser_"@ + catalog()[i].name,
            ExtractionView::Agent { metric, gpu: Some(index) } => {
                let prefix = "gpu"@ + index;
                &&& prefix.is_prefix_of(catalog()[i].name)
                &&& metric == "muser_gpu"@ + catalog()[i].name.skip(prefix.len() as int)
            },
            _ => false,
        },
{
    law_entries_match_their_source(i);
    lemma_entry(i);
    if 25 <= i < 65 {
        law_device_series_name_their_device(i);
        let r = (i - 25) % 5;
        let index = decimal(((i - 25) / 5) as nat);
        let suffix = gpu_reading(r).0;
        assert(catalog()[i].name.skip(("gpu"@ + index).len() as int) =~= suffix);
        reveal_strlit("muser_gpu");
        if r == 0 {
            reveal_strlit("_utilization_ratio");
            reveal_strlit("muser_gpu_utilization_ratio");
            assert("muser_gpu"@ + suffix =~= "muser_gpu_utilization_ratio"@);
        }
        if r == 1 {
            reveal_strlit("_power_watts");
            reveal_strlit("muser_gpu_power_watts");
            assert("muser_gpu"@ + suffix =~= "muser_gpu_power_watts"@);
        }
        if r == 2 {
            reveal_strlit("_temperature_celsius");
            reveal_strlit("muser_gpu_temperature_celsius");
            assert("muser_gpu"@ + suffix =~= "muser_gpu_temperature_celsius"@);
        }
        if r == 3 {
            reveal_strlit("_memory_used_bytes");
            reveal_strlit("muser_gpu_memory_used_bytes");
            assert("muser_gpu"@ + suffix =~= "muser_gpu_memory_used_bytes"@);
        }
        if r == 4 {
            reveal_strlit("_memory_total_bytes");
            reveal_strlit("muser_gpu_memory_total_bytes");
            assert("muser_gpu"@ + suffix =~= "muser_gpu_memory_total_bytes"@);
        }
    } else {
        reveal_strlit("muser_");
        if i == 65 {
            reveal_strlit("host_package_power_watts");
            reveal_strlit("muser_host_package_power_watts");
            assert("muser_"@ + catalog()[i].name =~= "muser_host_package_power_watts"@);
        }
        if i == 66 {
            reveal_strlit("host_cpu_power_watts");
            reveal_strlit("muser_host_cpu_power_watts");
            assert("muser_"@ + catalog()[i].name =~= "muser_host_cpu_power_watts"@);
        }
        if i == 67 {
            reveal_strlit("host_gpu_power_watts");
            reveal_strlit("muser_host_gpu_power_watts");
            assert("muser_"@ + catalog()[i].name =~= "muser_host_gpu_power_watts"@);
        }
    }
}

/// An engine's own series read the engine's metric of the same name; the
/// quantiles read the metric that spells their unit out. Decoding throughput
/// is read from the traffic of the last ten seconds, and the acceptance rate
/// from the ratio of that name.
pub proof fn law_engine_series_read_their_own_metric(i: int)
    requires
        0 <= i < series_count(),
    ensures
        catalog()[i].extraction matches ExtractionView::Prometheus { metric, quantile } ==> {
            let name = catalog()[i].name;
            if name == "decode_tok_s"@ {
                metric == "completion_traffic_tok_s_10s"@
            } else if name == "dflash_accept_rate"@ {
                metric == "muser_dflash_acceptance_ratio"@
            } else if quantile is None {
                metric == "muser_"@ + name
            } else {
                metric == "muser_"@ + name.take(name.len() - 7) + "_milliseconds"@
            }
        },
{
    lemma_entry(i);
    law_entries_match_their_source(i);
    reveal_strlit("muser_");
    reveal_strlit("_milliseconds");
    reveal_strlit("decode_tok_s");
    reveal_strlit("dflash_accept_rate");
    if i < 10 {
        let name = catalog()[i].name;
        lemma_fixed_name(i);
        lemma_fixed_name(0);
        lemma_fixed_name(9);
        if i == 1 {
            reveal_strlit("request_decode_tok_s");
            reveal_strlit("muser_request_decode_tok_s");
            assert("muser_"@ + name =~= "muser_request_decode_tok_s"@);
        }
        if i == 2 {
            reveal_strlit("queue_depth");
            reveal_strlit("muser_queue_depth");
            assert("muser_"@ + name =~= "muser_queue_depth"@);
        }
        if i == 3 {
            reveal_strlit("overload_rejections_total");
            reveal_strlit("muser_overload_rejections_total");
            assert("muser_"@ + name =~= "muser_overload_rejections_total"@);
        }
        if i == 4 {
            reveal_strlit("completion_tokens_total");
            reveal_strlit("muser_completion_tokens_total");
            assert("muser_"@ + name =~= "muser_completion_tokens_total"@);
        }
        if i == 5 {
            reveal_strlit("ttft_ms_p50");
            reveal_strlit("muser_ttft_milliseconds");
            assert("muser_"@ + name.take(name.len() - 7) + "_milliseconds"@ =~= "muser_ttft_milliseconds"@);
        }
        if i == 6 {
            reveal_strlit("ttft_ms_p95");
            reveal_strlit("muser_ttft_milliseconds");
            assert("muser_"@ + name.take(name.len() - 7) + "_milliseconds"@ =~= "muser_ttft_milliseconds"@);
        }
        if i == 7 {
            reveal_strlit("itl_ms_p50");
            reveal_strlit("muser_itl_milliseconds");
            assert("muser_"@ + name.take(name.len() - 7) + "_milliseconds"@ =~= "muser_itl_milliseconds"@);
        }
        if i == 8 {
            reveal_strlit("itl_ms_p95");
            reveal_strlit("muser_itl_milliseconds");
            assert("muser_"@ + name.take(name.len() - 7) + "_milliseconds"@ =~= "muser_itl_milliseconds"@);
        }
    }
}

/// A series of the last transfer takes the field it is named for: as it is, or
/// from the field in nanoseconds where the name says milliseconds.
pub proof fn law_receipt_series_take_the_field_they_name(i: int)
    requires
        0 <= i < series_count(),
    ensures
        catalog()[i].extraction matches ExtractionView::TransferLast { field, scale } ==> {
            let name = catalog()[i].name;
            &&& ends(name, "_ms"@) <==> scale == Scale::NanosToMillis
            &&& scale == Scale::Unit ==> name == "transfer_last_"@ + field
            &&& scale == Scale::NanosToMillis ==> exists|stem: Seq<char>|
                name == "transfer_last_"@ + stem + "_ms"@ && field == "_"@ + stem + "_ns"@
        },
{
    lemma_entry(i);
    law_entries_match_their_source(i);
    reveal_strlit("transfer_last_");
    reveal_strlit("_ms");
    reveal_strlit("_ns");
    reveal_strlit("_");
    if i < 25 {
        let name = catalog()[i].name;
        lemma_endings(i);
        if i == 18 {
            reveal_strlit("transfer_last_bytes_total");
            reveal_strlit("bytes_total");
            assert(name =~= "transfer_last_"@ + "bytes_total"@);
        }
        if i == 19 {
            reveal_strlit("transfer_last_throughput_gbps");
            reveal_strlit("throughput_gbps");
            assert(name =~= "transfer_last_"@ + "throughput_gbps"@);
        }
        if i == 20 {
            reveal_strlit("transfer_last_hidden_pct");
            reveal_strlit("hidden_pct");
            assert(name =~= "transfer_last_"@ + "hidden_pct"@);
        }
        if i == 21 {
            reveal_strlit("transfer_last_control_ms");
            reveal_strlit("_control_ns");
            let stem = name.subrange(14, 21);
            assert(name =~= "transfer_last_"@ + stem + "_ms"@);
            assert("_control_ns"@ =~= "_"@ + stem + "_ns"@);
        }
        if i == 22 {
            reveal_strlit("transfer_last_accept_ms");
            reveal_strlit("_accept_ns");
            let stem = name.subrange(14, 20);
            assert(name =~= "transfer_last_"@ + stem + "_ms"@);
            assert("_accept_ns"@ =~= "_"@ + stem + "_ns"@);
        }
    }
}

/// Every engine series is known by its name, aggregates as it should and is
/// counted in its own unit.
pub proof fn law_engine_series_are_known()
    ensures
        named("decode_tok_s"@) matches Some(entry) && entry.kind == Kind::Gauge && entry.unit == "tok/s"@,
        named("request_decode_tok_s"@) matches Some(entry) && entry.kind == Kind::Gauge && entry.unit == "tok/s"@,
        named("queue_depth"@) matches Some(entry) && entry.kind == Kind::Gauge && entry.unit == "requests"@,
        named("overload_rejections_total"@) matches Some(entry) && entry.kind == Kind::Counter && entry.unit == "requests"@,
        named("completion_tokens_total"@) matches Some(entry) && entry.kind == Kind::Counter && entry.unit == "tokens"@,
        named("ttft_ms_p50"@) matches Some(entry) && entry.kind == Kind::Gauge && entry.unit == "ms"@,
        named("ttft_ms_p95"@) matches Some(entry) && entry.kind == Kind::Gauge && entry.unit == "ms"@,
        named("itl_ms_p50"@) matches Some(entry) && entry.kind == Kind::Gauge && entry.unit == "ms"@,
        named("itl_ms_p95"@) matches Some(entry) && entry.kind == Kind::Gauge && entry.unit == "ms"@,
        named("dflash_accept_rate"@) matches Some(entry) && entry.kind == Kind::Gauge && entry.unit == "ratio"@,
        named("requests_per_s"@) matches Some(entry) && entry.kind == Kind::Gauge && entry.unit == "req/s"@,
        named("wire_ingress_gbps"@) matches Some(entry) && entry.kind == Kind::Gauge && entry.unit == "Gb/s"@,
        named("dflash_drafted_total"@) matches Some(entry) && entry.kind == Kind::Counter && entry.unit == "tokens"@,
        named("dflash_accepted_total"@) matches Some(entry) && entry.kind == Kind::Counter && entry.unit == "tokens"@,
        named("dflash_ane_route_failures_total"@) matches Some(entry) && entry.kind == Kind::Counter && entry.unit == "attempts"@,
        named("dflash_metal_route_failures_total"@) matches Some(entry) && entry.kind == Kind::Counter && entry.unit == "attempts"@,
        named("remote_fallbacks_total"@) matches Some(entry) && entry.kind == Kind::Counter && entry.unit == "requests"@,
        named("transfers_active"@) matches Some(entry) && entry.kind == Kind::Gauge && entry.unit == "transfers"@,
        named("transfer_last_bytes_total"@) matches Some(entry) && entry.kind == Kind::Gauge && entry.unit == "bytes"@,
        named("transfer_last_throughput_gbps"@) matches Some(entry) && entry.kind == Kind::Gauge && entry.unit == "Gb/s"@,
        named("transfer_last_hidden_pct"@) matches Some(entry) && entry.kind == Kind::Gauge && entry.unit == "ratio"@,
        named("transfer_last_control_ms"@) matches Some(entry) && entry.kind == Kind::Gauge && entry.unit == "ms"@,
        named("transfer_last_accept_ms"@) matches Some(entry) && entry.kind == Kind::Gauge && entry.unit == "ms"@,
        named("disagg_prefills_total"@) matches Some(entry) && entry.kind == Kind::Counter && entry.unit == "prefills"@,
        named("disagg_bytes_installed_total"@) matches Some(entry) && entry.kind == Kind::Counter && entry.unit == "bytes"@,
{
    law_lookup_finds_every_entry(0);
    assert(catalog()[0] == engine(0));
    law_lookup_finds_every_entry(1);
    assert(catalog()[1] == engine(1));
    law_lookup_finds_every_entry(2);
    assert(catalog()[2] == engine(2));
    law_lookup_finds_every_entry(3);
    assert(catalog()[3] == engine(3));
    law_lookup_finds_every_entry(4);
    assert(catalog()[4] == engine(4));
    law_lookup_finds_every_entry(5);
    assert(catalog()[5] == engine(5));
    law_lookup_finds_every_entry(6);
    assert(catalog()[6] == engine(6));
    law_lookup_finds_every_entry(7);
    assert(catalog()[7] == engine(7));
    law_lookup_finds_every_entry(8);
    assert(catalog()[8] == engine(8));
    law_lookup_finds_every_entry(9);
    assert(catalog()[9] == engine(9));
    law_lookup_finds_every_entry(10);
    assert(catalog()[10] == engine(10));
    law_lookup_finds_every_entry(11);
    assert(catalog()[11] == engine(11));
    law_lookup_finds_every_entry(12);
    assert(catalog()[12] == engine(12));
    law_lookup_finds_every_entry(13);
    assert(catalog()[13] == engine(13));
    law_lookup_finds_every_entry(14);
    assert(catalog()[14] == engine(14));
    law_lookup_finds_every_entry(15);
    assert(catalog()[15] == engine(15));
    law_lookup_finds_every_entry(16);
    assert(catalog()[16] == engine(16));
    law_lookup_finds_every_entry(17);
    assert(catalog()[17] == engine(17));
    law_lookup_finds_every_entry(18);
    assert(catalog()[18] == engine(18));
    law_lookup_finds_every_entry(19);
    assert(catalog()[19] == engine(19));
    law_lookup_finds_every_entry(20);
    assert(catalog()[20] == engine(20));
    law_lookup_finds_every_entry(21);
    assert(catalog()[21] == engine(21));
    law_lookup_finds_every_entry(22);
    assert(catalog()[22] == engine(22));
    law_lookup_finds_every_entry(23);
    assert(catalog()[23] == engine(23));
    law_lookup_finds_every_entry(24);
    assert(catalog()[24] == engine(24));
}

/// Every one of eight devices has its five series, each of which reads the
/// metric of its name where that is labelled with the device; a ninth has none
/// of its own index. The host has three.
pub proof fn law_device_series_are_known(g: int)
    requires
        0 <= g < 8,
    ensures
        ({
            let index = decimal(g as nat);
            let known = |suffix: Seq<char>, unit: Seq<char>, metric: Seq<char>|
                named("gpu"@ + index + suffix) == Some(
                    SeriesView {
                        name: "gpu"@ + index + suffix,
                        kind: Kind::Gauge,
                        source: Source::Agent,
                        unit,
                        extraction: ExtractionView::Agent { metric, gpu: Some(index) },
                        honesty_path: None,
                    },
                );
            &&& known("_utilization_ratio"@, "ratio"@, "muser_gpu_utilization_ratio"@)
            &&& known("_power_watts"@, "W"@, "muser_gpu_power_watts"@)
            &&& known("_temperature_celsius"@, "°C"@, "muser_gpu_temperature_celsius"@)
            &&& known("_memory_used_bytes"@, "bytes"@, "muser_gpu_memory_used_bytes"@)
            &&& known("_memory_total_bytes"@, "bytes"@, "muser_gpu_memory_total_bytes"@)
        }),
        named("host_package_power_watts"@) == Some(
            SeriesView {
                name: "host_package_power_watts"@,
                kind: Kind::Gauge,
                source: Source::Agent,
                unit: "W"@,
                extraction: ExtractionView::Agent { metric: "muser_host_package_power_watts"@, gpu: None },
                honesty_path: None,
            },
        ),
        named("host_cpu_power_watts"@) == Some(
            SeriesView {
                name: "host_cpu_power_watts"@,
                kind: Kind::Gauge,
                source: Source::Agent,
                unit: "W"@,
                extraction: ExtractionView::Agent { metric: "muser_host_cpu_power_watts"@, gpu: None },
                honesty_path: None,
            },
        ),
        named("host_gpu_power_watts"@) == Some(
            SeriesView {
                name: "host_gpu_power_watts"@,
                kind: Kind::Gauge,
                source: Source::Agent,
                unit: "W"@,
                extraction: ExtractionView::Agent { metric: "muser_host_gpu_power_watts"@, gpu: None },
                honesty_path: None,
            },
        ),
{
    let at = 25 + 5 * g;
    assert(5 * g < 40);
    assert((5 * g + 0) / 5 == g && (5 * g + 0) % 5 == 0);
    assert(catalog()[at + 0] == gpu_view(g, 0));
    law_lookup_finds_every_entry(at + 0);
    assert((5 * g + 1) / 5 == g && (5 * g + 1) % 5 == 1);
    assert(catalog()[at + 1] == gpu_view(g, 1));
    law_lookup_finds_every_entry(at + 1);
    assert((5 * g + 2) / 5 == g && (5 * g + 2) % 5 == 2);
    assert(catalog()[at + 2] == gpu_view(g, 2));
    law_lookup_finds_every_entry(at + 2);
    assert((5 * g + 3) / 5 == g && (5 * g + 3) % 5 == 3);
    assert(catalog()[at + 3] == gpu_view(g, 3));
    law_lookup_finds_every_entry(at + 3);
    assert((5 * g + 4) / 5 == g && (5 * g + 4) % 5 == 4);
    assert(catalog()[at + 4] == gpu_view(g, 4));
    law_lookup_finds_every_entry(at + 4);
    assert(catalog()[65] == host(0));
    law_lookup_finds_every_entry(65);
    assert(catalog()[66] == host(1));
    law_lookup_finds_every_entry(66);
    assert(catalog()[67] == host(2));
    law_lookup_finds_every_entry(67);
}

/// What a source gives is every series of it, in the order of the catalog.
pub proof fn law_a_source_has_its_series(series: Seq<SeriesView>, source: Source)
    ensures
        of_source(series, source) == series.filter(|entry: SeriesView| entry.source == source),
    decreases series.len(),
{
    reveal(Seq::filter);
    if series.len() > 0 {
        law_a_source_has_its_series(series.drop_last(), source);
    }
}

/// The model of an entry shows what the entry holds.
pub proof fn law_the_model_shows_the_entry(series: Series)
    ensures
        series@.name == series.name@,
        series@.kind == series.kind,
        series@.source == series.source,
        series@.unit == series.unit@,
        series.honesty_path matches Some(path) ==> series@.honesty_path == Some(path@),
        series.honesty_path is None ==> series@.honesty_path is None,
        match series.extraction {
            Extraction::Prometheus { metric, quantile } => series@.extraction
                == ExtractionView::Prometheus {
                metric: metric@,
                quantile: match quantile {
                    Some(q) => Some(q@),
                    None => None,
                },
            },
            Extraction::Snapshot { path } => series@.extraction == ExtractionView::Snapshot {
                path: path@,
            },
            Extraction::TransfersActive => series@.extraction == ExtractionView::TransfersActive,
            Extraction::TransferLast { field, scale } => series@.extraction
                == ExtractionView::TransferLast { field: field@, scale },
            Extraction::Agent { metric, gpu } => series@.extraction == ExtractionView::Agent {
                metric: metric@,
                gpu: match gpu {
                    Some(index) => Some(index@),
                    None => None,
                },
            },
        },
{
}

} // verus!
