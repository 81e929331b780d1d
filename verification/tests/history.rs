use muser_console::history::api::{
    answer, describe, name_in_path, query_failed, series_list, Answered, Params,
    DEFAULT_WINDOW_MS,
};
use muser_console::history::catalog::{
    all, lookup, with_source, Extraction, Honesty, Kind, Source, MAX_AGENT_GPUS,
};
use muser_console::history::pass::{plan, report};
use muser_console::history::prom::{close_brace, Exposition};
use muser_console::history::sampler::{
    accept, collect_agent, collect_metrics, collect_snapshot, gate_optional_features,
    honesty_for, now_ms, read_exposition, stamp, AgentBody, AgentHealth, AgentScrape, Carry,
    Health, Sampler, Scrape,
};
use muser_console::history::store::{
    bucket, note_failure, window, Candidate, Maintenance, Pooled, Quantity, Query, Row, Sample,
    SeriesData, StoreError, BUCKET_MS, CANDIDATES, CLEAR, EXPIRE, NATIVE_STEP_S, RAW_WINDOW_MS,
    READ, SCHEMA, WRITE,
};
use muser_console::json::{Json, Notation, Numeric};
use muser_console::state::AgentState;
use rusqlite::Connection;

// ---------------------------------------------------------------------------
// Helpers

fn json(value: &serde_json::Value) -> Json {
    match value {
        serde_json::Value::Null => Json::Null,
        serde_json::Value::Bool(b) => Json::Bool(*b),
        serde_json::Value::Number(n) => Json::Number(Numeric {
            notation: if let Some(u) = n.as_u64() {
                Notation::Unsigned(u)
            } else if let Some(i) = n.as_i64() {
                Notation::Negative(i)
            } else {
                Notation::Double
            },
            bits: n.as_f64().expect("a double").to_bits(),
        }),
        serde_json::Value::String(s) => Json::Text(s.clone()),
        serde_json::Value::Array(items) => Json::Array(items.iter().map(json).collect()),
        serde_json::Value::Object(members) => Json::Object(
            members.iter().map(|(key, value)| (key.clone(), json(value))).collect(),
        ),
    }
}

fn parse_json(text: &str) -> Json {
    json(&serde_json::from_str(text).expect("valid JSON"))
}

fn scrape(text: &str) -> Scrape {
    let exposition = Exposition::parse(text);
    let numbers = exposition
        .samples()
        .iter()
        .map(|sample| sample.value.parse::<f64>().expect("a numeral").to_bits())
        .collect();
    Scrape { exposition, numbers }
}

fn number(quantity: Quantity) -> f64 {
    match quantity {
        Quantity::Double(bits) => f64::from_bits(bits),
        Quantity::NanosAsMillis(bits) => f64::from_bits(bits) * 1e-6,
        Quantity::Count(n) => n as f64,
    }
}

fn names(batch: &[Sample]) -> Vec<&str> {
    batch.iter().map(|sample| sample.series.as_str()).collect()
}

fn find<'a>(batch: &'a [Sample], name: &str) -> Option<&'a Sample> {
    batch.iter().find(|sample| sample.series == name)
}

fn value_of(batch: &[Sample], name: &str) -> Option<f64> {
    find(batch, name).map(|sample| number(sample.value))
}

fn metrics(text: &str, ts_ms: i64, carry: &mut Carry, batch: &mut Vec<Sample>) {
    collect_metrics(&scrape(text), "gx", ts_ms, carry, batch);
}

fn agent(text: &str, instance: &str, ts_ms: i64, batch: &mut Vec<Sample>) -> AgentScrape {
    collect_agent(&scrape(text), instance, ts_ms, batch)
}

fn double(exposition: &Exposition, metric: &str, quantile: Option<&str>) -> Option<f64> {
    exposition.value(metric, quantile).map(|text| text.parse().expect("a numeral"))
}

// ---------------------------------------------------------------------------
// The catalog

#[test]
fn series_names_are_unique() {
    let catalog = all();
    let names: Vec<&str> = catalog.iter().map(|series| series.name.as_str()).collect();
    for (index, name) in names.iter().enumerate() {
        assert!(
            names[..index].iter().all(|other| other != name),
            "duplicate catalog series '{name}': one name, one source"
        );
    }
}

#[test]
fn metrics_series_have_no_honesty_path_and_snapshot_series_do() {
    for series in all() {
        match series.source {
            Source::Metrics => assert!(
                series.honesty_path.is_none(),
                "{} is a /metrics series and must not claim an _honesty path",
                series.name
            ),
            Source::Snapshot => assert!(
                series.honesty_path.is_some(),
                "{} is a /snapshot series and must name its _honesty path",
                series.name
            ),
            Source::Agent => assert!(
                series.honesty_path.is_none(),
                "{} is an agent series and must not claim an engine _honesty path",
                series.name
            ),
        }
    }
}

#[test]
fn extraction_matches_source() {
    for series in all() {
        let consistent = matches!(
            (series.source, &series.extraction),
            (Source::Metrics, Extraction::Prometheus { .. })
                | (
                    Source::Snapshot,
                    Extraction::Snapshot { .. }
                        | Extraction::TransfersActive
                        | Extraction::TransferLast { .. },
                )
                | (Source::Agent, Extraction::Agent { .. })
        );
        assert!(consistent, "{} extraction/source mismatch", series.name);
    }
}

#[test]
fn agent_series_name_the_device_their_label_selects() {
    let mut gpu_entries = 0usize;
    for series in with_source(Source::Agent) {
        let Extraction::Agent { metric, gpu } = &series.extraction else {
            panic!("{} must extract from an agent metric", series.name);
        };
        match gpu {
            Some(index) => {
                gpu_entries += 1;
                assert!(
                    series.name.starts_with(&format!("gpu{index}_")),
                    "{} reads the gpu=\"{index}\" label but does not say so in its name",
                    series.name
                );
                assert!(
                    metric.starts_with("muser_gpu_"),
                    "{} selects a gpu label on a non-device metric",
                    series.name
                );
            }
            None => assert!(
                series.name.starts_with("host_"),
                "{} is a whole-host reading and must be named as one",
                series.name
            ),
        }
    }
    assert_eq!(
        gpu_entries,
        MAX_AGENT_GPUS * 5,
        "five readings per device, for exactly MAX_AGENT_GPUS devices"
    );
}

#[test]
fn agent_measured_is_its_own_honesty_value() {
    assert_eq!(Honesty::AgentMeasured.as_str(), "agent-measured");
    assert_ne!(Honesty::AgentMeasured, Honesty::Measured);
    assert_eq!(Honesty::from_tag("agent-measured"), Some(Honesty::AgentMeasured));
}

#[test]
fn mock_tag_never_becomes_an_honesty_value() {
    assert_eq!(Honesty::from_tag("mock"), None);
    assert_eq!(Honesty::from_tag(""), None);
    assert_eq!(Honesty::from_tag("measured"), Some(Honesty::Measured));
    assert_eq!(Honesty::from_tag("target"), Some(Honesty::Target));
}

#[test]
fn source_round_trips_through_its_stored_text() {
    for source in [Source::Metrics, Source::Snapshot, Source::Agent] {
        assert_eq!(Source::from_stored(source.as_str()), Some(source));
    }
    assert_eq!(Source::from_stored("simulated"), None);
}

#[test]
fn every_name_is_looked_up_to_its_own_entry() {
    for series in all() {
        let found = lookup(&series.name).expect("in the catalog");
        assert_eq!(found.name, series.name);
        assert_eq!(found.kind, series.kind);
    }
    assert!(lookup("gpu8_power_watts").is_none());
    assert_eq!(Kind::Gauge.as_str(), "gauge");
    assert_eq!(Kind::Counter.as_str(), "counter");
}

// ---------------------------------------------------------------------------
// The exposition

#[test]
fn comments_blank_lines_and_junk_are_dropped() {
    let text = "\
# HELP muser_queue_depth requests accepted but not past first token
# TYPE muser_queue_depth gauge
muser_queue_depth 3

muser_missing_value
muser_bad_value abc
muser_unclosed{quantile=\"0.50\" 1
{quantile=\"0.50\"} 1
9_bad_name 1
muser_queue_depth_2 4
";
    let exposition = Exposition::parse(text);
    assert_eq!(exposition.samples().len(), 2, "only the two well-formed lines");
    assert_eq!(double(&exposition, "muser_queue_depth", None), Some(3.0));
    assert_eq!(double(&exposition, "muser_queue_depth_2", None), Some(4.0));
    assert_eq!(double(&exposition, "muser_missing_value", None), None);
    assert_eq!(double(&exposition, "muser_bad_value", None), None);
}

/// An exposition in the shape that an engine publishes. It is no capture: the
/// values are written by hand, with zeros where an idle engine reports them.
const ENGINE: &str = "\
# HELP completion_traffic_tok_s_10s completion tokens per second over ten seconds
# TYPE completion_traffic_tok_s_10s gauge
completion_traffic_tok_s_10s 41.7
# TYPE muser_request_decode_tok_s gauge
muser_request_decode_tok_s 63.25
# TYPE muser_queue_depth gauge
muser_queue_depth 2
# TYPE muser_completion_tokens_total counter
muser_completion_tokens_total 18234
# TYPE muser_overload_rejections_total counter
muser_overload_rejections_total 0
# TYPE muser_ttft_milliseconds summary
muser_ttft_milliseconds{quantile=\"0.50\"} 182.4
muser_ttft_milliseconds{quantile=\"0.95\"} 950.125
# TYPE muser_itl_milliseconds summary
muser_itl_milliseconds{quantile=\"0.50\"} 15.5
muser_itl_milliseconds{quantile=\"0.95\"} 0
# TYPE muser_dflash_acceptance_ratio gauge
muser_dflash_acceptance_ratio 0
# TYPE muser_phase_seconds_total counter
muser_phase_seconds_total{phase=\"queue\"} 0.25
muser_phase_seconds_total{phase=\"prefill\"} 12.5
muser_phase_seconds_total{phase=\"sampling\"} 1.75
muser_phase_seconds_total{phase=\"grammar\"} 0.5
muser_phase_seconds_total{phase=\"detokenization\"} 0.0625
muser_phase_seconds_total{phase=\"enqueue_write\"} 0.125
muser_phase_seconds_total{phase=\"dflash_draft\"} 3.0e-3
muser_phase_seconds_total{phase=\"dflash_target_verify\"} 0
";

#[test]
fn parser_reads_the_literal_live_engine_exposition() {
    let exposition = Exposition::parse(ENGINE);
    assert_eq!(
        double(&exposition, "completion_traffic_tok_s_10s", None),
        Some(41.7),
        "the un-prefixed engine wart parses like any other series"
    );
    assert_eq!(double(&exposition, "muser_request_decode_tok_s", None), Some(63.25));
    assert_eq!(double(&exposition, "muser_queue_depth", None), Some(2.0));
    assert_eq!(double(&exposition, "muser_completion_tokens_total", None), Some(18234.0));
    assert_eq!(double(&exposition, "muser_ttft_milliseconds", Some("0.50")), Some(182.4));
    assert_eq!(double(&exposition, "muser_ttft_milliseconds", Some("0.95")), Some(950.125));
    assert_eq!(double(&exposition, "muser_itl_milliseconds", Some("0.50")), Some(15.5));
    // Reported zero is still a measurement: these series are present in the
    // exposition and must not be confused with an unavailable series.
    assert_eq!(double(&exposition, "muser_itl_milliseconds", Some("0.95")), Some(0.0));
    assert_eq!(double(&exposition, "muser_overload_rejections_total", None), Some(0.0));
    assert_eq!(double(&exposition, "muser_dflash_acceptance_ratio", None), Some(0.0));
    for (phase, seconds) in [
        ("queue", 0.25),
        ("prefill", 12.5),
        ("sampling", 1.75),
        ("grammar", 0.5),
        ("detokenization", 0.0625),
        ("enqueue_write", 0.125),
        ("dflash_draft", 0.003),
        ("dflash_target_verify", 0.0),
    ] {
        let found = exposition
            .samples()
            .iter()
            .find(|sample| {
                sample.metric == "muser_phase_seconds_total" && sample.label("phase") == Some(phase)
            })
            .unwrap_or_else(|| panic!("phase '{phase}' must parse"));
        assert_eq!(found.value.parse::<f64>(), Ok(seconds), "phase '{phase}'");
    }
}

#[test]
fn a_brace_closes_only_what_was_opened() {
    let line: Vec<char> = "m{a=\"}\",b=\"\\\"}\"} 1".chars().collect();
    assert_eq!(close_brace(&line, 1), Some(line.len() - 3));
    assert_eq!(close_brace(&line, line.len() - 1), None);
    assert_eq!(close_brace(&line, line.len()), None, "nothing is opened past the end");
    assert_eq!(close_brace(&line, usize::MAX), None);
    assert_eq!(close_brace(&[], 0), None);
}

#[test]
fn label_edge_cases() {
    let text = "\
a{x=\"1\",y=\"two\"} 1
b{ x = \"sp aced\" } 2
c{x=\"br}ace\"} 3
d{x=\"quo\\\"te\",y=\"back\\\\slash\"} 4
e{} 5
f{x=\"unterminated} 6
g{x=1} 7
";
    let exposition = Exposition::parse(text);
    assert_eq!(double(&exposition, "a", None), Some(1.0));
    assert_eq!(exposition.samples()[0].label("y"), Some("two"));
    assert_eq!(double(&exposition, "b", None), Some(2.0));
    assert_eq!(exposition.samples()[1].label("x"), Some("sp aced"));
    assert_eq!(double(&exposition, "c", None), Some(3.0));
    assert_eq!(exposition.samples()[2].label("x"), Some("br}ace"));
    assert_eq!(double(&exposition, "d", None), Some(4.0));
    assert_eq!(exposition.samples()[3].label("x"), Some("quo\"te"));
    assert_eq!(exposition.samples()[3].label("y"), Some("back\\slash"));
    assert_eq!(double(&exposition, "e", None), Some(5.0));
    assert_eq!(double(&exposition, "f", None), None, "unterminated quote");
    assert_eq!(double(&exposition, "g", None), None, "unquoted label value");
}

#[test]
fn trailing_timestamp_is_ignored_and_non_finite_values_survive_parsing() {
    let exposition = Exposition::parse("a 1.5 1755300000000\nb NaN\nc +Inf\n");
    assert_eq!(double(&exposition, "a", None), Some(1.5));
    assert!(double(&exposition, "b", None).expect("parsed").is_nan());
    assert_eq!(double(&exposition, "c", None), Some(f64::INFINITY));
}

#[test]
fn labeled_lookup_selects_one_device_and_never_a_neighbour() {
    let text = "\
muser_gpu_power_watts{gpu=\"0\",uuid=\"GPU-a\",name=\"Dev A\"} 1
muser_gpu_power_watts{gpu=\"1\",uuid=\"GPU-b\",name=\"Dev, B\"} 2
";
    let exposition = Exposition::parse(text);
    let device = |gpu: &str| {
        exposition
            .labeled_value("muser_gpu_power_watts", "gpu", gpu)
            .map(|text| text.parse::<f64>().expect("a numeral"))
    };
    assert_eq!(device("0"), Some(1.0));
    assert_eq!(device("1"), Some(2.0));
    assert_eq!(
        device("2"),
        None,
        "a device the exporter did not publish has no value at all"
    );
    assert_eq!(
        exposition.samples()[1].label("name"),
        Some("Dev, B"),
        "a driver-supplied name with a comma survives the label parser"
    );
}

#[test]
fn empty_document_is_empty_not_zero() {
    let exposition = Exposition::parse("");
    assert!(exposition.is_empty());
    assert_eq!(exposition.value("muser_queue_depth", None), None);
}

/// Which numerals are read: exactly those that the standard parser reads.
#[test]
fn numerals_are_those_of_the_standard_parser() {
    for text in [
        "0", "1.", ".5", "+1", "-1.25e3", "1E-7", "1e", "e5", ".", "+", "inf", "-Infinity", "NAN",
        "nan1", "infinit", "1_000", "0x10", "1e+", "1e5.0", "--1", "١",
    ] {
        let line = format!("m {text}\n");
        assert_eq!(
            Exposition::parse(&line).samples().len() == 1,
            text.parse::<f64>().is_ok(),
            "{text}"
        );
    }
}

// ---------------------------------------------------------------------------
// Honesty

#[test]
fn honesty_reads_the_exact_path_then_the_enclosing_section() {
    let snapshot = parse_json(
        r#"{
            "_honesty": {
                "wire": {"requests_per_s": "measured", "egress_gbps": "mock"},
                "specdec": "measured",
                "transfers": "target"
            }
        }"#,
    );
    assert_eq!(honesty_for(&snapshot, "wire.requests_per_s"), Some(Honesty::Measured));
    assert_eq!(
        honesty_for(&snapshot, "specdec"),
        Some(Honesty::Measured),
        "a whole-section tag covers its fields"
    );
    assert_eq!(honesty_for(&snapshot, "transfers"), Some(Honesty::Target));
    assert_eq!(
        honesty_for(&snapshot, "wire.egress_gbps"),
        None,
        "mock is never a storable tag"
    );
    assert_eq!(
        honesty_for(&snapshot, "wire.ingress_gbps"),
        None,
        "an untagged field under a tagged section object is unknown, so it is skipped"
    );
    assert_eq!(honesty_for(&snapshot, "economics.counters"), None);
}

#[test]
fn underscore_extensions_without_a_tag_are_measured() {
    let snapshot = parse_json(r#"{"_honesty": {"wire": {"egress_gbps": "mock"}}}"#);
    assert_eq!(honesty_for(&snapshot, "_remote"), Some(Honesty::Measured));
    assert_eq!(honesty_for(&snapshot, "economics.counters"), None);
    // A sidecar that does tag an underscore section still wins.
    let tagged = parse_json(r#"{"_honesty": {"_remote": "mock"}}"#);
    assert_eq!(honesty_for(&tagged, "_remote"), None);
}

#[test]
fn missing_sidecar_skips_everything_except_underscore_extensions() {
    let snapshot = parse_json(r#"{"wire": {"requests_per_s": 1.0}}"#);
    assert_eq!(honesty_for(&snapshot, "wire.requests_per_s"), None);
    assert_eq!(honesty_for(&snapshot, "_remote"), Some(Honesty::Measured));
}

// ---------------------------------------------------------------------------
// Collecting

#[test]
fn mock_tagged_snapshot_fields_are_never_stored() {
    let snapshot = parse_json(
        r#"{
            "wire": {"requests_per_s": 2.0, "ingress_gbps": 3.0, "egress_gbps": 4.0},
            "transfers": [],
            "_honesty": {
                "wire": {"requests_per_s": "measured", "ingress_gbps": "mock", "egress_gbps": "mock"},
                "transfers": "measured"
            }
        }"#,
    );
    let mut batch = Vec::new();
    collect_snapshot(&snapshot, "gx", 1_000, &mut Carry::new(), &mut batch);
    assert!(names(&batch).contains(&"requests_per_s"));
    assert!(
        !names(&batch).contains(&"wire_ingress_gbps"),
        "a mock-tagged field yields no series at all"
    );
    assert_eq!(
        value_of(&batch, "transfers_active"),
        Some(0.0),
        "an empty transfers array is a measured zero, not a gap"
    );
}

#[test]
fn a_repeated_snapshot_records_everything_but_the_transfer() {
    let snapshot = parse_json(
        r#"{
            "wire": {"requests_per_s": 2.5},
            "transfers": [{"phase": "done", "bytes_total": 4096, "throughput_gbps": 3.5}],
            "_honesty": {"wire.requests_per_s": "measured", "transfers": "measured"}
        }"#,
    );
    let mut carry = Carry::new();
    let mut first = Vec::new();
    collect_snapshot(&snapshot, "gx", 1_000, &mut carry, &mut first);
    assert_eq!(value_of(&first, "transfer_last_bytes_total"), Some(4096.0));
    let mut second = Vec::new();
    collect_snapshot(&snapshot, "gx", 2_000, &mut carry, &mut second);
    let kept: Vec<&Sample> =
        first.iter().filter(|sample| !sample.series.starts_with("transfer_last_")).collect();
    assert!(kept.len() < first.len());
    assert_eq!(second.len(), kept.len());
    for (again, before) in second.iter().zip(kept) {
        assert_eq!((again.ts_ms, before.ts_ms), (2_000, 1_000));
        assert_eq!(again.series, before.series);
        assert_eq!(value_of(&second, &again.series), value_of(&first, &before.series));
        assert_eq!((again.source, again.honesty), (before.source, before.honesty));
    }
}

#[test]
fn transfer_last_series_only_exist_while_a_transfer_does() {
    let empty = parse_json(r#"{"transfers": [], "_honesty": {"transfers": "measured"}}"#);
    let mut batch = Vec::new();
    collect_snapshot(&empty, "gx", 1_000, &mut Carry::new(), &mut batch);
    assert!(!names(&batch).contains(&"transfer_last_bytes_total"));

    let one = parse_json(
        r#"{
            "transfers": [{
                "session": "s", "src_node": "gx10-0", "dst_node": "m3ultra-0",
                "bytes_total": 4096, "bytes_sent": 4096, "phase": "done",
                "throughput_gbps": 3.5, "hidden_pct": 0.5,
                "_control_ns": 2500000, "_accept_ns": 1000000
            }],
            "_honesty": {"transfers": "measured"}
        }"#,
    );
    let mut batch = Vec::new();
    collect_snapshot(&one, "gx", 1_000, &mut Carry::new(), &mut batch);
    assert_eq!(value_of(&batch, "transfer_last_bytes_total"), Some(4096.0));
    assert_eq!(
        value_of(&batch, "transfer_last_control_ms"),
        Some(2.5),
        "_control_ns is stored as milliseconds"
    );
    assert_eq!(value_of(&batch, "transfer_last_accept_ms"), Some(1.0));
    assert_eq!(
        value_of(&batch, "transfers_active"),
        Some(0.0),
        "a done transfer is not active"
    );

    let streaming = parse_json(
        r#"{
            "transfers": [{
                "session": "s", "src_node": "gx10-0", "dst_node": "m3ultra-0",
                "bytes_total": 4096, "bytes_sent": 100, "phase": "streaming_nope"
            }],
            "_honesty": {"transfers": "measured"}
        }"#,
    );
    let mut batch = Vec::new();
    collect_snapshot(&streaming, "gx", 1_000, &mut Carry::new(), &mut batch);
    assert_eq!(value_of(&batch, "transfers_active"), Some(1.0));
    assert!(
        !names(&batch).contains(&"transfer_last_throughput_gbps"),
        "a field the transfer does not carry yields no series"
    );
}

#[test]
fn non_finite_and_non_numeric_values_are_skipped() {
    let snapshot = parse_json(
        r#"{
            "wire": {"requests_per_s": "not-a-number"},
            "_honesty": {"wire": {"requests_per_s": "measured"}}
        }"#,
    );
    let mut batch = Vec::new();
    collect_snapshot(&snapshot, "gx", 1_000, &mut Carry::new(), &mut batch);
    assert!(batch.is_empty());

    let mut batch = Vec::new();
    metrics("muser_queue_depth NaN\n", 1_000, &mut Carry::new(), &mut batch);
    assert!(batch.is_empty(), "NaN is not a measurement");
}

#[test]
fn dflash_history_requires_the_runtime_presence_marker() {
    let without_runtime = parse_json(
        r#"{
            "specdec": {
                "accept_rate": 0.0,
                "cumulative_accepted": 0,
                "cumulative_drafted": 0,
                "ane_route_failures": 0,
                "metal_route_failures": 0
            },
            "_honesty": {"specdec": "measured"}
        }"#,
    );
    let mut carry = Carry::new();
    let mut batch = Vec::new();
    metrics(
        "muser_queue_depth 0\nmuser_dflash_acceptance_ratio 0\n",
        1_000,
        &mut carry,
        &mut batch,
    );
    collect_snapshot(&without_runtime, "gx", 1_000, &mut carry, &mut batch);
    gate_optional_features(Some(&without_runtime), &mut batch);
    assert!(
        names(&batch).iter().all(|name| !name.starts_with("dflash_")),
        "unconfigured DFlash values are gaps, not a row of synthetic-looking zeros"
    );
    assert_eq!(
        value_of(&batch, "queue_depth"),
        Some(0.0),
        "gating one optional feature must not discard ordinary measurements"
    );

    let with_runtime = parse_json(
        r#"{
            "specdec": {
                "draft_len": 7,
                "accept_rate": 0.0,
                "cumulative_accepted": 0,
                "cumulative_drafted": 0,
                "ane_route_failures": 0,
                "metal_route_failures": 0
            },
            "_honesty": {"specdec": "measured"}
        }"#,
    );
    let mut batch = Vec::new();
    metrics("muser_dflash_acceptance_ratio 0\n", 2_000, &mut Carry::new(), &mut batch);
    collect_snapshot(&with_runtime, "gx", 2_000, &mut Carry::new(), &mut batch);
    gate_optional_features(Some(&with_runtime), &mut batch);
    assert_eq!(
        value_of(&batch, "dflash_accept_rate"),
        Some(0.0),
        "a configured runtime's measured zero remains a real measurement"
    );
    assert_eq!(value_of(&batch, "dflash_drafted_total"), Some(0.0));
}

#[test]
fn last_request_decode_rate_is_only_recorded_when_a_request_completed() {
    let mut carry = Carry::new();
    let idle = "muser_completion_tokens_total 100\nmuser_request_decode_tok_s 107.9\n";

    let mut batch = Vec::new();
    metrics(idle, 1_000, &mut carry, &mut batch);
    assert!(
        find(&batch, "request_decode_tok_s").is_none(),
        "the first tick has nothing to compare against, so it claims nothing"
    );

    let mut batch = Vec::new();
    metrics(idle, 2_000, &mut carry, &mut batch);
    assert!(
        find(&batch, "request_decode_tok_s").is_none(),
        "no completion since the last tick: the latch is stale, not a reading"
    );
    assert_eq!(
        value_of(&batch, "completion_tokens_total"),
        Some(100.0),
        "the counter itself is still a real measurement every tick"
    );

    let mut batch = Vec::new();
    metrics(
        "muser_completion_tokens_total 356\nmuser_request_decode_tok_s 107.9\n",
        3_000,
        &mut carry,
        &mut batch,
    );
    assert_eq!(
        value_of(&batch, "request_decode_tok_s"),
        Some(107.9),
        "a request completed this tick, so the rate describes it"
    );

    let mut batch = Vec::new();
    metrics(
        "muser_completion_tokens_total 1\nmuser_request_decode_tok_s 107.9\n",
        4_000,
        &mut carry,
        &mut batch,
    );
    assert!(
        find(&batch, "request_decode_tok_s").is_none(),
        "a restarted engine resets the counter; that is not a completion"
    );
}

#[test]
fn a_transfer_receipt_is_recorded_once_per_change_not_once_per_tick() {
    let done = parse_json(
        r#"{
            "transfers": [{
                "session": "s", "src_node": "gx10-0", "dst_node": "m3ultra-0",
                "bytes_total": 4096, "bytes_sent": 4096, "phase": "done",
                "throughput_gbps": 3.5, "hidden_pct": 0.5,
                "_control_ns": 2500000, "_accept_ns": 1000000
            }],
            "_honesty": {"transfers": "measured"}
        }"#,
    );
    let mut carry = Carry::new();

    let mut batch = Vec::new();
    collect_snapshot(&done, "gx", 1_000, &mut carry, &mut batch);
    assert_eq!(
        value_of(&batch, "transfer_last_bytes_total"),
        Some(4096.0),
        "a receipt not seen before is news"
    );

    let mut batch = Vec::new();
    collect_snapshot(&done, "gx", 2_000, &mut carry, &mut batch);
    assert!(
        !names(&batch).contains(&"transfer_last_bytes_total"),
        "the same finished handoff is not a new measurement a second later"
    );
    assert_eq!(
        value_of(&batch, "transfers_active"),
        Some(0.0),
        "the active count is a fresh reading every tick regardless"
    );

    // A handoff in flight advances, so it keeps producing points.
    let advancing = parse_json(
        r#"{
            "transfers": [{
                "session": "s2", "src_node": "gx10-0", "dst_node": "m3ultra-0",
                "bytes_total": 4096, "bytes_sent": 2048, "phase": "streaming_nope",
                "throughput_gbps": 3.5, "hidden_pct": 0.5,
                "_control_ns": 2500000, "_accept_ns": 1000000
            }],
            "_honesty": {"transfers": "measured"}
        }"#,
    );
    let mut batch = Vec::new();
    collect_snapshot(&advancing, "gx", 3_000, &mut carry, &mut batch);
    assert_eq!(
        value_of(&batch, "transfer_last_bytes_total"),
        Some(4096.0),
        "a different receipt is news again"
    );
}

// ---------------------------------------------------------------------------
// Agents

#[test]
fn agent_samples_carry_agent_measured_and_their_own_device() {
    let text = "\
# HELP muser_agent_up whether the source answered this scrape
# TYPE muser_agent_up gauge
muser_agent_up{agent=\"gx10\"} 1
# TYPE muser_gpu_utilization_ratio gauge
muser_gpu_utilization_ratio{gpu=\"0\",uuid=\"GPU-aaa\",name=\"Dev A\"} 0.25
muser_gpu_utilization_ratio{gpu=\"1\",uuid=\"GPU-bbb\",name=\"Dev B\"} 0.75
muser_gpu_power_watts{gpu=\"0\",uuid=\"GPU-aaa\",name=\"Dev A\"} 11
muser_gpu_memory_used_bytes{gpu=\"0\",uuid=\"GPU-aaa\",name=\"Dev A\"} 1024
muser_gpu_memory_total_bytes{gpu=\"0\",uuid=\"GPU-aaa\",name=\"Dev A\"} 4096
";
    let mut batch = Vec::new();
    let scrape = agent(text, "gx", 1_000, &mut batch);
    assert_eq!(scrape.gpus_seen, 2);

    let util0 = find(&batch, "gpu0_utilization_ratio").expect("gpu0 utilization");
    assert_eq!(number(util0.value), 0.25);
    assert_eq!(util0.source, Source::Agent);
    assert_eq!(
        util0.honesty,
        Honesty::AgentMeasured,
        "an agent number must never be tagged with the engine's 'measured'"
    );
    assert_eq!(util0.instance, "gx", "stored under the instance it belongs to");
    assert_eq!(util0.ts_ms, 1_000);
    assert_eq!(
        value_of(&batch, "gpu1_utilization_ratio"),
        Some(0.75),
        "each device's series reads its own gpu label"
    );

    assert_eq!(value_of(&batch, "gpu0_power_watts"), Some(11.0));
    assert!(
        find(&batch, "gpu0_temperature_celsius").is_none(),
        "a probe the exporter omitted stores nothing for that field alone"
    );
    assert_eq!(value_of(&batch, "gpu0_memory_used_bytes"), Some(1024.0));
    assert!(find(&batch, "gpu1_power_watts").is_none());
    assert!(find(&batch, "gpu2_utilization_ratio").is_none());
    assert!(
        find(&batch, "host_package_power_watts").is_none(),
        "a GPU exporter publishes no host power, so none is stored"
    );
}

#[test]
fn an_exporter_that_says_its_source_is_down_stores_nothing() {
    let mut batch = Vec::new();
    let scrape = agent("muser_agent_up{agent=\"gx10\"} 0\n", "gx", 1_000, &mut batch);
    assert!(batch.is_empty());
    assert_eq!(scrape.gpus_seen, 0);

    let mut batch = Vec::new();
    agent(
        "muser_agent_up{agent=\"gx10\"} 0\nmuser_gpu_utilization_ratio{gpu=\"0\"} 0.5\n",
        "gx",
        1_000,
        &mut batch,
    );
    assert!(
        batch.is_empty(),
        "the exporter's own up=0 wins over any series in the same document"
    );
}

#[test]
fn host_power_series_are_stored_only_where_the_sampler_reported() {
    let text = "\
muser_agent_up{agent=\"mac\"} 1
muser_host_package_power_watts{host=\"studio\"} 7
muser_host_cpu_power_watts{host=\"studio\"} 3
";
    let mut batch = Vec::new();
    let scrape = agent(text, "mac", 2_000, &mut batch);
    assert_eq!(scrape.gpus_seen, 0);
    let package = find(&batch, "host_package_power_watts").expect("package power");
    assert_eq!(number(package.value), 7.0);
    assert_eq!(package.honesty, Honesty::AgentMeasured);
    assert_eq!(value_of(&batch, "host_cpu_power_watts"), Some(3.0));
    assert!(
        find(&batch, "host_gpu_power_watts").is_none(),
        "a sampler that did not report is a gap, never a zero"
    );
}

#[test]
fn devices_past_the_catalog_are_reported_rather_than_silently_dropped() {
    let mut text = String::from("muser_agent_up{agent=\"gx10\"} 1\n");
    // One more device than the catalog can name.
    for index in 0..=MAX_AGENT_GPUS {
        text.push_str(&format!("muser_gpu_utilization_ratio{{gpu=\"{index}\"}} 0.5\n"));
    }
    let mut batch = Vec::new();
    let scrape = agent(&text, "gx", 1_000, &mut batch);
    assert_eq!(scrape.gpus_seen, MAX_AGENT_GPUS + 1);
    assert!(
        scrape.gpus_seen > MAX_AGENT_GPUS,
        "the overflow has to be visible to the caller that logs it"
    );
    assert_eq!(
        batch.len(),
        MAX_AGENT_GPUS,
        "the catalog stores the devices it can name and no more"
    );
    assert!(find(&batch, "gpu7_utilization_ratio").is_some());

    let mut health = AgentHealth::new();
    assert!(health.note_overflow("agent 'g'", scrape.gpus_seen).is_some());
    assert_eq!(health.overflowing, Some(true));
    assert!(health.note_overflow("agent 'g'", scrape.gpus_seen).is_none());
    assert_eq!(
        health.overflowing,
        Some(true),
        "logging is once per state change, not once per tick"
    );
    assert_eq!(
        health.note_overflow("agent 'g'", MAX_AGENT_GPUS).as_deref(),
        Some("history sampler: agent 'g' is back within 8 GPUs")
    );
    assert_eq!(health.overflowing, Some(false));
}

#[test]
fn non_finite_and_unparseable_agent_lines_store_nothing() {
    let text = "\
muser_agent_up{agent=\"gx10\"} 1
muser_gpu_utilization_ratio{gpu=\"0\"} NaN
muser_gpu_power_watts{gpu=\"0\"} not-a-number
muser_gpu_temperature_celsius{gpu=\"0\"} +Inf
";
    let mut batch = Vec::new();
    agent(text, "gx", 1_000, &mut batch);
    assert!(batch.is_empty(), "NaN and +Inf are not measurements");
}

#[test]
fn an_empty_agent_document_stores_nothing() {
    let mut batch = Vec::new();
    let scrape = agent("", "gx", 1_000, &mut batch);
    assert!(batch.is_empty());
    assert_eq!(scrape.gpus_seen, 0);
}

#[test]
fn metrics_samples_are_tagged_measured_from_the_metrics_plane() {
    let mut batch = Vec::new();
    metrics(
        "muser_queue_depth 2\nmuser_ttft_milliseconds{quantile=\"0.95\"} 12.5\n",
        7,
        &mut Carry::new(),
        &mut batch,
    );
    let queue = find(&batch, "queue_depth").expect("queue_depth sampled");
    assert_eq!(number(queue.value), 2.0);
    assert_eq!(queue.source, Source::Metrics);
    assert_eq!(queue.honesty, Honesty::Measured);
    assert_eq!(queue.ts_ms, 7);
    assert_eq!(value_of(&batch, "ttft_ms_p95"), Some(12.5));
    assert!(
        find(&batch, "ttft_ms_p50").is_none(),
        "an unpublished quantile is a gap, not a copy of p95"
    );
}

// ---------------------------------------------------------------------------
// Ticks

#[test]
fn a_tick_records_what_answered_and_logs_what_changed() {
    let mut sampler = Sampler::new(2);
    let agents = |first: &str| {
        vec![
            AgentBody { name: "g0".to_owned(), outcome: Ok(scrape(first)) },
            AgentBody { name: "g1".to_owned(), outcome: Err("timed out".to_owned()) },
        ]
    };
    let up = "muser_agent_up 1\nmuser_gpu_power_watts{gpu=\"0\"} 5\n";
    let tick = sampler.tick(
        "gx",
        1_000,
        &Ok(scrape("muser_queue_depth 2\n")),
        &Err("upstream answered 503".to_owned()),
        &agents(up),
    );
    assert_eq!(names(&tick.batch), vec!["queue_depth", "gpu0_power_watts"]);
    assert!(tick.batch.iter().all(|sample| sample.ts_ms == 1_000));
    assert_eq!(tick.states, vec![AgentState::Live, AgentState::Unreachable]);
    assert_eq!(
        tick.lines,
        vec![
            "history sampler: instance 'gx' /snapshot unavailable (upstream answered 503); \
             recording nothing until it returns",
            "history sampler: agent 'g1' /metrics unavailable (timed out); recording nothing \
             until it returns",
        ]
    );
    let again = sampler.tick(
        "gx",
        2_000,
        &Err("timed out".to_owned()),
        &Err("upstream answered 503".to_owned()),
        &agents("muser_agent_up 0\n"),
    );
    assert!(again.batch.is_empty());
    assert_eq!(
        again.lines,
        vec![
            "history sampler: instance 'gx' /metrics unavailable (timed out); recording nothing \
             until it returns",
        ]
    );
    let back = sampler.tick(
        "gx",
        3_000,
        &Ok(scrape("")),
        &Ok(parse_json("{}")),
        &agents("muser_agent_up 0\n"),
    );
    assert!(back.batch.is_empty());
    assert_eq!(
        back.lines,
        vec![
            "history sampler: instance 'gx' /metrics recovered",
            "history sampler: instance 'gx' /snapshot recovered",
        ]
    );
}

#[test]
fn a_healthy_start_is_no_event() {
    let mut health = Health::new();
    assert_eq!(health.note("history", "maintenance", Ok(())), None);
    assert!(health.note("history", "maintenance", Err("disk")).is_some());
    assert_eq!(health.note("history", "maintenance", Err("disk")), None);
    assert_eq!(
        health.note("history", "maintenance", Ok(())).as_deref(),
        Some("history sampler: history maintenance recovered")
    );
}

#[test]
fn a_body_is_read_or_its_failure_told() {
    let read = read_exposition(Ok(b"a 1\n".to_vec())).expect("text");
    assert_eq!(read.samples().len(), 1);
    assert_eq!(
        read_exposition(Ok(vec![0xff])).err().as_deref(),
        Some("response was not UTF-8")
    );
    assert_eq!(read_exposition(Err("timed out".to_owned())).err().as_deref(), Some("timed out"));
    assert_eq!(accept(200, vec![1]), Ok(vec![1]));
    assert_eq!(accept(503, vec![1]), Err("upstream answered 503".to_owned()));
}

#[test]
fn timestamps_are_those_of_the_clock() {
    assert_eq!(stamp(None), 0);
    assert_eq!(stamp(Some(1_755_300_000_000)), 1_755_300_000_000);
    // 2020 is past, and the year 2200 is not yet here.
    assert!(now_ms() > 1_577_836_800_000 && now_ms() < 7_258_118_400_000);
}

// ---------------------------------------------------------------------------
// Queries

const NOW: i64 = 1_755_300_000_000;

#[test]
fn defaults_cover_the_narrowest_dashboard_range() {
    let params = Params::parse(None, NOW).expect("defaults parse");
    assert_eq!(params.to_ms, NOW);
    assert_eq!(params.from_ms, NOW - DEFAULT_WINDOW_MS);
    assert_eq!(params.step_s, NATIVE_STEP_S);
    assert_eq!(params.series.len(), all().len());
}

#[test]
fn unknown_series_are_named_back_to_the_caller() {
    let error = Params::parse(Some("series=decode_tok_s,gpu_util,made_up"), NOW)
        .err()
        .expect("must reject");
    assert_eq!(error, "unknown series: 'gpu_util', 'made_up'");
}

#[test]
fn range_and_step_are_validated() {
    for (query, needle) in [
        ("from_ms=100&to_ms=100", "greater than from_ms"),
        ("from_ms=200&to_ms=100", "greater than from_ms"),
        ("step_s=0", "at least 1"),
        ("step_s=-5", "at least 1"),
        ("from_ms=abc", "must be an integer"),
        ("surprise=1", "unknown query parameter 'surprise'"),
    ] {
        let error = Params::parse(Some(query), NOW)
            .err()
            .unwrap_or_else(|| panic!("{query} must be rejected"));
        assert!(error.contains(needle), "for {query}: {error}");
    }
}

#[test]
fn oversized_ranges_are_refused_rather_than_truncated() {
    let day = 24 * 60 * 60 * 1000i64;
    let error = Params::parse(Some(&format!("from_ms=0&to_ms={day}&step_s=1")), NOW)
        .err()
        .expect("86400 points at step_s=1 must be refused");
    assert!(error.contains("raise step_s"), "{error}");
    // The same range is fine once the caller widens the step.
    Params::parse(Some(&format!("from_ms=0&to_ms={day}&step_s=60")), NOW)
        .expect("1440 points is well inside the cap");
}

#[test]
fn extreme_bounds_are_refused_instead_of_wrapping_past_the_cap() {
    for query in [
        &format!("from_ms={}&to_ms={}&step_s=1", i64::MIN, i64::MAX),
        &format!("from_ms=0&to_ms=1000&step_s={}", i64::MAX),
        &format!("to_ms={}&step_s=1", i64::MIN),
    ] {
        let error = Params::parse(Some(query), NOW)
            .err()
            .unwrap_or_else(|| panic!("{query} must be refused"));
        assert!(!error.is_empty(), "{query} must explain itself");
    }
}

#[test]
fn every_catalog_series_is_addressable_by_name() {
    let catalog = all();
    let names: Vec<&str> = catalog.iter().map(|entry| entry.name.as_str()).collect();
    let params = Params::parse(Some(&format!("series={}", names.join(","))), NOW)
        .expect("the whole catalog must be requestable");
    assert_eq!(params.series, names);
}

#[test]
fn the_messages_of_a_refused_query_are_exact() {
    for (query, message) in [
        ("series=", "query parameter 'series' named no series"),
        ("series=,", "query parameter 'series' named no series"),
        ("to_ms=1.5", "query parameter 'to_ms' must be an integer"),
        ("from_ms=1&to_ms=1", "to_ms must be greater than from_ms"),
        (
            "from_ms=0&to_ms=20001000&step_s=1",
            "range would return 20001 points per series at step_s=1; raise step_s (limit 20000)",
        ),
        ("alone", "unknown query parameter 'alone'"),
    ] {
        assert_eq!(Params::parse(Some(query), NOW).err().as_deref(), Some(message));
    }
    let params = Params::parse(Some("from_ms=0&to_ms=20000000&step_s=1&&"), NOW).expect("the cap");
    assert_eq!((params.from_ms, params.to_ms), (0, 20_000_000));
}

#[test]
fn an_instance_is_named_by_its_segment() {
    assert_eq!(name_in_path("/v1/history/gx"), Some("gx".to_owned()));
    assert_eq!(name_in_path("/v1/history/gx/series"), Some("gx".to_owned()));
    assert_eq!(name_in_path("/v1/history/"), Some(String::new()));
    assert_eq!(name_in_path("/v1/fleet"), None);
}

fn member<'a>(value: &'a Json, key: &str) -> &'a Json {
    value.get(key).expect("a member")
}

#[test]
fn an_answer_claims_only_the_honesty_that_its_rows_share() {
    let bits = 2.5f64.to_bits();
    let reply = answer(&vec![
        Answered {
            name: "decode_tok_s".to_owned(),
            points: vec![(1_000, bits)],
            tags: vec![Honesty::Measured],
        },
        Answered { name: "queue_depth".to_owned(), points: Vec::new(), tags: Vec::new() },
        Answered {
            name: "requests_per_s".to_owned(),
            points: vec![(1_000, bits), (2_000, bits)],
            tags: vec![Honesty::Measured, Honesty::Target],
        },
    ]);
    assert_eq!(reply.status, 200);
    let series = member(&reply.body, "series");
    let decode = member(series, "decode_tok_s");
    assert_eq!(member(decode, "kind").as_str(), Some("gauge"));
    assert_eq!(member(decode, "source").as_str(), Some("metrics"));
    assert_eq!(member(decode, "honesty").as_str(), Some("measured"));
    let points = member(decode, "points").as_array().expect("points");
    let point = points[0].as_array().expect("a point");
    assert!(point[0].same_as(&Json::Whole(1_000)));
    assert_eq!(point[1].as_bits(), Some(bits));
    let empty = member(series, "queue_depth");
    assert!(member(empty, "honesty").same_as(&Json::Null));
    assert_eq!(member(empty, "points").as_array().map(Vec::len), Some(0));
    let mixed = member(series, "requests_per_s");
    assert!(member(mixed, "honesty").same_as(&Json::Null));
    let tags = member(mixed, "honesty_tags").as_array().expect("tags");
    let tags: Vec<Option<&str>> = tags.iter().map(Json::as_str).collect();
    assert_eq!(tags, vec![Some("measured"), Some("target")]);
}

#[test]
fn a_series_asked_for_twice_is_answered_once() {
    let twice = |points: Vec<(i64, u64)>| Answered {
        name: "decode_tok_s".to_owned(),
        points,
        tags: Vec::new(),
    };
    let reply = answer(&vec![twice(Vec::new()), twice(vec![(5, 0)])]);
    match member(&reply.body, "series") {
        Json::Object(members) => {
            assert_eq!(members.len(), 1);
            assert_eq!(member(&members[0].1, "points").as_array().map(Vec::len), Some(1));
        }
        other => panic!("{other:?}"),
    }
}

#[test]
fn a_failed_query_tells_the_log_and_not_the_caller() {
    let (reply, line) = query_failed(&StoreError::Sqlite("disk I/O error".to_owned()));
    assert_eq!(reply.status, 500);
    let error = member(&reply.body, "error");
    assert_eq!(member(error, "message").as_str(), Some("history store unavailable"));
    assert_eq!(line, "history query failed: history store: disk I/O error");
    let (_, line) = query_failed(&StoreError::Closed);
    assert_eq!(line, "history query failed: history store is closed");
}

#[test]
fn the_listing_describes_the_whole_catalog() {
    let listing = series_list();
    let entries = member(&listing, "series").as_array().expect("entries");
    assert_eq!(entries.len(), all().len());
    let power = lookup("gpu0_power_watts").expect("a series");
    let described = describe(&power);
    assert_eq!(member(&described, "name").as_str(), Some("gpu0_power_watts"));
    assert_eq!(member(&described, "source").as_str(), Some("agent"));
    assert!(member(&described, "honesty_path").same_as(&Json::Null));
    assert_eq!(member(&described, "unit").as_str(), Some(power.unit));
}

// ---------------------------------------------------------------------------
// The store

fn memory_store() -> Connection {
    let connection = Connection::open_in_memory().expect("in-memory sqlite");
    connection.execute_batch(SCHEMA).expect("schema");
    connection
}

fn put(connection: &Connection, series: &str, ts_ms: i64, value: f64) {
    put_tagged(connection, series, ts_ms, value, Honesty::Measured);
}

fn put_tagged(connection: &Connection, series: &str, ts_ms: i64, value: f64, honesty: Honesty) {
    connection
        .execute(
            WRITE,
            ("gx", series, ts_ms, value, Source::Metrics.as_str(), honesty.as_str()),
        )
        .expect("write");
}

fn rows(connection: &Connection, series: &str) -> Vec<(i64, f64)> {
    let mut statement = connection
        .prepare("SELECT ts, value FROM samples WHERE series = ?1 ORDER BY ts")
        .expect("prepare");
    let rows = statement
        .query_map((series,), |row| Ok((row.get(0)?, row.get(1)?)))
        .expect("query");
    rows.map(|row| row.expect("row")).collect()
}

fn maintain(connection: &Connection, now_ms: i64, retention_days: u64) -> Maintenance {
    let bounds = window(now_ms, retention_days);
    let expired = connection.execute(EXPIRE, (bounds.expiry,)).expect("expire");
    let candidates: Vec<Candidate> = {
        let mut statement = connection.prepare(CANDIDATES).expect("prepare");
        let rows = statement
            .query_map((BUCKET_MS, bounds.cutoff), |row| {
                Ok(Candidate {
                    instance: row.get(0)?,
                    series: row.get(1)?,
                    bucket: row.get(2)?,
                    count: row.get(3)?,
                    newest_ts: row.get(4)?,
                    mean: row.get::<_, f64>(5)?.to_bits(),
                    last: row.get::<_, f64>(6)?.to_bits(),
                    source: row.get(7)?,
                    honesty: row.get(8)?,
                })
            })
            .expect("query");
        rows.map(|row| row.expect("row")).collect()
    };
    let mut cleared = Vec::new();
    for (index, rewrite) in plan(&candidates) {
        let candidate = &candidates[index];
        cleared.push(
            connection
                .execute(
                    CLEAR,
                    (&candidate.instance, &candidate.series, rewrite.from, rewrite.until),
                )
                .expect("clear"),
        );
        connection
            .execute(
                WRITE,
                (
                    &candidate.instance,
                    &candidate.series,
                    rewrite.from,
                    f64::from_bits(rewrite.bits),
                    &candidate.source,
                    &candidate.honesty,
                ),
            )
            .expect("write");
    }
    report(expired, &cleared)
}

#[test]
fn a_plan_skips_what_is_settled_and_a_report_adds_up() {
    let candidate = |series: &str, count: i64, newest_ts: i64| Candidate {
        instance: "gx".to_owned(),
        series: series.to_owned(),
        bucket: 10 * BUCKET_MS,
        count,
        newest_ts,
        mean: 2.0f64.to_bits(),
        last: 3.0f64.to_bits(),
        source: "metrics".to_owned(),
        honesty: "measured".to_owned(),
    };
    let start = 10 * BUCKET_MS;
    let planned = plan(&vec![
        candidate("decode_tok_s", 1, start),
        candidate("decode_tok_s", 1, start + 1),
        candidate("completion_tokens_total", 3, start + 2),
    ]);
    assert_eq!(planned.len(), 2);
    assert_eq!((planned[0].0, planned[1].0), (1, 2));
    for (_, rewrite) in &planned {
        assert_eq!((rewrite.from, rewrite.until), (start, start + BUCKET_MS));
    }
    assert_eq!(f64::from_bits(planned[0].1.bits), 2.0, "a gauge becomes its mean");
    assert_eq!(f64::from_bits(planned[1].1.bits), 3.0, "a counter becomes its newest");

    assert_eq!(report(0, &Vec::new()), Maintenance::default());
    assert_eq!(
        report(4, &vec![3, 2, 1]),
        Maintenance { buckets_rewritten: 3, rows_collapsed: 6, rows_expired: 4 }
    );
}

fn pooled(pooled: &Pooled) -> f64 {
    match pooled {
        Pooled::Last(bits) => f64::from_bits(*bits),
        Pooled::Mean(values) => {
            values.iter().map(|bits| f64::from_bits(*bits)).sum::<f64>() / values.len() as f64
        }
    }
}

fn points(data: &SeriesData) -> Vec<(i64, f64)> {
    data.points.iter().map(|(ts, value)| (*ts, pooled(value))).collect()
}

fn read_range(connection: &Connection, request: &Query) -> Vec<SeriesData> {
    let mut statement = connection.prepare(READ).expect("prepare");
    let mut result = Vec::new();
    for name in &request.series {
        let rows = statement
            .query_map((&request.instance, name, request.from_ms, request.to_ms), |row| {
                Ok(Row {
                    ts_ms: row.get(0)?,
                    bits: row.get::<_, f64>(1)?.to_bits(),
                    honesty: row.get(2)?,
                })
            })
            .expect("query");
        let rows: Vec<Row> = rows.map(|row| row.expect("row")).collect();
        result.push(SeriesData::of(&rows, name, request.step_s));
    }
    result
}

fn asked(instance: &str, series: &[&str], step_s: i64) -> Query {
    Query {
        instance: instance.to_owned(),
        series: series.iter().map(|name| (*name).to_owned()).collect(),
        from_ms: 0,
        to_ms: 10_000,
        step_s,
    }
}

#[test]
fn downsample_averages_gauges_and_keeps_counter_last() {
    let connection = memory_store();
    let now = 100 * RAW_WINDOW_MS;
    let old_bucket = (now - RAW_WINDOW_MS - 5 * BUCKET_MS).div_euclid(BUCKET_MS) * BUCKET_MS;
    for (offset, value) in [(0, 1.0), (1_000, 2.0), (2_000, 3.0)] {
        put(&connection, "decode_tok_s", old_bucket + offset, value);
        put(&connection, "completion_tokens_total", old_bucket + offset, value);
    }
    // A fresh sample inside the raw window must survive untouched.
    put(&connection, "decode_tok_s", now - 1_000, 9.0);

    let report = maintain(&connection, now, 7);
    assert_eq!(report.buckets_rewritten, 2);
    assert_eq!(report.rows_collapsed, 6);
    assert_eq!(report.rows_expired, 0);

    assert_eq!(
        rows(&connection, "decode_tok_s"),
        [(old_bucket, 2.0), (now - 1_000, 9.0)],
        "gauge collapses to the bucket mean; the raw-window row is untouched"
    );
    assert_eq!(
        rows(&connection, "completion_tokens_total"),
        [(old_bucket, 3.0)],
        "a cumulative counter keeps the bucket's last value, never a mean"
    );
}

#[test]
fn downsample_is_idempotent() {
    let connection = memory_store();
    let now = 100 * RAW_WINDOW_MS;
    let old_bucket = (now - RAW_WINDOW_MS - 5 * BUCKET_MS).div_euclid(BUCKET_MS) * BUCKET_MS;
    for (offset, value) in [(0, 1.0), (1_000, 2.0), (2_000, 3.0)] {
        put(&connection, "decode_tok_s", old_bucket + offset, value);
    }
    maintain(&connection, now, 7);
    let before = rows(&connection, "decode_tok_s");
    let report = maintain(&connection, now, 7);
    assert_eq!(
        report,
        Maintenance::default(),
        "a second pass over aligned buckets must do nothing"
    );
    assert_eq!(rows(&connection, "decode_tok_s"), before);
}

#[test]
fn downsample_leaves_partial_buckets_at_the_cutoff_alone() {
    let connection = memory_store();
    let now = 100 * RAW_WINDOW_MS;
    let cutoff = (now - RAW_WINDOW_MS).div_euclid(BUCKET_MS) * BUCKET_MS;
    put(&connection, "decode_tok_s", cutoff + 1_000, 1.0);
    put(&connection, "decode_tok_s", cutoff + 2_000, 3.0);
    let report = maintain(&connection, now, 7);
    assert_eq!(report, Maintenance::default());
    assert_eq!(
        rows(&connection, "decode_tok_s"),
        [(cutoff + 1_000, 1.0), (cutoff + 2_000, 3.0)]
    );
}

#[test]
fn retention_deletes_rows_past_the_window_and_keeps_the_rest() {
    let connection = memory_store();
    let now = 100 * RAW_WINDOW_MS;
    let day = 24 * 60 * 60 * 1000i64;
    put(&connection, "decode_tok_s", now - 8 * day, 1.0);
    put(&connection, "decode_tok_s", now - 7 * day + 1, 2.0);
    put(&connection, "decode_tok_s", now - 1_000, 3.0);

    let report = maintain(&connection, now, 7);
    assert_eq!(report.rows_expired, 1, "only the 8-day-old row expires");
    let kept: Vec<i64> =
        rows(&connection, "decode_tok_s").into_iter().map(|(ts, _)| ts).collect();
    assert_eq!(kept.len(), 2);
    assert!(kept.iter().all(|ts| *ts >= now - 7 * day));
}

#[test]
fn retention_saturates_instead_of_deleting_everything() {
    assert_eq!(window(NOW, u64::MAX).expiry, NOW - i64::MAX);
    assert_eq!(window(NOW, 1).expiry, NOW - 86_400_000);
    assert_eq!(window(NOW, 1).cutoff % BUCKET_MS, 0);
}

#[test]
fn query_returns_stored_points_untouched_at_native_step() {
    let connection = memory_store();
    put(&connection, "decode_tok_s", 1_000, 1.5);
    put(&connection, "decode_tok_s", 2_000, 2.5);
    let result = read_range(&connection, &asked("gx", &["decode_tok_s"], 1));
    assert_eq!(points(&result[0]), [(1_000, 1.5), (2_000, 2.5)]);
    assert_eq!(result[0].honesty, Some(Honesty::Measured));
}

#[test]
fn query_buckets_by_step_and_leaves_gaps_empty() {
    let connection = memory_store();
    // 0..2 s populated, 2..4 s missing, 4..6 s populated.
    put(&connection, "decode_tok_s", 0, 1.0);
    put(&connection, "decode_tok_s", 1_000, 3.0);
    put(&connection, "decode_tok_s", 4_000, 5.0);
    put(&connection, "completion_tokens_total", 0, 10.0);
    put(&connection, "completion_tokens_total", 1_000, 11.0);

    let result =
        read_range(&connection, &asked("gx", &["decode_tok_s", "completion_tokens_total"], 2));
    assert_eq!(
        points(&result[0]),
        [(0, 2.0), (4_000, 5.0)],
        "gauge mean per bucket; the empty 2..4 s bucket yields no point"
    );
    assert_eq!(points(&result[1]), [(0, 11.0)], "counter keeps bucket last");
}

#[test]
fn query_of_an_unsampled_series_is_empty_not_zero() {
    let connection = memory_store();
    put(&connection, "decode_tok_s", 1_000, 1.5);
    let result = read_range(&connection, &asked("gx", &["wire_ingress_gbps"], 1));
    assert!(result[0].points.is_empty());
    assert_eq!(
        result[0].honesty, None,
        "no rows means no honesty claim, not a default tag"
    );
}

#[test]
fn query_is_scoped_to_one_instance() {
    let connection = memory_store();
    put(&connection, "decode_tok_s", 1_000, 1.5);
    let result = read_range(&connection, &asked("mac", &["decode_tok_s"], 1));
    assert!(result[0].points.is_empty());
}

#[test]
fn resampling_the_same_millisecond_replaces_rather_than_duplicates() {
    let connection = memory_store();
    put(&connection, "decode_tok_s", 1_000, 1.5);
    put(&connection, "decode_tok_s", 1_000, 2.5);
    assert_eq!(rows(&connection, "decode_tok_s"), [(1_000, 2.5)]);
}

#[test]
fn a_range_names_every_tag_it_holds_and_speaks_with_none() {
    let connection = memory_store();
    put_tagged(&connection, "decode_tok_s", 1_000, 1.0, Honesty::Target);
    put_tagged(&connection, "decode_tok_s", 2_000, 2.0, Honesty::Measured);
    put_tagged(&connection, "decode_tok_s", 3_000, 3.0, Honesty::Target);
    let data = &read_range(&connection, &asked("gx", &["decode_tok_s"], 1))[0];
    assert_eq!(data.honesty_tags, vec![Honesty::Target, Honesty::Measured]);
    assert_eq!(data.sole_honesty(), None);
    assert_eq!(data.honesty, Some(Honesty::Target), "the newest row's");
}

#[test]
fn buckets_are_anchored_at_the_epoch_on_both_sides_of_it() {
    let at = |ts: i64| (ts, 1.0f64.to_bits());
    let buckets = bucket(&vec![at(-1), at(0), at(1_999), at(2_000)], 2_000, Kind::Gauge);
    let starts: Vec<i64> = buckets.iter().map(|(start, _)| *start).collect();
    assert_eq!(starts, vec![-2_000, 0, 2_000]);
    match &buckets[1].1 {
        Pooled::Mean(values) => assert_eq!(values.len(), 2),
        other => panic!("{other:?}"),
    }
}

#[test]
fn store_failures_are_logged_once_per_change() {
    let mut last = None;
    assert_eq!(
        note_failure(&mut last, Some("full".to_owned())).as_deref(),
        Some("history store write failed: full")
    );
    assert_eq!(note_failure(&mut last, Some("full".to_owned())), None);
    assert_eq!(
        note_failure(&mut last, Some("locked".to_owned())).as_deref(),
        Some("history store write failed: locked")
    );
    assert_eq!(note_failure(&mut last, None).as_deref(), Some("history store writes recovered"));
    assert_eq!(note_failure(&mut last, None), None);
}
