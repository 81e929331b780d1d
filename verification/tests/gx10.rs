use muser_console::cli::{gx10_arguments, gx10_listen, GX10_LISTEN};
use muser_console::exposition::{Figure, CONTENT_TYPE};
use muser_console::gx10::expo::{
    escape, render, MEMORY_TOTAL, MEMORY_TOTAL_HELP, MEMORY_USED, MEMORY_USED_HELP, POWER,
    POWER_HELP, SCRAPE_DURATION, SCRAPE_DURATION_HELP, TEMPERATURE, TEMPERATURE_HELP, UP, UP_HELP,
    UTILIZATION, UTILIZATION_HELP,
};
use muser_console::gx10::nvml::{
    device, devices, ratio_from_percent, read_c_string, symbol, watts_from_milliwatts, Loading,
    MemoryProbe, NumberProbe, NvmlSource, Probes, TextProbe, NVML_SUCCESS,
};
use muser_console::gx10::server::ExporterState;
use muser_console::gx10::source::{DeviceSample, GpuSource, RecordedSource};
use muser_console::history::prom::Exposition;
use muser_console::net::{IpAddr, SocketAddr};

// ---------------------------------------------------------------------------
// Rendering

fn figure(value: f64) -> Figure {
    Figure::Double { bits: value.to_bits(), text: value.to_string() }
}

fn numeral(figure: &Option<Figure>) -> Option<String> {
    match figure {
        Some(Figure::Double { text, .. }) => Some(text.clone()),
        Some(Figure::Exact { text }) => Some(text.clone()),
        None => None,
    }
}

fn full_device(index: u32) -> DeviceSample {
    DeviceSample {
        index,
        uuid: Some(format!("GPU-00000000-0000-0000-0000-00000000000{index}")),
        name: Some("test-device".to_owned()),
        utilization_ratio: Some(figure(0.5)),
        power_watts: Some(figure(12.5)),
        temperature_celsius: Some(figure(40.0)),
        memory_used_bytes: Some(1024),
        memory_total_bytes: Some(4096),
    }
}

fn lines_for(text: &str, metric: &str) -> Vec<String> {
    text.lines()
        .filter(|line| line.starts_with(&format!("{metric}{{")))
        .map(str::to_owned)
        .collect()
}

#[test]
fn a_source_that_did_not_answer_publishes_only_agent_up_zero() {
    let text = render(None, "0.007");
    assert_eq!(
        text,
        "# HELP muser_agent_up 1 when the gx10 agent's NVML source answered this scrape, \
         0 when it did not; when 0 the exposition carries no other series.\n\
         # TYPE muser_agent_up gauge\n\
         muser_agent_up{agent=\"gx10\"} 0\n"
    );
    assert!(!text.contains("muser_gpu_"), "no device series without a source");
    assert!(
        !text.contains(SCRAPE_DURATION),
        "a failed probe's duration describes nothing about the node"
    );
}

#[test]
fn an_answered_scrape_publishes_up_one_and_its_duration() {
    let text = render(Some(&[]), "1.5");
    assert!(text.contains("muser_agent_up{agent=\"gx10\"} 1\n"));
    assert!(text.contains("muser_agent_scrape_duration_seconds{agent=\"gx10\"} 1.5\n"));
    assert!(
        !text.contains("muser_gpu_"),
        "a working NVML with no GPUs still publishes no device series"
    );
}

#[test]
fn every_published_family_carries_help_and_type() {
    let text = render(Some(&[full_device(0)]), "0.001");
    for metric in [
        UP,
        SCRAPE_DURATION,
        UTILIZATION,
        POWER,
        TEMPERATURE,
        MEMORY_USED,
        MEMORY_TOTAL,
    ] {
        assert!(text.contains(&format!("# HELP {metric} ")), "{metric} needs HELP");
        assert!(text.contains(&format!("# TYPE {metric} gauge\n")), "{metric} needs TYPE");
    }
}

#[test]
fn a_failed_field_probe_omits_only_that_field() {
    let mut device = full_device(0);
    device.power_watts = None;
    device.temperature_celsius = None;
    let text = render(Some(&[device]), "0.001");

    assert!(
        !text.contains(POWER) && !text.contains(TEMPERATURE),
        "a field NVML did not answer is absent, header and all:\n{text}"
    );
    assert_eq!(lines_for(&text, UTILIZATION).len(), 1);
    assert_eq!(lines_for(&text, MEMORY_USED).len(), 1);
    assert_eq!(lines_for(&text, MEMORY_TOTAL).len(), 1);
}

#[test]
fn one_devices_failed_probe_does_not_silence_its_siblings() {
    let mut second = full_device(1);
    second.power_watts = None;
    let text = render(Some(&[full_device(0), second]), "0.001");

    let power = lines_for(&text, POWER);
    assert_eq!(power.len(), 1, "only gpu 0 reported power");
    assert!(power[0].contains("gpu=\"0\""));
    assert_eq!(lines_for(&text, UTILIZATION).len(), 2);
}

#[test]
fn a_device_whose_driver_strings_failed_still_publishes_its_readings() {
    let mut device = full_device(0);
    device.uuid = None;
    device.name = None;
    let text = render(Some(&[device]), "0.001");

    assert!(text.contains("muser_gpu_utilization_ratio{gpu=\"0\"} 0.5\n"));
    assert!(
        !text.contains("uuid=") && !text.contains("name="),
        "a label whose probe failed is absent, not empty"
    );
}

#[test]
fn label_values_are_escaped() {
    let mut device = DeviceSample::new(0);
    device.uuid = Some("GPU-back\\slash".to_owned());
    device.name = Some("NVIDIA \"GB10\"\nrev\\2".to_owned());
    device.utilization_ratio = Some(figure(0.25));
    let text = render(Some(&[device]), "0.001");
    let line = lines_for(&text, UTILIZATION).remove(0);

    assert_eq!(
        line,
        "muser_gpu_utilization_ratio{gpu=\"0\",uuid=\"GPU-back\\\\slash\",\
         name=\"NVIDIA \\\"GB10\\\"\\nrev\\\\2\"} 0.25"
    );
    // up (3) + scrape duration (3) + the one utilization family (3).
    assert_eq!(
        text.lines().count(),
        9,
        "an embedded newline must not split the exposition into extra lines:\n{text}"
    );
}

#[test]
fn escape_touches_only_the_three_exposition_escapes() {
    assert_eq!(escape("plain"), "plain");
    assert_eq!(escape("a\\b"), "a\\\\b");
    assert_eq!(escape("a\"b"), "a\\\"b");
    assert_eq!(escape("a\nb"), "a\\nb");
    assert_eq!(escape("tab\there"), "tab\there", "a tab is a legal label byte");
    assert_eq!(escape("näme µ"), "näme µ", "UTF-8 passes through");
}

#[test]
fn non_finite_readings_are_omitted_like_failures() {
    let mut device = DeviceSample::new(0);
    device.utilization_ratio = Some(figure(f64::NAN));
    device.power_watts = Some(figure(f64::INFINITY));
    device.temperature_celsius = Some(figure(f64::NEG_INFINITY));
    let text = render(Some(&[device]), "0.001");
    assert!(!text.contains("muser_gpu_"), "got:\n{text}");
    assert!(!text.contains("NaN") && !text.contains("inf"));
}

#[test]
fn samples_of_a_family_stay_contiguous_under_one_header() {
    let text = render(Some(&[full_device(0), full_device(1), full_device(2)]), "0.001");
    let lines: Vec<&str> = text.lines().collect();
    let start = lines
        .iter()
        .position(|line| *line == format!("# TYPE {UTILIZATION} gauge"))
        .expect("utilization family present");
    for offset in 1..=3 {
        assert!(
            lines[start + offset].starts_with(&format!("{UTILIZATION}{{gpu=\"")),
            "sample {offset} follows its own family header"
        );
    }
    assert_eq!(
        text.matches(&format!("# HELP {UTILIZATION} ")).count(),
        1,
        "one HELP per family, not one per device"
    );
}

#[test]
fn help_text_never_breaks_the_comment_line() {
    for help in [
        UP_HELP,
        SCRAPE_DURATION_HELP,
        UTILIZATION_HELP,
        POWER_HELP,
        TEMPERATURE_HELP,
        MEMORY_USED_HELP,
        MEMORY_TOTAL_HELP,
    ] {
        assert!(!help.is_empty());
        assert!(!help.contains('\n'), "HELP is one line: {help}");
        assert!(!help.contains('\\'), "HELP needs no escaping: {help}");
    }
}

#[test]
fn the_content_type_names_the_exposition_version() {
    assert_eq!(CONTENT_TYPE, "text/plain; version=0.0.4; charset=utf-8");
}

/// What the exporter writes, the console reads back.
#[test]
fn a_rendered_document_is_read_back_sample_by_sample() {
    let mut odd = full_device(7);
    odd.name = Some("brace } quote \" slash \\ line\nfeed, comma".to_owned());
    odd.power_watts = None;
    let text = render(Some(&[full_device(0), odd]), "0.25");
    let parsed = Exposition::parse(&text);
    assert_eq!(parsed.samples().len(), 2 + 2 + 1 + 2 + 2 + 2);
    assert_eq!(parsed.value(UP, None), Some("1"));
    assert_eq!(parsed.value(SCRAPE_DURATION, None), Some("0.25"));
    assert_eq!(parsed.labeled_value(POWER, "gpu", "0"), Some("12.5"));
    assert_eq!(parsed.labeled_value(POWER, "gpu", "7"), None);
    assert_eq!(parsed.labeled_value(MEMORY_TOTAL, "gpu", "7"), Some("4096"));
    let last = parsed.samples().last().expect("a sample");
    assert_eq!(last.label("name"), Some("brace } quote \" slash \\ line\nfeed, comma"));
}

#[test]
fn a_silent_source_is_read_back_as_down_and_nothing_else() {
    let parsed = Exposition::parse(&render(None, "3"));
    assert_eq!(parsed.samples().len(), 1);
    assert_eq!(parsed.value(UP, None), Some("0"));
    assert_eq!(parsed.samples()[0].label("agent"), Some("gx10"));
}

// ---------------------------------------------------------------------------
// Sources

#[test]
fn a_fresh_device_sample_holds_no_readings() {
    let sample = DeviceSample::new(3);
    assert_eq!(sample.index, 3);
    assert_eq!(sample, DeviceSample { index: 3, ..DeviceSample::default() });
    assert!(sample.utilization_ratio.is_none());
    assert!(sample.power_watts.is_none());
    assert!(sample.temperature_celsius.is_none());
    assert!(sample.memory_used_bytes.is_none());
    assert!(sample.memory_total_bytes.is_none());
    assert!(sample.uuid.is_none());
    assert!(sample.name.is_none());
}

#[test]
fn a_failing_source_reports_a_reason_and_no_devices() {
    let source = RecordedSource::failing("NVML not loadable");
    assert_eq!(source.scrape(), Err("NVML not loadable".to_owned()));
}

#[test]
fn a_recorded_source_replays_its_devices() {
    let source = RecordedSource::devices(vec![full_device(0), full_device(4)]);
    for _ in 0..2 {
        let devices = source.scrape().expect("devices");
        assert_eq!(devices.len(), 2);
        assert_eq!(devices[1].index, 4);
        assert_eq!(numeral(&devices[1].power_watts), Some("12.5".to_owned()));
    }
}

// ---------------------------------------------------------------------------
// The driver's answers

fn filled(capacity: usize, bytes: &[u8]) -> Vec<u8> {
    let mut buffer = vec![0u8; capacity];
    for (slot, byte) in buffer.iter_mut().zip(bytes) {
        *slot = *byte;
    }
    buffer
}

#[test]
fn driver_text_is_read_only_when_the_call_succeeded_and_the_bytes_are_utf8() {
    let buffer = filled(16, b"NVIDIA GB10\0");
    assert_eq!(read_c_string(NVML_SUCCESS, &buffer), Some("NVIDIA GB10".to_owned()));
    assert_eq!(
        read_c_string(9, &buffer),
        None,
        "a failed call publishes no label, whatever is left in the buffer"
    );

    let invalid = filled(4, &[0xff, 0xfe, 0x00]);
    assert_eq!(
        read_c_string(NVML_SUCCESS, &invalid),
        None,
        "driver bytes that are not UTF-8 are omitted, not lossily patched"
    );
}

#[test]
fn an_unterminated_buffer_is_terminated_before_it_is_read() {
    let buffer = [b'A'; 8];
    assert_eq!(read_c_string(NVML_SUCCESS, &buffer), Some("AAAAAAA".to_owned()));
}

#[test]
fn a_symbol_that_is_not_a_function_pointer_is_refused() {
    let address = std::mem::size_of::<usize>();
    let refused = symbol("nvmlInit_v2", std::mem::size_of::<u128>(), address, true);
    assert!(refused.is_err());
    assert_eq!(
        refused,
        Err("nvmlInit_v2: not a function pointer on this target".to_owned())
    );
    assert_eq!(
        symbol("nvmlInit_v2", std::mem::size_of::<fn()>(), address, false),
        Err("nvmlInit_v2: symbol not present".to_owned())
    );
    assert_eq!(symbol("nvmlInit_v2", std::mem::size_of::<fn()>(), address, true), Ok(()));
}

#[test]
fn unit_conversions_match_what_nvml_documents() {
    fn number(figure: Figure) -> f64 {
        match figure {
            Figure::Exact { text } => text.parse().expect("a numeral"),
            Figure::Double { bits, .. } => f64::from_bits(bits),
        }
    }
    assert_eq!(number(ratio_from_percent(0)), 0.0);
    assert_eq!(number(ratio_from_percent(37)), 0.37);
    assert_eq!(number(ratio_from_percent(100)), 1.0);
    assert_eq!(number(watts_from_milliwatts(0)), 0.0);
    assert_eq!(number(watts_from_milliwatts(145_500)), 145.5);
}

/// The exact decimal is what the double of the quotient prints as.
#[test]
fn exact_numerals_are_those_of_the_doubles() {
    for n in [
        0u32, 1, 9, 10, 37, 99, 100, 101, 110, 999, 1000, 1001, 1010, 1100, 65_535, 145_500,
        999_999, 1_000_001, 4_294_967_295,
    ] {
        assert_eq!(
            numeral(&Some(ratio_from_percent(n))),
            Some((f64::from(n) / 100.0).to_string())
        );
        assert_eq!(
            numeral(&Some(watts_from_milliwatts(n))),
            Some((f64::from(n) / 1000.0).to_string())
        );
    }
}

fn probes(index: u32) -> Probes {
    Probes {
        index,
        reached: true,
        uuid: TextProbe { status: 0, buffer: filled(96, b"GPU-1") },
        name: TextProbe { status: 0, buffer: filled(96, b"GB10") },
        utilization_percent: NumberProbe { status: 0, value: 37 },
        power_milliwatts: NumberProbe { status: 0, value: 12_500 },
        temperature_celsius: NumberProbe { status: 0, value: 41 },
        memory: MemoryProbe { status: 0, used: 7, total: 9 },
    }
}

#[test]
fn a_device_reports_exactly_the_calls_that_answered() {
    let whole = device(&probes(2));
    assert_eq!(whole.index, 2);
    assert_eq!(whole.uuid.as_deref(), Some("GPU-1"));
    assert_eq!(whole.name.as_deref(), Some("GB10"));
    assert_eq!(numeral(&whole.utilization_ratio), Some("0.37".to_owned()));
    assert_eq!(numeral(&whole.power_watts), Some("12.5".to_owned()));
    assert_eq!(numeral(&whole.temperature_celsius), Some("41".to_owned()));
    assert_eq!(whole.memory_used_bytes, Some(7));
    assert_eq!(whole.memory_total_bytes, Some(9));

    let mut partial = probes(2);
    partial.power_milliwatts.status = 3;
    partial.memory.status = 3;
    partial.name.status = 3;
    let part = device(&partial);
    assert!(part.power_watts.is_none());
    assert!(part.memory_used_bytes.is_none() && part.memory_total_bytes.is_none());
    assert!(part.name.is_none());
    assert_eq!(numeral(&part.utilization_ratio), Some("0.37".to_owned()));
}

#[test]
fn an_unreachable_device_is_skipped_and_its_siblings_stay() {
    let mut missing = probes(1);
    missing.reached = false;
    let found = devices(0, &vec![probes(0), missing, probes(2)]).expect("counted");
    let indices: Vec<u32> = found.iter().map(|device| device.index).collect();
    assert_eq!(indices, vec![0, 2]);
}

#[test]
fn devices_that_cannot_be_counted_are_a_failure() {
    assert_eq!(
        devices(-3, &Vec::new()).err(),
        Some("nvmlDeviceGetCount_v2 returned -3".to_owned())
    );
    assert!(devices(0, &Vec::new()).expect("no device").is_empty());
}

fn fail_all(mut loading: Loading) -> String {
    loop {
        let name = match loading.next() {
            Ok(name) => name.to_owned(),
            Err(reason) => return reason.to_owned(),
        };
        loading.failed(format!("dlopen {name}: not loadable on this host"));
    }
}

#[test]
fn a_host_without_nvml_reports_a_failure_not_an_empty_device_list() {
    let mut source = NvmlSource::with_candidates(&["libnvidia-ml-absent-from-this-host.so.1"]);
    for _ in 0..2 {
        let loading = source.attempts().expect("nothing is loaded");
        let error = fail_all(loading);
        assert!(error.contains("libnvidia-ml-absent-from-this-host.so.1"), "{error}");
        let outcome = Err(error);
        source.settle(&outcome);
        assert!(
            source.attempts().is_some(),
            "the failure is reported on every scrape, never cached into a success"
        );
    }
}

#[test]
fn the_candidate_list_is_tried_in_order_and_the_last_failure_is_reported() {
    let source =
        NvmlSource::with_candidates(&["libnvidia-ml-absent-a.so", "libnvidia-ml-absent-b.so"]);
    let loading = source.attempts().expect("nothing is loaded");
    assert_eq!(loading.next(), Ok("libnvidia-ml-absent-a.so"));
    let error = fail_all(loading);
    assert!(error.contains("libnvidia-ml-absent-b.so"), "{error}");
}

#[test]
fn an_empty_candidate_list_is_a_failure() {
    let source = NvmlSource::with_candidates(&[]);
    let loading = source.attempts().expect("nothing is loaded");
    assert_eq!(fail_all(loading), "no NVML library name to try");
}

#[test]
fn the_driver_is_looked_for_under_its_own_names() {
    let source = NvmlSource::new();
    assert_eq!(source.candidates, vec!["libnvidia-ml.so.1", "libnvidia-ml.so"]);
}

#[test]
fn a_library_stays_loaded_while_it_answers() {
    let mut source = NvmlSource::new();
    source.settle(&Ok(Vec::new()));
    assert!(source.attempts().is_none());
    source.settle(&Err("nvmlDeviceGetCount_v2 returned 15".to_owned()));
    assert!(source.attempts().is_some());
}

// ---------------------------------------------------------------------------
// The log

#[test]
fn a_state_change_is_logged_once_not_every_scrape() {
    let mut state = ExporterState::new();
    assert_eq!(
        state.note_state(true, None).as_deref(),
        Some("NVML answering; device series are publishing")
    );
    assert_eq!(state.note_state(true, None), None);
    assert_eq!(state.last_up, Some(true));
    assert_eq!(
        state.note_state(false, Some("NVML absent")).as_deref(),
        Some("NVML unavailable, publishing muser_agent_up 0 and no device series: NVML absent")
    );
    assert_eq!(state.last_up, Some(false));
}

#[test]
fn a_scrape_answers_with_what_it_found_and_never_with_what_it_remembers() {
    let mut state = ExporterState::new();
    let (body, line) = state.metrics(&Ok(vec![full_device(0)]), "0.5");
    assert!(body.contains("muser_gpu_power_watts"));
    assert!(line.is_some());
    let (body, line) = state.metrics(&Err("gone".to_owned()), "0.5");
    assert_eq!(body, render(None, "0.5"));
    assert!(line.expect("a change").contains("gone"));
    let (body, line) = state.metrics(&Err("still gone".to_owned()), "0.5");
    assert_eq!(body, render(None, "0.5"));
    assert_eq!(line, None);
}

// ---------------------------------------------------------------------------
// The command line

fn arguments(values: &[&str]) -> Vec<String> {
    values.iter().map(|value| (*value).to_owned()).collect()
}

/// Reads `a.b.c.d:port`.
fn address(text: &str) -> Option<SocketAddr> {
    let (host, port) = text.split_once(':')?;
    let mut ip = 0u32;
    let mut parts = 0;
    for part in host.split('.') {
        ip = ip * 256 + u32::from(part.parse::<u8>().ok()?);
        parts += 1;
    }
    if parts != 4 {
        return None;
    }
    Some(SocketAddr { ip: IpAddr::V4(ip), port: port.parse().ok()?, text: text.to_owned() })
}

fn parse_arguments(values: &[&str]) -> Result<SocketAddr, String> {
    let arguments = arguments(values);
    let listen = gx10_listen(&arguments)?;
    gx10_arguments(&arguments, address(&listen))
}

#[test]
fn the_default_bind_is_loopback() {
    let listen = parse_arguments(&[]).expect("defaults parse");
    assert_eq!(listen.text, GX10_LISTEN);
    assert!(listen.ip.is_loopback());
    assert_eq!(listen.port, 9707);
}

#[test]
fn a_wider_bind_has_to_be_spelled_out() {
    let listen = parse_arguments(&["--listen", "0.0.0.0:9707"]).expect("parses");
    assert!(!listen.ip.is_loopback());
}

#[test]
fn bad_arguments_are_refused_rather_than_guessed_at() {
    assert!(parse_arguments(&["--listen"]).is_err());
    assert!(parse_arguments(&["--listen", "not-an-address"]).is_err());
    assert!(parse_arguments(&["--api-key-file", "k"]).is_err());

    assert_eq!(
        parse_arguments(&["--listen"]).err().as_deref(),
        Some("--listen requires an address")
    );
    assert_eq!(
        parse_arguments(&["--listen", "not-an-address"]).err().as_deref(),
        Some("--listen 'not-an-address' is not a host:port address")
    );
    assert_eq!(
        parse_arguments(&["--api-key-file", "k"]).err().as_deref(),
        Some("unknown argument '--api-key-file'")
    );
}
