use muser_console::cli::{console_arguments, mac_arguments, mac_listen, read_u64, Options};
use muser_console::exposition::Figure;
use muser_console::history::prom::Exposition;
use muser_console::mac::expo::{escape_label_value, labels, render, Times};
use muser_console::mac::exporter::{
    Exporter, Scrape, Served, SourceSample, MAX_READING_AGE,
};
use muser_console::mac::host::{detect, usable};
use muser_console::mac::parse::{parse_powermetrics, power_lines, PowerField, Reading};
use muser_console::mac::source::{
    exited, first_line, next_wait, Action, Event, FrameAssembler, Powermetrics, RecordedSource,
    SourceError, Wait, DEFAULT_SAMPLE_MS, MAX_BUDGET_MS, MAX_FRAME_BYTES, PROGRAM,
};
use muser_console::net::{IpAddr, SocketAddr};

// ---------------------------------------------------------------------------
// Labels and names

#[test]
fn escapes_exactly_the_three_defined_sequences() {
    assert_eq!(
        escape_label_value("a\\b\"c\nd"),
        "a\\\\b\\\"c\\nd",
        "backslash, quote and newline"
    );
    assert_eq!(escape_label_value("plain-name.local"), "plain-name.local");
    assert_eq!(escape_label_value("é"), "é", "UTF-8 passes through");
}

#[test]
fn label_sets_render_or_vanish() {
    assert_eq!(labels(&[]), "");
    assert_eq!(labels(&[("agent", "mac")]), "{agent=\"mac\"}");
    assert_eq!(
        labels(&[("host", "we\"ird"), ("agent", "mac")]),
        "{host=\"we\\\"ird\",agent=\"mac\"}"
    );
}

#[test]
fn empty_and_control_bearing_names_are_refused() {
    assert_eq!(usable(String::new()), None);
    assert_eq!(usable("bad\rname".to_owned()), None);
    assert_eq!(usable("bad\u{7f}name".to_owned()), None);
}

#[test]
fn escapable_characters_are_kept_for_the_renderer_to_escape() {
    assert_eq!(
        usable("od\"d\\name\nline".to_owned()),
        Some("od\"d\\name\nline".to_owned())
    );
}

#[test]
fn detect_returns_a_usable_name_or_nothing() {
    assert_eq!(detect(0, b"studio.local\0rest"), Some("studio.local".to_owned()));
    assert_eq!(detect(-1, b"studio.local\0"), None);
    assert_eq!(detect(0, b"\0studio"), None);
    assert_eq!(detect(0, b"bad\tname\0"), None);
    assert_eq!(detect(0, &[0xff, 0xfe, 0]), None);
    if let Some(name) = detect(0, b"studio\0") {
        assert!(!name.is_empty());
        assert_eq!(usable(name.clone()), Some(name));
    }
}

// ---------------------------------------------------------------------------
// Power lines

fn watts_of(text: &str) -> Vec<Figure> {
    power_lines(text)
        .iter()
        .map(|line| {
            let printed: f64 = line.number.parse().expect("a numeral");
            let watts = if line.milliwatts { printed / 1000.0 } else { printed };
            Figure::Double { bits: watts.to_bits(), text: watts.to_string() }
        })
        .collect()
}

fn parse(text: &str) -> Reading {
    parse_powermetrics(text, &watts_of(text))
}

fn watts(field: &Option<PowerField>) -> f64 {
    match &field.as_ref().expect("a field").watts {
        Figure::Double { bits, .. } => f64::from_bits(*bits),
        Figure::Exact { text } => text.parse().expect("a numeral"),
    }
}

#[test]
fn reads_milliwatt_and_watt_lines_and_converts_by_the_printed_unit() {
    let reading = parse("CPU Power: 1234 mW\nPackage Power: 2.5W\n");
    assert_eq!(watts(&reading.cpu), 1.234);
    assert_eq!(watts(&reading.package), 2.5);
    assert_eq!(reading.gpu, None, "no GPU line in the input, no GPU field");
}

#[test]
fn package_labels_are_tried_in_preference_order_and_the_winner_is_recorded() {
    let combined = parse("Combined Power (CPU + GPU + ANE): 500 mW\n");
    assert_eq!(
        combined.package.as_ref().expect("combined line").source_label,
        "Combined Power (CPU + GPU + ANE)"
    );

    let intel = parse("Intel energy model derived package power (CPUs+GT+SA): 5.23W\n");
    assert_eq!(watts(&intel.package), 5.23);

    let both = parse("Package Power: 1000 mW\nCombined Power (CPU + GPU + ANE): 900 mW\n");
    assert_eq!(both.package.as_ref().expect("package line").source_label, "Package Power");
    assert_eq!(watts(&both.package), 1.0);
}

#[test]
fn the_preferred_package_label_wins_wherever_it_stands() {
    let reading = parse("Combined Power (CPU + GPU + ANE): 900 mW\nPackage Power: 1000 mW\n");
    assert_eq!(reading.package.as_ref().expect("a line").source_label, "Package Power");
    assert_eq!(watts(&reading.package), 1.0);
}

#[test]
fn first_occurrence_of_a_label_wins() {
    let reading = parse("GPU Power: 10 mW\nGPU Power: 40 mW\n");
    assert_eq!(watts(&reading.gpu), 0.01);
}

#[test]
fn other_units_labels_and_shapes_are_not_power_lines() {
    let reading = parse(
        "\
*** Sampled system activity ***
GPU HW active frequency: 400 MHz
GPU idle residency:  97.00%
ANE Power: 0 mW
DRAM Power: 111 mW
CPU Power: 1234 mW extra
CPU Power: not-a-number mW
: 5 mW
CPU Power
",
    );
    assert_eq!(reading, Reading::default(), "nothing here is a recognized power line");
    assert!(reading.is_empty());
}

#[test]
fn values_that_are_not_finite_numbers_are_dropped() {
    let words = parse("CPU Power: NaN mW\nGPU Power: inf W\n");
    assert!(words.is_empty(), "non-numeric readings publish nothing");
    let overflow = format!("CPU Power: {} mW\n", "9".repeat(400));
    assert!(parse(&overflow).is_empty(), "an overflowing reading publishes nothing");
}

#[test]
fn an_overflowing_line_does_not_hide_the_next_one() {
    let text = format!("CPU Power: {} W\nCPU Power: 3 W\n", "9".repeat(400));
    assert_eq!(watts(&parse(&text).cpu), 3.0);
}

#[test]
fn empty_output_is_empty_not_zero() {
    let reading = parse("");
    assert!(reading.is_empty());
    assert_eq!(reading.package, None);
}

/// The shape of the sampler's output: headings, frequencies, residencies and
/// power lines, under a header of comments. It is no measurement.
const SAMPLE: &str = "\
# STRUCTURE FIXTURE - NOT A MEASUREMENT
# The values are written by hand: only the shape of the lines counts.

*** Sampled system activity (1000.00ms elapsed) ***

**** Processor usage ****

E-Cluster Online: 100%
E-Cluster HW active frequency: 1020 MHz
E-Cluster HW active residency:  12.50% (600 MHz:  50% 1020 MHz:  50%)
CPU 0 frequency: 1020 MHz
CPU 0 idle residency:  87.50%
CPU Power: 1234 mW
GPU Power: 56.25 mW
ANE Power: 0 mW
DRAM Power: 300 mW
Package Power: 1290.5 mW

**** GPU usage ****

GPU HW active frequency: 400 MHz
GPU HW active residency:   3.00% (400 MHz: 3.0%)
GPU idle residency:  97.00%
";

#[test]
fn each_recognized_line_maps_to_its_field_with_its_unit_converted() {
    let reading = parse(SAMPLE);
    let label = |field: &Option<PowerField>| field.as_ref().expect("a line").source_label.clone();
    assert_eq!(label(&reading.package), "Package Power");
    assert_eq!(watts(&reading.package), 1.2905);
    assert_eq!(label(&reading.cpu), "CPU Power");
    assert_eq!(watts(&reading.cpu), 1.234);
    assert_eq!(label(&reading.gpu), "GPU Power");
    assert_eq!(watts(&reading.gpu), 0.05625);
}

#[test]
fn the_fixtures_header_comments_change_nothing() {
    let without_header: String = SAMPLE
        .lines()
        .filter(|line| !line.trim_start().starts_with('#'))
        .collect::<Vec<_>>()
        .join("\n");
    assert_ne!(SAMPLE, without_header, "the fixture does carry a header");
    assert_eq!(
        parse(SAMPLE),
        parse(&without_header),
        "unrecognized lines contribute nothing, header or not"
    );
}

#[test]
fn frequencies_residencies_and_unlisted_power_lines_are_not_read() {
    let reading = parse(SAMPLE);
    assert!(SAMPLE.contains("ANE Power: 0 mW"));
    assert!(SAMPLE.contains("GPU HW active frequency: 400 MHz"));
    assert_eq!(
        reading.package.as_ref().map(|field| field.source_label.clone()),
        Some("Package Power".to_owned()),
        "the MHz and % lines did not become a power field"
    );
}

#[test]
fn a_sample_missing_a_line_yields_no_field_for_it() {
    // Only one recognized line: the other two fields stay absent rather than
    // becoming zero.
    let reading = parse("**** Processor usage ****\n\nCPU Power: 1234 mW\n");
    assert_eq!(watts(&reading.cpu), 1.234);
    assert_eq!(reading.package, None);
    assert_eq!(reading.gpu, None);
    assert!(!reading.is_empty());
}

#[test]
fn output_with_nothing_recognizable_yields_nothing() {
    let reading = parse("powermetrics must be invoked as the superuser\n");
    assert_eq!(reading, Reading::default());
    assert_eq!(reading.package, None);
    assert_eq!(reading.cpu, None);
    assert_eq!(reading.gpu, None);
    assert!(reading.is_empty());
    assert!(parse("no power here\n\n# CPU Power is a comment\n").is_empty());
}

#[test]
fn numerals_keep_their_signs_and_points() {
    let lines = power_lines("A: +1.5W\nB: -2 W\nC: .5 mW\nD: 1. W\nE: . W\nF: 1-2 W\n");
    let numbers: Vec<&str> = lines.iter().map(|line| line.number.as_str()).collect();
    assert_eq!(numbers, vec!["+1.5", "-2", ".5", "1."]);
    assert!(lines[2].milliwatts && !lines[3].milliwatts);
}

// ---------------------------------------------------------------------------
// Failures and frames

#[test]
fn error_categories_quote_nothing_from_the_environment() {
    let error = SourceError::Exit {
        status: "exit status: 1".to_owned(),
        stderr: "powermetrics must be invoked as the superuser".to_owned(),
    };
    assert_eq!(error.category(), "the powermetrics process exited non-zero");
    assert!(
        error.detail().contains("superuser"),
        "the full reason is available for the log"
    );
}

#[test]
fn every_failure_has_its_category_and_its_detail() {
    let cases = [
        (
            SourceError::Spawn("denied".to_owned()),
            "the powermetrics process could not be started",
            "spawn failed: denied",
        ),
        (
            SourceError::Io("pipe".to_owned()),
            "reading the powermetrics output failed",
            "io error: pipe",
        ),
        (
            SourceError::Exit { status: "exit status: 1".to_owned(), stderr: String::new() },
            "the powermetrics process exited non-zero",
            "exit status: 1",
        ),
        (
            SourceError::Exit { status: "exit status: 1".to_owned(), stderr: "no".to_owned() },
            "the powermetrics process exited non-zero",
            "exit status: 1 — no",
        ),
        (
            SourceError::Timeout(900),
            "powermetrics did not produce a completed frame in time",
            "no completed frame within 0.900 s",
        ),
        (
            SourceError::Timeout(12_034),
            "powermetrics did not produce a completed frame in time",
            "no completed frame within 12.034 s",
        ),
        (
            SourceError::NonUtf8,
            "the powermetrics output was not UTF-8",
            "output was not UTF-8",
        ),
    ];
    for (error, category, detail) in cases {
        assert_eq!(error.category(), category);
        assert_eq!(error.detail(), detail);
        assert_eq!(error.copy().detail(), detail);
    }
}

#[test]
fn stderr_is_reduced_to_one_bounded_line() {
    assert_eq!(first_line("\n  hello \nworld\n"), "hello");
    let long = "x".repeat(500);
    let trimmed = first_line(&long);
    assert_eq!(trimmed.chars().count(), 201, "200 characters plus an ellipsis");
    assert!(trimmed.ends_with('…'));
    assert_eq!(first_line(&"y".repeat(200)), "y".repeat(200));
    assert_eq!(first_line("  \n \n"), "");
}

#[test]
fn recorded_responses_replay_in_order_then_repeat_the_last() {
    let mut recorded = RecordedSource::new(vec![
        Ok("first".to_owned()),
        Err(SourceError::Timeout(2_000)),
    ]);
    assert_eq!(recorded.sample().expect("first response"), "first");
    assert!(recorded.sample().is_err());
    assert!(recorded.sample().is_err(), "last response repeats");
    assert_eq!(recorded.calls(), 3);
}

#[test]
fn the_canned_sources_say_what_they_stand_for() {
    let mut text = RecordedSource::text("CPU Power: 1 W\n");
    assert_eq!(text.sample().expect("text"), "CPU Power: 1 W\n");
    assert_eq!(text.sample().expect("text"), "CPU Power: 1 W\n");
    let mut refused = RecordedSource::not_root();
    let error = refused.sample().expect_err("a failure");
    assert_eq!(
        error.detail(),
        "exit status: 1 — powermetrics must be invoked as the superuser"
    );
    let mut nothing = RecordedSource::new(Vec::new());
    let error = nothing.sample().expect_err("a failure");
    assert_eq!(error.detail(), "spawn failed: no recorded responses");
}

#[test]
fn real_source_budget_stays_inside_the_console_tick() {
    let default = Powermetrics::new(DEFAULT_SAMPLE_MS);
    assert_eq!(default.budget_ms, 900);
    assert_eq!(Powermetrics::new(50).budget_ms, MAX_BUDGET_MS);
    assert_eq!(
        Powermetrics::new(5_000).budget_ms,
        MAX_BUDGET_MS,
        "operator input cannot stretch a scrape beyond one history tick"
    );
}

#[test]
fn the_sampler_is_started_by_its_absolute_path_with_its_width() {
    assert_eq!(PROGRAM, "/usr/bin/powermetrics");
    assert_eq!(
        Powermetrics::new(250).arguments(),
        vec!["--buffer-size", "1", "--samplers", "cpu_power,gpu_power", "-n", "-1", "-i", "250"]
    );
    assert_eq!(Powermetrics::new(200).stall_budget_ms(), 3_200);
    assert_eq!(Powermetrics::new(u64::MAX).stall_budget_ms(), u64::MAX);
}

#[test]
fn real_frame_delimiters_publish_only_completed_samples() {
    let mut frames = FrameAssembler::new();
    assert!(frames.push("Machine model: ignored preamble").unwrap().is_none());
    assert!(frames.push("*** Sampled system activity (first) ***").unwrap().is_none());
    assert!(frames.push("CPU Power: 1 W").unwrap().is_none());
    let first = frames
        .push("*** Sampled system activity (second) ***")
        .unwrap()
        .expect("the second header completes the first frame");
    assert_eq!(first, "*** Sampled system activity (first) ***\nCPU Power: 1 W\n");
    assert!(
        frames.push("GPU Power: 2 W").unwrap().is_none(),
        "an in-progress final frame is never presented as complete"
    );
}

#[test]
fn a_runaway_frame_is_refused_instead_of_growing_without_bound() {
    let mut frames = FrameAssembler::new();
    frames.push("*** Sampled system activity (first) ***").unwrap();
    let line = "x".repeat(MAX_FRAME_BYTES);
    assert!(matches!(frames.push(&line), Err(SourceError::Io(_))));
}

#[test]
fn a_frame_may_fill_the_limit_exactly() {
    let header = "*** Sampled system activity (";
    let mut frames = FrameAssembler::new();
    frames.push(header).unwrap();
    let room = MAX_FRAME_BYTES - (header.len() + 1) - 1;
    // Two bytes each in UTF-8.
    let wide = "é".repeat(room / 2);
    assert!(frames.push(&wide).is_ok());
    assert!(frames.push("xx").is_err());
}

#[test]
fn the_samplers_events_are_answered_one_by_one() {
    let mut frames = FrameAssembler::new();
    let header = "*** Sampled system activity (".to_owned();
    assert!(matches!(frames.step(&Event::Line(header.clone()), 3_200), Action::Go));
    assert!(matches!(frames.step(&Event::Line("CPU Power: 1 W".to_owned()), 3_200), Action::Go));
    match frames.step(&Event::Line(header), 3_200) {
        Action::Publish(frame) => {
            assert_eq!(frame, "*** Sampled system activity (\nCPU Power: 1 W\n")
        }
        other => panic!("{other:?}"),
    }
    assert!(matches!(
        frames.step(&Event::Stalled, 3_200),
        Action::Stop(SourceError::Timeout(3_200))
    ));
    assert!(matches!(frames.step(&Event::Garbled, 1), Action::Stop(SourceError::NonUtf8)));
    match frames.step(&Event::Broken("pipe".to_owned()), 1) {
        Action::Stop(SourceError::Io(reason)) => assert_eq!(reason, "pipe"),
        other => panic!("{other:?}"),
    }
    assert!(matches!(frames.step(&Event::Ended, 1), Action::Reap));
    assert_eq!(
        exited(true, "exit status: 0", "").detail(),
        "io error: persistent powermetrics sampler exited"
    );
    assert_eq!(exited(false, "signal: 9", "killed").detail(), "signal: 9 — killed");
}

#[test]
fn a_frame_is_served_once() {
    assert_eq!(next_wait(None, 0, 0), Wait::Again);
    assert_eq!(next_wait(Some(true), 4, 3), Wait::Serve);
    assert_eq!(next_wait(Some(true), 4, 4), Wait::Again);
    assert_eq!(next_wait(Some(false), 4, 4), Wait::Fail);
}

// ---------------------------------------------------------------------------
// Scrapes

const SECOND: u64 = 1_000_000_000;

fn sampled(text: &str, completed_at: u64) -> Result<SourceSample, SourceError> {
    Ok(SourceSample {
        text: text.to_owned(),
        completed_at,
        completed_unix_s: Some("1700000000.125".to_owned()),
    })
}

fn times() -> Times {
    Times {
        duration: "0.000012".to_owned(),
        age: "0.25".to_owned(),
        age_rounded: "0.250".to_owned(),
        window_rounded: "0.500".to_owned(),
    }
}

#[test]
fn a_reading_is_reused_only_while_it_is_young() {
    let text = "CPU Power: 1500 mW\n";
    let mut exporter = Exporter::new(None);
    assert!(exporter.reuse(0, 0).is_none());
    let (scrape, line) =
        exporter.finish(&sampled(text, 10 * SECOND), &watts_of(text), 10 * SECOND, 10 * SECOND + 5);
    assert!(scrape.up && scrape.failure.is_none());
    assert_eq!(scrape.duration, 5);
    assert_eq!(scrape.served.expect("served").age, 5);
    assert_eq!(line.as_deref(), Some("powermetrics reading available"));

    let limit = 10 * SECOND + MAX_READING_AGE;
    let reused = exporter.reuse(limit - 3, limit).expect("still young");
    assert!(reused.up);
    assert_eq!(reused.duration, 3);
    let served = reused.served.expect("served");
    assert_eq!(served.age, MAX_READING_AGE);
    assert_eq!(served.completed_unix_s.as_deref(), Some("1700000000.125"));
    assert_eq!(watts(&served.reading.cpu), 1.5);
    assert!(exporter.reuse(limit, limit + 1).is_none(), "past the window it is not served");
}

#[test]
fn a_failure_serves_nothing_and_keeps_nothing_alive() {
    let text = "CPU Power: 1500 mW\n";
    let mut exporter = Exporter::with_max_age(None, 0);
    exporter.finish(&sampled(text, 100), &watts_of(text), 100, 100);
    let failure = Err(SourceError::Timeout(900));
    let (scrape, line) = exporter.finish(&failure, &Vec::new(), 200, 210);
    assert!(!scrape.up);
    assert!(scrape.served.is_none());
    assert_eq!(
        scrape.failure,
        Some("powermetrics did not produce a completed frame in time")
    );
    assert_eq!(
        line.as_deref(),
        Some("no reading: no completed frame within 0.900 s (publishing nothing)")
    );
    assert!(exporter.reuse(210, 210).is_none());
}

#[test]
fn with_no_age_at_all_every_scrape_measures() {
    let text = "CPU Power: 1500 mW\n";
    let mut exporter = Exporter::with_max_age(None, 0);
    let mut source = RecordedSource::new(vec![
        Ok(text.to_owned()),
        Err(SourceError::Timeout(900)),
    ]);
    let first = source.sample().expect("the recorded text");
    let (scrape, _) = exporter.finish(&sampled(&first, 7), &watts_of(text), 7, 7);
    assert!(scrape.up);
    assert!(exporter.reuse(7, 7).is_none(), "not even at the time of its completion");
    assert!(exporter.fresh_reading(7).is_none());
    let second = source.sample().expect_err("the recorded failure");
    assert_eq!(source.calls(), 2);
    let (scrape, _) = exporter.finish(&Err(second), &Vec::new(), 7, 7);
    assert!(!scrape.up && scrape.served.is_none());
    assert_eq!(
        scrape.failure,
        Some("powermetrics did not produce a completed frame in time")
    );
    assert!(exporter.reuse(7, 7).is_none());
}

#[test]
fn only_changes_are_logged() {
    let text = "nothing to read\n";
    let mut exporter = Exporter::with_max_age(None, 0);
    for round in 0..3 {
        let (_, line) = exporter.finish(&sampled(text, round), &Vec::new(), round, round);
        assert_eq!(line.is_some(), round == 0);
        if let Some(line) = line {
            assert_eq!(
                line,
                "powermetrics ran but printed none of the power lines this exporter \
                 recognizes; publishing no power series"
            );
        }
    }
    assert_eq!(exporter.state_log_count(), 1);
    for round in 0..3 {
        let failure = Err(SourceError::NonUtf8);
        let (_, line) = exporter.finish(&failure, &Vec::new(), 9, 9);
        assert_eq!(line.is_some(), round == 0);
    }
    assert_eq!(exporter.state_log_count(), 2);
}

#[test]
fn an_exporter_knows_its_host_and_its_window() {
    let exporter = Exporter::new(Some("studio".to_owned()));
    assert_eq!(exporter.host(), Some("studio"));
    assert_eq!(exporter.max_age(), MAX_READING_AGE);
    assert_eq!(Exporter::new(None).host(), None);
}

// ---------------------------------------------------------------------------
// Rendering

#[test]
fn values_round_trip_through_formatting() {
    for (printed, value) in [("1.234", 1.234), ("0", 0.0), ("-0.5", -0.5), ("0.05625", 0.05625)] {
        let text = format!("CPU Power: {printed} W\n");
        let scrape = served(&text, None);
        let body = render(&scrape, None, &times());
        let parsed = Exposition::parse(&body);
        let written = parsed.value("muser_host_cpu_power_watts", None).expect("published");
        assert_eq!(written, printed);
        assert_eq!(written.parse::<f64>().expect("parses back"), value);
    }
}

fn served(text: &str, completed: Option<&str>) -> Scrape {
    Scrape {
        up: true,
        duration: 12_000,
        served: Some(Served {
            reading: parse(text),
            completed_unix_s: completed.map(str::to_owned),
            age: 250_000_000,
        }),
        failure: None,
    }
}

#[test]
fn a_served_reading_renders_to_the_byte() {
    let scrape = served("CPU Power: 1500 mW\n", Some("1700000000.125"));
    assert_eq!(
        render(&scrape, Some("stu\"dio"), &times()),
        "# HELP muser_agent_up 1 when this scrape served a real powermetrics reading, 0 when \
         the exporter could not obtain one.\n\
         # TYPE muser_agent_up gauge\n\
         muser_agent_up{agent=\"mac\"} 1\n\
         # HELP muser_agent_scrape_duration_seconds Wall-clock seconds this scrape spent \
         obtaining its reading; near zero when a reading taken moments ago was reused.\n\
         # TYPE muser_agent_scrape_duration_seconds gauge\n\
         muser_agent_scrape_duration_seconds{agent=\"mac\"} 0.000012\n\
         # HELP muser_agent_sample_age_seconds Age of the powermetrics sample this scrape \
         served, at the moment it was served.\n\
         # TYPE muser_agent_sample_age_seconds gauge\n\
         muser_agent_sample_age_seconds{agent=\"mac\"} 0.25\n\
         # powermetrics sample completed at unix 1700000000.125, 0.250 s before this scrape. A \
         reading is served for at most 0.500 s and then re-measured; an older one is never \
         served.\n\
         # muser_host_cpu_power_watts is read from the powermetrics line \"CPU Power\".\n\
         # HELP muser_host_cpu_power_watts CPU power for this host, as reported by the \
         powermetrics cpu_power sampler.\n\
         # TYPE muser_host_cpu_power_watts gauge\n\
         muser_host_cpu_power_watts{host=\"stu\\\"dio\",source=\"CPU Power\"} 1.5\n"
    );
}

#[test]
fn a_sample_without_a_clock_states_its_age_alone() {
    let body = render(&served("CPU Power: 1 W\n", None), None, &times());
    assert!(body.contains(
        "# powermetrics sample completed 0.250 s before this scrape. A reading is served for \
         at most 0.500 s"
    ));
    assert!(body.contains("muser_host_cpu_power_watts{source=\"CPU Power\"} 1\n"));
    assert!(!body.contains("host="));
}

#[test]
fn a_failed_scrape_renders_only_that_it_is_down() {
    let scrape = Scrape {
        up: false,
        duration: 1,
        served: None,
        failure: Some("the powermetrics process exited non-zero"),
    };
    let body = render(&scrape, Some("studio"), &times());
    assert_eq!(
        body,
        "# HELP muser_agent_up 1 when this scrape served a real powermetrics reading, 0 when \
         the exporter could not obtain one.\n\
         # TYPE muser_agent_up gauge\n\
         muser_agent_up{agent=\"mac\"} 0\n\
         # no reading this scrape: the powermetrics process exited non-zero; the exporter's \
         stderr log has the reason. No power series are published and no earlier reading is \
         reused.\n"
    );
    let parsed = Exposition::parse(&body);
    assert_eq!(parsed.samples().len(), 1);
    assert_eq!(parsed.value("muser_agent_up", None), Some("0"));
}

#[test]
fn a_served_reading_is_read_back_with_its_provenance() {
    let text = "Combined Power (CPU + GPU + ANE): 2000 mW\nGPU Power: 3 W\n";
    let body = render(&served(text, Some("1.000")), Some("a\nb\\c"), &times());
    let parsed = Exposition::parse(&body);
    let metrics: Vec<&str> = parsed.samples().iter().map(|s| s.metric.as_str()).collect();
    assert_eq!(
        metrics,
        vec![
            "muser_agent_up",
            "muser_agent_scrape_duration_seconds",
            "muser_agent_sample_age_seconds",
            "muser_host_package_power_watts",
            "muser_host_gpu_power_watts",
        ]
    );
    let package = &parsed.samples()[3];
    assert_eq!(package.label("host"), Some("a\nb\\c"));
    assert_eq!(package.label("source"), Some("Combined Power (CPU + GPU + ANE)"));
    assert_eq!(package.value, "2");
}

// ---------------------------------------------------------------------------
// The command lines

fn arguments(values: &[&str]) -> Vec<String> {
    values.iter().map(|value| (*value).to_owned()).collect()
}

fn any_address() -> Option<SocketAddr> {
    Some(SocketAddr { ip: IpAddr::V4(0x7f00_0001), port: 1, text: "127.0.0.1:1".to_owned() })
}

fn mac(values: &[&str]) -> Result<Options, String> {
    mac_arguments(&arguments(values), any_address())
}

#[test]
fn the_power_exporter_reads_its_arguments() {
    assert_eq!(mac_listen(&arguments(&[])).expect("default"), "127.0.0.1:9708");
    assert_eq!(mac(&[]).expect("default").sample_ms, 200);
    assert_eq!(mac(&["--sample-ms", "50"]).expect("named").sample_ms, 50);
    assert_eq!(mac(&["--sample-ms", "50", "--sample-ms", "+7"]).expect("last").sample_ms, 7);
    assert_eq!(
        mac_listen(&arguments(&["--sample-ms", "5", "--listen", "0.0.0.0:1"])).expect("named"),
        "0.0.0.0:1"
    );
    for (values, message) in [
        (vec!["--listen"], "--listen requires an address"),
        (vec!["--sample-ms"], "--sample-ms requires a value"),
        (vec!["--sample-ms", "0"], "--sample-ms must be at least 1"),
        (vec!["--sample-ms", "-1"], "--sample-ms must be a positive integer, got '-1'"),
        (vec!["--sample-ms", "x"], "--sample-ms must be a positive integer, got 'x'"),
        (vec!["--sudo"], "unknown argument '--sudo'"),
    ] {
        assert_eq!(mac(&values).err().as_deref(), Some(message));
    }
    assert_eq!(
        mac_arguments(&arguments(&["--listen", "x"]), None).err().as_deref(),
        Some("--listen must be an ip:port address, got 'x'")
    );
}

#[test]
fn unsigned_integers_are_read_to_their_limit() {
    assert_eq!(read_u64("18446744073709551615"), Some(u64::MAX));
    assert_eq!(read_u64("18446744073709551616"), None);
    assert_eq!(read_u64("+0012"), Some(12));
    assert_eq!(read_u64("-0"), None);
    assert_eq!(read_u64(""), None);
    assert_eq!(read_u64("+"), None);
    assert_eq!(read_u64("1 "), None);
}

#[test]
fn the_console_reads_its_arguments() {
    assert_eq!(console_arguments(&arguments(&[])), Ok(("console.toml".to_owned(), None)));
    assert_eq!(
        console_arguments(&arguments(&["--listen", "a:1", "--config", "x", "--config", "y"])),
        Ok(("y".to_owned(), Some("a:1".to_owned())))
    );
    assert_eq!(
        console_arguments(&arguments(&["--config"])),
        Err("--config requires a path".to_owned())
    );
    assert_eq!(
        console_arguments(&arguments(&["--listen"])),
        Err("--listen requires an address".to_owned())
    );
    assert_eq!(
        console_arguments(&arguments(&["help"])),
        Err("unknown argument 'help'".to_owned())
    );
}
