//! What the GPU exporter publishes of one scrape.
//!
//! A source that did not answer publishes that it is down and nothing else. A
//! reading that is missing or not finite is left out, and so is a family that
//! no device has a reading for.
use crate::exposition::{
    all_keys, all_lines, clear_to, escaped, family, family_lines, is_numeral, law_documents_are_read_back,
    lemma_clear, lemma_family, lemma_joined, lemma_words, one_line, pair_views, publish,
    published, render_lines, rendered, sample, sample_line, sample_lines, words_to, writable,
};
use crate::gx10::source::DeviceSample;
use crate::history::prom::{document, is_metric_name, samples_of, SampleView};
use crate::text::{decimal, decimal_of, lemma_run_is, Class};
use vstd::prelude::*;

verus! {

/// The `agent` label of the exporter's own series.
pub const AGENT: &'static str = "gx10";

pub const UP: &'static str = "muser_agent_up";

pub const UP_HELP: &'static str = "1 when the gx10 agent's NVML source answered this scrape, 0 when it did not; when 0 the exposition carries no other series.";

pub const SCRAPE_DURATION: &'static str = "muser_agent_scrape_duration_seconds";

pub const SCRAPE_DURATION_HELP: &'static str = "Wall-clock seconds this scrape spent reading NVML.";

pub const UTILIZATION: &'static str = "muser_gpu_utilization_ratio";

pub const UTILIZATION_HELP: &'static str = "Fraction of the last sampling period the GPU was busy, 0..1. NVML reports whole percent via nvmlDeviceGetUtilizationRates; this exporter divides by 100 and does not clamp.";

pub const POWER: &'static str = "muser_gpu_power_watts";

pub const POWER_HELP: &'static str = "Board power draw in watts. NVML reports milliwatts via nvmlDeviceGetPowerUsage; this exporter divides by 1000.";

pub const TEMPERATURE: &'static str = "muser_gpu_temperature_celsius";

pub const TEMPERATURE_HELP: &'static str = "GPU die temperature in degrees Celsius, from nvmlDeviceGetTemperature with NVML_TEMPERATURE_GPU.";

pub const MEMORY_USED: &'static str = "muser_gpu_memory_used_bytes";

pub const MEMORY_USED_HELP: &'static str = "Device memory in use, in bytes, from nvmlDeviceGetMemoryInfo.";

pub const MEMORY_TOTAL: &'static str = "muser_gpu_memory_total_bytes";

pub const MEMORY_TOTAL_HELP: &'static str = "Total device memory, in bytes, from nvmlDeviceGetMemoryInfo.";

/// The families that devices have readings for, in the order in which they
/// are published.
pub enum Gauge {
    Utilization,
    Power,
    Temperature,
    MemoryUsed,
    MemoryTotal,
}

/// An integer reading as it is published.
pub open spec fn bytes_text(reading: Option<u64>) -> Option<Seq<char>> {
    match reading {
        Some(n) => Some(decimal(n as nat)),
        None => None,
    }
}

fn publish_bytes(reading: Option<u64>) -> (r: Option<String>)
    ensures
        match r {
            Some(text) => bytes_text(reading) == Some(text@),
            None => bytes_text(reading) is None,
        },
{
    match reading {
        Some(n) => Some(decimal_of(n)),
        None => None,
    }
}

impl Gauge {
    pub open spec fn metric(self) -> Seq<char> {
        match self {
            Gauge::Utilization => UTILIZATION@,
            Gauge::Power => POWER@,
            Gauge::Temperature => TEMPERATURE@,
            Gauge::MemoryUsed => MEMORY_USED@,
            Gauge::MemoryTotal => MEMORY_TOTAL@,
        }
    }

    pub open spec fn about(self) -> Seq<char> {
        match self {
            Gauge::Utilization => UTILIZATION_HELP@,
            Gauge::Power => POWER_HELP@,
            Gauge::Temperature => TEMPERATURE_HELP@,
            Gauge::MemoryUsed => MEMORY_USED_HELP@,
            Gauge::MemoryTotal => MEMORY_TOTAL_HELP@,
        }
    }

    /// What a device has to publish in this family.
    pub open spec fn of(self, device: DeviceSample) -> Option<Seq<char>> {
        match self {
            Gauge::Utilization => published(device.utilization_ratio),
            Gauge::Power => published(device.power_watts),
            Gauge::Temperature => published(device.temperature_celsius),
            Gauge::MemoryUsed => bytes_text(device.memory_used_bytes),
            Gauge::MemoryTotal => bytes_text(device.memory_total_bytes),
        }
    }

    /// The name of the family.
    pub fn name(&self) -> (r: &'static str)
        ensures
            r@ == self.metric(),
    {
        match self {
            Gauge::Utilization => UTILIZATION,
            Gauge::Power => POWER,
            Gauge::Temperature => TEMPERATURE,
            Gauge::MemoryUsed => MEMORY_USED,
            Gauge::MemoryTotal => MEMORY_TOTAL,
        }
    }

    /// The help text of the family.
    pub fn help(&self) -> (r: &'static str)
        ensures
            r@ == self.about(),
    {
        match self {
            Gauge::Utilization => UTILIZATION_HELP,
            Gauge::Power => POWER_HELP,
            Gauge::Temperature => TEMPERATURE_HELP,
            Gauge::MemoryUsed => MEMORY_USED_HELP,
            Gauge::MemoryTotal => MEMORY_TOTAL_HELP,
        }
    }

    /// What a device has to publish in this family.
    pub fn reading(&self, device: &DeviceSample) -> (r: Option<String>)
        ensures
            match r {
                Some(text) => self.of(*device) == Some(text@),
                None => self.of(*device) is None,
            },
    {
        match self {
            Gauge::Utilization => publish(&device.utilization_ratio),
            Gauge::Power => publish(&device.power_watts),
            Gauge::Temperature => publish(&device.temperature_celsius),
            Gauge::MemoryUsed => publish_bytes(device.memory_used_bytes),
            Gauge::MemoryTotal => publish_bytes(device.memory_total_bytes),
        }
    }
}

/// The labels of a device: its index, and whichever of its two texts the
/// driver gave.
pub open spec fn device_labels(device: DeviceSample) -> Seq<(Seq<char>, Seq<char>)> {
    seq![("gpu"@, decimal(device.index as nat))] + opt_label("uuid"@, device.uuid) + opt_label(
        "name"@,
        device.name,
    )
}

pub open spec fn opt_label(key: Seq<char>, text: Option<String>) -> Seq<(Seq<char>, Seq<char>)> {
    match text {
        Some(text) => seq![(key, text@)],
        None => Seq::empty(),
    }
}

/// The samples of one family: those of the devices that have a reading.
pub open spec fn gauge_rows(gauge: Gauge, devices: Seq<DeviceSample>) -> Seq<SampleView>
    decreases devices.len(),
{
    if devices.len() == 0 {
        Seq::empty()
    } else {
        let head = gauge_rows(gauge, devices.drop_last());
        match gauge.of(devices.last()) {
            Some(value) => head.push(
                SampleView {
                    metric: gauge.metric(),
                    labels: device_labels(devices.last()),
                    value,
                },
            ),
            None => head,
        }
    }
}

/// A sample of the exporter itself.
pub open spec fn agent_row(metric: Seq<char>, value: Seq<char>) -> SampleView {
    SampleView { metric, labels: seq![("agent"@, AGENT@)], value }
}

/// The lines of the family of a gauge.
pub open spec fn gauge_lines(gauge: Gauge, devices: Seq<DeviceSample>) -> Seq<Seq<char>> {
    family_lines(gauge.metric(), gauge.about(), sample_lines(gauge_rows(gauge, devices)))
}

/// The lines of a document: of a source that did not answer, only that it is
/// down.
pub open spec fn document_lines(devices: Option<Seq<DeviceSample>>, elapsed: Seq<char>) -> Seq<
    Seq<char>,
> {
    match devices {
        None => family_lines(UP@, UP_HELP@, sample_lines(seq![agent_row(UP@, "0"@)])),
        Some(devices) => family_lines(UP@, UP_HELP@, sample_lines(seq![agent_row(UP@, "1"@)]))
            + family_lines(
            SCRAPE_DURATION@,
            SCRAPE_DURATION_HELP@,
            sample_lines(seq![agent_row(SCRAPE_DURATION@, elapsed)]),
        ) + gauge_lines(Gauge::Utilization, devices) + gauge_lines(Gauge::Power, devices)
            + gauge_lines(Gauge::Temperature, devices) + gauge_lines(Gauge::MemoryUsed, devices)
            + gauge_lines(Gauge::MemoryTotal, devices),
    }
}

pub open spec fn devices_view(devices: Option<&[DeviceSample]>) -> Option<Seq<DeviceSample>> {
    match devices {
        Some(devices) => Some(devices@),
        None => None,
    }
}

fn agent_family(lines: &mut Vec<String>, name: &str, help: &str, value: &str)
    ensures
        final(lines).deep_view() == old(lines).deep_view() + family_lines(
            name@,
            help@,
            sample_lines(seq![agent_row(name@, value@)]),
        ),
{
    let pairs: [(&str, &str); 1] = [("agent", AGENT)];
    let mut samples: Vec<String> = Vec::new();
    samples.push(sample(name, &pairs, value));
    proof {
        assert(pair_views(pairs@) =~= seq![("agent"@, AGENT@)]);
        assert(samples.deep_view() =~= sample_lines(seq![agent_row(name@, value@)]));
    }
    family(lines, name, help, samples);
}

fn device_sample(device: &DeviceSample, name: &str, value: &str) -> (r: String)
    ensures
        r@ == sample_line(name@, device_labels(*device), value@),
{
    let index = decimal_of(device.index as u64);
    let mut pairs: Vec<(&str, &str)> = Vec::new();
    pairs.push(("gpu", index.as_str()));
    if let Some(uuid) = &device.uuid {
        pairs.push(("uuid", uuid.as_str()));
    }
    if let Some(label) = &device.name {
        pairs.push(("name", label.as_str()));
    }
    assert(pair_views(pairs@) =~= device_labels(*device));
    sample(name, pairs.as_slice(), value)
}

fn gauge_family(lines: &mut Vec<String>, gauge: Gauge, devices: &[DeviceSample])
    ensures
        final(lines).deep_view() == old(lines).deep_view() + gauge_lines(gauge, devices@),
{
    let mut samples: Vec<String> = Vec::new();
    assert(samples.deep_view() =~= sample_lines(gauge_rows(gauge, devices@.take(0))));
    for i in 0..devices.len()
        invariant
            samples.deep_view() == sample_lines(gauge_rows(gauge, devices@.take(i as int))),
    {
        let ghost so_far = samples.deep_view();
        proof {
            let next = devices@.take(i + 1);
            assert(next.drop_last() =~= devices@.take(i as int));
            assert(next.last() == devices@[i as int]);
        }
        if let Some(value) = gauge.reading(&devices[i]) {
            samples.push(device_sample(&devices[i], gauge.name(), value.as_str()));
            proof {
                assert(samples.deep_view() =~= so_far.push(
                    sample_line(gauge.metric(), device_labels(devices@[i as int]), value@),
                ));
                assert(samples.deep_view() =~= sample_lines(
                    gauge_rows(gauge, devices@.take(i + 1)),
                ));
            }
        }
    }
    assert(devices@.take(devices@.len() as int) =~= devices@);
    family(lines, gauge.name(), gauge.help(), samples);
}

/// Renders one scrape: nothing is rounded, clamped, carried forward or filled
/// in. `elapsed` is the numeral of the seconds that the scrape took.
pub fn render(devices: Option<&[DeviceSample]>, elapsed: &str) -> (r: String)
    ensures
        r@ == rendered(document_lines(devices_view(devices), elapsed@)),
{
    let mut lines: Vec<String> = Vec::new();
    let ghost none = Seq::<Seq<char>>::empty();
    assert(lines.deep_view() =~= none);
    match devices {
        None => {
            agent_family(&mut lines, UP, UP_HELP, "0");
        },
        Some(devices) => {
            agent_family(&mut lines, UP, UP_HELP, "1");
            agent_family(&mut lines, SCRAPE_DURATION, SCRAPE_DURATION_HELP, elapsed);
            gauge_family(&mut lines, Gauge::Utilization, devices);
            gauge_family(&mut lines, Gauge::Power, devices);
            gauge_family(&mut lines, Gauge::Temperature, devices);
            gauge_family(&mut lines, Gauge::MemoryUsed, devices);
            gauge_family(&mut lines, Gauge::MemoryTotal, devices);
        },
    }
    assert(lines.deep_view() =~= document_lines(devices_view(devices), elapsed@));
    render_lines(&lines)
}

/// Escapes a label value: exactly backslash, quote and line feed are
/// rewritten.
pub fn escape(value: &str) -> (r: String)
    ensures
        r@ == escaped(value@),
{
    crate::exposition::escape(value)
}

// ---------------------------------------------------------------------------
// Laws

proof fn lemma_up()
    ensures
        is_metric_name(UP@),
        one_line(UP@),
        one_line(UP_HELP@),
{
    reveal_strlit("muser_agent_up");
    reveal_strlit("1 when the gx10 agent's NVML source answered this scrape, 0 when it did not; when 0 the exposition carries no other series.");
    reveal_with_fuel(words_to, 15);
    reveal_with_fuel(clear_to, 61);
    assert(words_to(UP@, 14));
    assert(clear_to(UP_HELP@, 40));
    assert(clear_to(UP_HELP@, 80));
    assert(clear_to(UP_HELP@, 120));
    assert(clear_to(UP_HELP@, 123));
    lemma_words(UP@, 14);
    lemma_clear(UP_HELP@, 123);
}

proof fn lemma_scrape_duration()
    ensures
        is_metric_name(SCRAPE_DURATION@),
        one_line(SCRAPE_DURATION@),
        one_line(SCRAPE_DURATION_HELP@),
{
    reveal_strlit("muser_agent_scrape_duration_seconds");
    reveal_strlit("Wall-clock seconds this scrape spent reading NVML.");
    reveal_with_fuel(words_to, 36);
    reveal_with_fuel(clear_to, 51);
    assert(words_to(SCRAPE_DURATION@, 35));
    assert(clear_to(SCRAPE_DURATION_HELP@, 50));
    lemma_words(SCRAPE_DURATION@, 35);
    lemma_clear(SCRAPE_DURATION_HELP@, 50);
}

proof fn lemma_utilization()
    ensures
        is_metric_name(UTILIZATION@),
        one_line(UTILIZATION@),
        one_line(UTILIZATION_HELP@),
{
    reveal_strlit("muser_gpu_utilization_ratio");
    reveal_strlit("Fraction of the last sampling period the GPU was busy, 0..1. NVML reports whole percent via nvmlDeviceGetUtilizationRates; this exporter divides by 100 and does not clamp.");
    reveal_with_fuel(words_to, 28);
    reveal_with_fuel(clear_to, 61);
    assert(words_to(UTILIZATION@, 27));
    assert(clear_to(UTILIZATION_HELP@, 60));
    assert(clear_to(UTILIZATION_HELP@, 120));
    assert(clear_to(UTILIZATION_HELP@, 171));
    lemma_words(UTILIZATION@, 27);
    lemma_clear(UTILIZATION_HELP@, 171);
}

proof fn lemma_power()
    ensures
        is_metric_name(POWER@),
        one_line(POWER@),
        one_line(POWER_HELP@),
{
    reveal_strlit("muser_gpu_power_watts");
    reveal_strlit("Board power draw in watts. NVML reports milliwatts via nvmlDeviceGetPowerUsage; this exporter divides by 1000.");
    reveal_with_fuel(words_to, 22);
    reveal_with_fuel(clear_to, 61);
    assert(words_to(POWER@, 21));
    assert(clear_to(POWER_HELP@, 60));
    assert(clear_to(POWER_HELP@, 110));
    lemma_words(POWER@, 21);
    lemma_clear(POWER_HELP@, 110);
}

proof fn lemma_temperature()
    ensures
        is_metric_name(TEMPERATURE@),
        one_line(TEMPERATURE@),
        one_line(TEMPERATURE_HELP@),
{
    reveal_strlit("muser_gpu_temperature_celsius");
    reveal_strlit("GPU die temperature in degrees Celsius, from nvmlDeviceGetTemperature with NVML_TEMPERATURE_GPU.");
    reveal_with_fuel(words_to, 30);
    reveal_with_fuel(clear_to, 61);
    assert(words_to(TEMPERATURE@, 29));
    assert(clear_to(TEMPERATURE_HELP@, 60));
    assert(clear_to(TEMPERATURE_HELP@, 96));
    lemma_words(TEMPERATURE@, 29);
    lemma_clear(TEMPERATURE_HELP@, 96);
}

proof fn lemma_memory_used()
    ensures
        is_metric_name(MEMORY_USED@),
        one_line(MEMORY_USED@),
        one_line(MEMORY_USED_HELP@),
{
    reveal_strlit("muser_gpu_memory_used_bytes");
    reveal_strlit("Device memory in use, in bytes, from nvmlDeviceGetMemoryInfo.");
    reveal_with_fuel(words_to, 28);
    reveal_with_fuel(clear_to, 61);
    assert(words_to(MEMORY_USED@, 27));
    assert(clear_to(MEMORY_USED_HELP@, 60));
    assert(clear_to(MEMORY_USED_HELP@, 61));
    lemma_words(MEMORY_USED@, 27);
    lemma_clear(MEMORY_USED_HELP@, 61);
}

proof fn lemma_memory_total()
    ensures
        is_metric_name(MEMORY_TOTAL@),
        one_line(MEMORY_TOTAL@),
        one_line(MEMORY_TOTAL_HELP@),
{
    reveal_strlit("muser_gpu_memory_total_bytes");
    reveal_strlit("Total device memory, in bytes, from nvmlDeviceGetMemoryInfo.");
    reveal_with_fuel(words_to, 29);
    reveal_with_fuel(clear_to, 61);
    assert(words_to(MEMORY_TOTAL@, 28));
    assert(clear_to(MEMORY_TOTAL_HELP@, 60));
    lemma_words(MEMORY_TOTAL@, 28);
    lemma_clear(MEMORY_TOTAL_HELP@, 60);
}

/// The samples of an answered scrape, in the order in which they are
/// published.
pub open spec fn document_rows(devices: Seq<DeviceSample>, elapsed: Seq<char>) -> Seq<SampleView> {
    seq![agent_row(UP@, "1"@)] + seq![agent_row(SCRAPE_DURATION@, elapsed)] + gauge_rows(
        Gauge::Utilization,
        devices,
    ) + gauge_rows(Gauge::Power, devices) + gauge_rows(Gauge::Temperature, devices) + gauge_rows(
        Gauge::MemoryUsed,
        devices,
    ) + gauge_rows(Gauge::MemoryTotal, devices)
}

/// Every numeral that a device publishes denotes a number.
pub open spec fn numerals(devices: Seq<DeviceSample>) -> bool {
    forall|i: int, gauge: Gauge|
        0 <= i < devices.len() ==> (#[trigger] gauge.of(#[trigger] devices[i]) matches Some(value)
            ==> is_numeral(value))
}

proof fn lemma_agent_family(name: Seq<char>, help: Seq<char>, value: Seq<char>)
    requires
        is_metric_name(name),
        one_line(name),
        one_line(help),
        is_numeral(value),
    ensures
        samples_of(family_lines(name, help, sample_lines(seq![agent_row(name, value)])))
            == seq![agent_row(name, value)],
        all_lines(family_lines(name, help, sample_lines(seq![agent_row(name, value)]))),
{
    reveal_strlit("agent");
    reveal_with_fuel(words_to, 6);
    assert(words_to("agent"@, 5));
    lemma_words("agent"@, 5);
    let rows = seq![agent_row(name, value)];
    assert forall|i: int| 0 <= i < rows.len() implies writable(#[trigger] rows[i]) by {
        assert(all_keys(rows[i].labels));
    }
    lemma_family(name, help, rows);
}

proof fn lemma_device_keys(device: DeviceSample)
    ensures
        all_keys(device_labels(device)),
{
    reveal_strlit("gpu");
    reveal_strlit("uuid");
    reveal_strlit("name");
    reveal_with_fuel(words_to, 5);
    assert(words_to("gpu"@, 3));
    assert(words_to("uuid"@, 4));
    assert(words_to("name"@, 4));
    lemma_words("gpu"@, 3);
    lemma_words("uuid"@, 4);
    lemma_words("name"@, 4);
}

proof fn lemma_gauge_rows(gauge: Gauge, devices: Seq<DeviceSample>)
    requires
        numerals(devices),
        is_metric_name(gauge.metric()),
    ensures
        forall|i: int|
            0 <= i < gauge_rows(gauge, devices).len() ==> writable(
                #[trigger] gauge_rows(gauge, devices)[i],
            ),
    decreases devices.len(),
{
    if devices.len() > 0 {
        let init = devices.drop_last();
        assert(numerals(init)) by {
            assert forall|i: int, g: Gauge| 0 <= i < init.len() implies (#[trigger] g.of(
                #[trigger] init[i],
            ) matches Some(value) ==> is_numeral(value)) by {
                assert(init[i] == devices[i]);
            }
        }
        lemma_gauge_rows(gauge, init);
        lemma_device_keys(devices.last());
        assert(gauge.of(devices[devices.len() - 1]) matches Some(value) ==> is_numeral(value));
        let rows = gauge_rows(gauge, devices);
        let head = gauge_rows(gauge, init);
        assert forall|i: int| 0 <= i < rows.len() implies writable(#[trigger] rows[i]) by {
            if i < head.len() {
                assert(rows[i] == head[i]);
            }
        }
    }
}

proof fn lemma_gauge(gauge: Gauge, devices: Seq<DeviceSample>)
    requires
        numerals(devices),
    ensures
        samples_of(gauge_lines(gauge, devices)) == gauge_rows(gauge, devices),
        all_lines(gauge_lines(gauge, devices)),
{
    lemma_utilization();
    lemma_power();
    lemma_temperature();
    lemma_memory_used();
    lemma_memory_total();
    lemma_gauge_rows(gauge, devices);
    lemma_family(gauge.metric(), gauge.about(), gauge_rows(gauge, devices));
}

/// What an answered scrape publishes is read back as exactly those samples:
/// every reading that a device has, under its own labels, and no other.
pub proof fn law_answered_scrapes_are_read_back(devices: Seq<DeviceSample>, elapsed: Seq<char>)
    requires
        numerals(devices),
        is_numeral(elapsed),
    ensures
        document(rendered(document_lines(Some(devices), elapsed))) == document_rows(
            devices,
            elapsed,
        ),
{
    lemma_up();
    lemma_scrape_duration();
    lemma_digit("1"@);
    let up = family_lines(UP@, UP_HELP@, sample_lines(seq![agent_row(UP@, "1"@)]));
    let took = family_lines(
        SCRAPE_DURATION@,
        SCRAPE_DURATION_HELP@,
        sample_lines(seq![agent_row(SCRAPE_DURATION@, elapsed)]),
    );
    lemma_agent_family(UP@, UP_HELP@, "1"@);
    lemma_agent_family(SCRAPE_DURATION@, SCRAPE_DURATION_HELP@, elapsed);
    lemma_gauge(Gauge::Utilization, devices);
    lemma_gauge(Gauge::Power, devices);
    lemma_gauge(Gauge::Temperature, devices);
    lemma_gauge(Gauge::MemoryUsed, devices);
    lemma_gauge(Gauge::MemoryTotal, devices);
    let a = up + took;
    let b = a + gauge_lines(Gauge::Utilization, devices);
    let c = b + gauge_lines(Gauge::Power, devices);
    let d = c + gauge_lines(Gauge::Temperature, devices);
    let e = d + gauge_lines(Gauge::MemoryUsed, devices);
    lemma_joined(up, took);
    lemma_joined(a, gauge_lines(Gauge::Utilization, devices));
    lemma_joined(b, gauge_lines(Gauge::Power, devices));
    lemma_joined(c, gauge_lines(Gauge::Temperature, devices));
    lemma_joined(d, gauge_lines(Gauge::MemoryUsed, devices));
    lemma_joined(e, gauge_lines(Gauge::MemoryTotal, devices));
    law_documents_are_read_back(document_lines(Some(devices), elapsed));
}

/// A source that did not answer publishes that it is down and no other
/// sample, however long the attempt took.
pub proof fn law_silence_publishes_only_down(elapsed: Seq<char>)
    ensures
        document(rendered(document_lines(None, elapsed))) == seq![agent_row(UP@, "0"@)],
{
    lemma_up();
    lemma_digit("0"@);
    lemma_agent_family(UP@, UP_HELP@, "0"@);
    law_documents_are_read_back(document_lines(None, elapsed));
}

proof fn lemma_digit(s: Seq<char>)
    requires
        s == "0"@ || s == "1"@,
    ensures
        is_numeral(s),
{
    reveal_strlit("0");
    reveal_strlit("1");
    lemma_run_is(s, Class::Digit, 1);
    assert(s.skip(0) =~= s);
    assert(s.skip(1) =~= Seq::<char>::empty());
}

/// A reading that is missing or not finite leaves no sample in its family,
/// and every other device's sample stays.
pub proof fn law_missing_readings_are_left_out(
    gauge: Gauge,
    devices: Seq<DeviceSample>,
    device: DeviceSample,
)
    requires
        gauge.of(device) is None,
    ensures
        gauge_rows(gauge, devices.push(device)) == gauge_rows(gauge, devices),
        devices.len() == 0 ==> gauge_lines(gauge, devices.push(device)).len() == 0,
{
    assert(devices.push(device).drop_last() =~= devices);
    assert(devices.len() == 0 ==> gauge_rows(gauge, devices).len() == 0);
}

/// Each reading of a device is published under the metric it is named for,
/// with the device's index as its `gpu` label, and whichever of UUID and name
/// the driver gave; the exporter says of itself that it is up and how long the
/// scrape took.
pub proof fn law_devices_publish_their_readings(
    devices: Seq<DeviceSample>,
    elapsed: Seq<char>,
    i: int,
)
    requires
        0 <= i < devices.len(),
    ensures
        ({
            let rows = document_rows(devices, elapsed);
            let device = devices[i];
            let labels = seq![("gpu"@, decimal(device.index as nat))] + (match device.uuid {
                Some(uuid) => seq![("uuid"@, uuid@)],
                None => Seq::<(Seq<char>, Seq<char>)>::empty(),
            }) + (match device.name {
                Some(name) => seq![("name"@, name@)],
                None => Seq::<(Seq<char>, Seq<char>)>::empty(),
            });
            &&& rows[0] == (SampleView {
                metric: "muser_agent_up"@,
                labels: seq![("agent"@, "gx10"@)],
                value: "1"@,
            })
            &&& rows[1] == (SampleView {
                metric: "muser_agent_scrape_duration_seconds"@,
                labels: seq![("agent"@, "gx10"@)],
                value: elapsed,
            })
            &&& published(device.utilization_ratio) matches Some(value) ==> rows.contains(
                SampleView { metric: "muser_gpu_utilization_ratio"@, labels, value },
            )
            &&& published(device.power_watts) matches Some(value) ==> rows.contains(
                SampleView { metric: "muser_gpu_power_watts"@, labels, value },
            )
            &&& published(device.temperature_celsius) matches Some(value) ==> rows.contains(
                SampleView { metric: "muser_gpu_temperature_celsius"@, labels, value },
            )
            &&& device.memory_used_bytes matches Some(n) ==> rows.contains(
                SampleView {
                    metric: "muser_gpu_memory_used_bytes"@,
                    labels,
                    value: decimal(n as nat),
                },
            )
            &&& device.memory_total_bytes matches Some(n) ==> rows.contains(
                SampleView {
                    metric: "muser_gpu_memory_total_bytes"@,
                    labels,
                    value: decimal(n as nat),
                },
            )
        }),
{
    let rows = document_rows(devices, elapsed);
    let device = devices[i];
    let up = seq![agent_row(UP@, "1"@)];
    let took = seq![agent_row(SCRAPE_DURATION@, elapsed)];
    let a = gauge_rows(Gauge::Utilization, devices);
    let b = gauge_rows(Gauge::Power, devices);
    let c = gauge_rows(Gauge::Temperature, devices);
    let d = gauge_rows(Gauge::MemoryUsed, devices);
    let e = gauge_rows(Gauge::MemoryTotal, devices);
    assert(rows == up + took + a + b + c + d + e);
    if Gauge::Utilization.of(device) is Some {
        let k = lemma_row(Gauge::Utilization, devices, i);
        assert(rows[2 + k] == a[k]);
    }
    if Gauge::Power.of(device) is Some {
        let k = lemma_row(Gauge::Power, devices, i);
        assert(rows[2 + a.len() + k] == b[k]);
    }
    if Gauge::Temperature.of(device) is Some {
        let k = lemma_row(Gauge::Temperature, devices, i);
        assert(rows[2 + a.len() + b.len() + k] == c[k]);
    }
    if Gauge::MemoryUsed.of(device) is Some {
        let k = lemma_row(Gauge::MemoryUsed, devices, i);
        assert(rows[2 + a.len() + b.len() + c.len() + k] == d[k]);
    }
    if Gauge::MemoryTotal.of(device) is Some {
        let k = lemma_row(Gauge::MemoryTotal, devices, i);
        assert(rows[2 + a.len() + b.len() + c.len() + d.len() + k] == e[k]);
    }
}

proof fn lemma_row(gauge: Gauge, devices: Seq<DeviceSample>, i: int) -> (k: int)
    requires
        0 <= i < devices.len(),
        gauge.of(devices[i]) is Some,
    ensures
        0 <= k < gauge_rows(gauge, devices).len(),
        gauge_rows(gauge, devices)[k] == (SampleView {
            metric: gauge.metric(),
            labels: device_labels(devices[i]),
            value: gauge.of(devices[i])->0,
        }),
    decreases devices.len(),
{
    let rest = devices.drop_last();
    let head = gauge_rows(gauge, rest);
    if i < rest.len() {
        assert(rest[i] == devices[i]);
        let k = lemma_row(gauge, rest, i);
        assert(gauge_rows(gauge, devices)[k] == head[k]);
        k
    } else {
        head.len() as int
    }
}

/// A source that did not answer is published as down, under the exporter's own
/// label, and nothing else is.
pub proof fn law_a_silent_source_is_down(elapsed: Seq<char>)
    ensures
        document(rendered(document_lines(None, elapsed))) == seq![
            SampleView {
                metric: "muser_agent_up"@,
                labels: seq![("agent"@, "gx10"@)],
                value: "0"@,
            },
        ],
{
    law_silence_publishes_only_down(elapsed);
}

/// A document publishes at most one sample of a reading for each device, and
/// nothing for a device without it.
pub proof fn law_no_reading_is_published_twice(gauge: Gauge, devices: Seq<DeviceSample>)
    ensures
        gauge_rows(gauge, devices).len() == devices.filter(
            |device: DeviceSample| gauge.of(device) is Some,
        ).len(),
    decreases devices.len(),
{
    reveal(Seq::filter);
    if devices.len() > 0 {
        law_no_reading_is_published_twice(gauge, devices.drop_last());
    }
}

} // verus!
