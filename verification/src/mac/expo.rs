//! What the power exporter publishes of one scrape.
//!
//! A metric without a value is not published at all: neither as an empty
//! family nor as a zero.
use crate::exposition::{
    all_keys, all_lines, clear_to, escape, escaped, family, family_lines, is_numeral,
    law_documents_are_read_back, lemma_clear, lemma_comment, lemma_escaped_one_line, lemma_family,
    lemma_joined, lemma_one_line_add, lemma_words, one_line, pair_views, render_lines, rendered,
    sample, sample_lines, words_to, writable,
};
use crate::history::catalog::opt_text;
use crate::history::prom::{document, is_metric_name, samples_of, SampleView};
use crate::mac::exporter::{Scrape, Served};
use crate::mac::parse::PowerField;
use crate::text::{cat3, lemma_run_is, text_view, Class};
use vstd::prelude::*;

verus! {

/// The `agent` label of the exporter's own series.
pub const AGENT: &'static str = "mac";

pub const UP: &'static str = "muser_agent_up";

pub const UP_HELP: &'static str = "1 when this scrape served a real powermetrics reading, 0 when the exporter could not obtain one.";

pub const SCRAPE_DURATION: &'static str = "muser_agent_scrape_duration_seconds";

pub const SCRAPE_DURATION_HELP: &'static str = "Wall-clock seconds this scrape spent obtaining its reading; near zero when a reading taken moments ago was reused.";

pub const SAMPLE_AGE: &'static str = "muser_agent_sample_age_seconds";

pub const SAMPLE_AGE_HELP: &'static str = "Age of the powermetrics sample this scrape served, at the moment it was served.";

pub const PACKAGE: &'static str = "muser_host_package_power_watts";

pub const PACKAGE_HELP: &'static str = "Combined package power for this host, as reported by powermetrics.";

pub const CPU: &'static str = "muser_host_cpu_power_watts";

pub const CPU_HELP: &'static str = "CPU power for this host, as reported by the powermetrics cpu_power sampler.";

pub const GPU: &'static str = "muser_host_gpu_power_watts";

pub const GPU_HELP: &'static str = "GPU power for this host, as reported by the powermetrics gpu_power sampler.";

/// The numerals of the times that a document states, in seconds: in full, and
/// to three decimal places.
#[derive(Debug)]
pub struct Times {
    pub duration: String,
    pub age: String,
    pub age_rounded: String,
    pub window_rounded: String,
}

/// Escapes a label value: exactly backslash, quote and line feed are
/// rewritten.
pub fn escape_label_value(value: &str) -> (r: String)
    ensures
        r@ == escaped(value@),
{
    escape(value)
}

/// A label set in braces, or nothing where there are no labels.
pub fn labels(pairs: &[(&str, &str)]) -> (r: String)
    ensures
        r@ == crate::exposition::label_text(pair_views(pairs@)),
{
    crate::exposition::labels(pairs)
}

/// A sample of the exporter itself.
pub open spec fn agent_row(metric: Seq<char>, value: Seq<char>) -> SampleView {
    SampleView { metric, labels: seq![("agent"@, AGENT@)], value }
}

/// The family of one sample of the exporter itself.
pub open spec fn agent_lines(name: Seq<char>, help: Seq<char>, value: Seq<char>) -> Seq<Seq<char>> {
    family_lines(name, help, sample_lines(seq![agent_row(name, value)]))
}

fn agent_family(lines: &mut Vec<String>, name: &str, help: &str, value: &str)
    ensures
        final(lines).deep_view() == old(lines).deep_view() + agent_lines(name@, help@, value@),
{
    let pairs: [(&str, &str); 1] = [("agent", AGENT)];
    let mut samples: Vec<String> = Vec::new();
    samples.push(sample(name, &pairs, value));
    proof {
        assert(pair_views(pairs@) =~= seq![("agent"@, AGENT@)]);
        assert(samples.deep_view() =~= sample_lines(seq![agent_row(name@, value@)]));
    }
    family(lines, name, help, samples);
}

/// The labels of a power series: the host, where its name is known, and the
/// line that the number was read from.
pub open spec fn field_labels(host: Option<Seq<char>>, source: Seq<char>) -> Seq<
    (Seq<char>, Seq<char>),
> {
    match host {
        Some(host) => seq![("host"@, host), ("source"@, source)],
        None => seq![("source"@, source)],
    }
}

/// The sample of a field, where there is one.
pub open spec fn field_rows(
    host: Option<Seq<char>>,
    metric: Seq<char>,
    field: Option<PowerField>,
) -> Seq<SampleView> {
    match field {
        Some(field) => seq![
            SampleView {
                metric,
                labels: field_labels(host, field.source_label@),
                value: field.watts.numeral(),
            },
        ],
        None => Seq::empty(),
    }
}

/// The comment that names the line that a number was read from.
pub open spec fn field_comment(metric: Seq<char>, source: Seq<char>) -> Seq<char> {
    "# "@ + metric + " is read from the powermetrics line \""@ + escaped(source) + "\"."@
}

/// The lines of a field, where there is one.
pub open spec fn field_lines(
    host: Option<Seq<char>>,
    metric: Seq<char>,
    help: Seq<char>,
    field: Option<PowerField>,
) -> Seq<Seq<char>> {
    match field {
        Some(f) => seq![field_comment(metric, f.source_label@)] + family_lines(
            metric,
            help,
            sample_lines(field_rows(host, metric, field)),
        ),
        None => Seq::empty(),
    }
}

fn render_field(
    lines: &mut Vec<String>,
    host: Option<&str>,
    metric: &str,
    help: &str,
    field: &Option<PowerField>,
)
    ensures
        final(lines).deep_view() == old(lines).deep_view() + field_lines(
            opt_text(host),
            metric@,
            help@,
            *field,
        ),
{
    let ghost before = lines.deep_view();
    match field {
        None => {
            assert(before + Seq::<Seq<char>>::empty() =~= before);
        },
        Some(found) => {
            let mut comment = "# ".to_owned();
            comment.append(metric);
            comment.append(" is read from the powermetrics line \"");
            comment.append(escape_label_value(found.source_label.as_str()).as_str());
            comment.append("\".");
            lines.push(comment);
            let mut pairs: Vec<(&str, &str)> = Vec::new();
            if let Some(host) = host {
                pairs.push(("host", host));
            }
            pairs.push(("source", found.source_label.as_str()));
            let numeral = numeral_of(found);
            let mut samples: Vec<String> = Vec::new();
            samples.push(sample(metric, pairs.as_slice(), numeral.as_str()));
            proof {
                assert(pair_views(pairs@) =~= field_labels(opt_text(host), found.source_label@));
                assert(samples.deep_view() =~= sample_lines(
                    field_rows(opt_text(host), metric@, *field),
                ));
                assert(lines.deep_view() =~= before + seq![
                    field_comment(metric@, found.source_label@),
                ]);
            }
            family(lines, metric, help, samples);
            assert(lines.deep_view() =~= before + field_lines(
                opt_text(host),
                metric@,
                help@,
                *field,
            ));
        },
    }
}

fn numeral_of(field: &PowerField) -> (r: String)
    ensures
        r@ == field.watts.numeral(),
{
    match &field.watts {
        crate::exposition::Figure::Double { text, .. } => text.clone(),
        crate::exposition::Figure::Exact { text } => text.clone(),
    }
}

/// The comment that states when the sample was taken, so that a reading that
/// is served again never passes for a new one.
pub open spec fn provenance(
    completed: Option<Seq<char>>,
    age: Seq<char>,
    window: Seq<char>,
) -> Seq<char> {
    let head = match completed {
        Some(unix) => "# powermetrics sample completed at unix "@ + unix + ", "@,
        None => "# powermetrics sample completed "@,
    };
    head + age + " s before this scrape. A reading is served for at most "@ + window
        + " s and then re-measured; an older one is never served."@
}

fn provenance_comment(served: &Served, times: &Times) -> (r: String)
    ensures
        r@ == provenance(
            text_view(served.completed_unix_s),
            times.age_rounded@,
            times.window_rounded@,
        ),
{
    let mut r = match &served.completed_unix_s {
        Some(unix) => cat3("# powermetrics sample completed at unix ", unix.as_str(), ", "),
        None => "# powermetrics sample completed ".to_owned(),
    };
    r.append(times.age_rounded.as_str());
    r.append(" s before this scrape. A reading is served for at most ");
    r.append(times.window_rounded.as_str());
    r.append(" s and then re-measured; an older one is never served.");
    r
}

/// The comment of a scrape without a reading.
pub open spec fn failure_comment(failure: Seq<char>) -> Seq<char> {
    "# no reading this scrape: "@ + failure
        + "; the exporter's stderr log has the reason. No power series are published and no earlier reading is reused."@
}

/// The lines that follow the one that tells whether there is a reading.
pub open spec fn body_lines(scrape: Scrape, host: Option<Seq<char>>, times: Times) -> Seq<
    Seq<char>,
> {
    match scrape.served {
        Some(served) => agent_lines(SCRAPE_DURATION@, SCRAPE_DURATION_HELP@, times.duration@)
            + agent_lines(SAMPLE_AGE@, SAMPLE_AGE_HELP@, times.age@) + seq![
            provenance(
                text_view(served.completed_unix_s),
                times.age_rounded@,
                times.window_rounded@,
            ),
        ] + field_lines(host, PACKAGE@, PACKAGE_HELP@, served.reading.package) + field_lines(
            host,
            CPU@,
            CPU_HELP@,
            served.reading.cpu,
        ) + field_lines(host, GPU@, GPU_HELP@, served.reading.gpu),
        None => match scrape.failure {
            Some(failure) => seq![failure_comment(failure@)],
            None => Seq::empty(),
        },
    }
}

/// The lines of a document.
pub open spec fn document_lines(scrape: Scrape, host: Option<Seq<char>>, times: Times) -> Seq<
    Seq<char>,
> {
    agent_lines(
        UP@,
        UP_HELP@,
        if scrape.up {
            "1"@
        } else {
            "0"@
        },
    ) + body_lines(scrape, host, times)
}

/// Renders one scrape.
pub fn render(scrape: &Scrape, host: Option<&str>, times: &Times) -> (r: String)
    ensures
        r@ == rendered(document_lines(*scrape, opt_text(host), *times)),
{
    let mut lines: Vec<String> = Vec::new();
    let ghost none = Seq::<Seq<char>>::empty();
    assert(lines.deep_view() =~= none);
    agent_family(&mut lines, UP, UP_HELP, if scrape.up { "1" } else { "0" });
    match &scrape.served {
        Some(served) => {
            agent_family(
                &mut lines,
                SCRAPE_DURATION,
                SCRAPE_DURATION_HELP,
                times.duration.as_str(),
            );
            agent_family(&mut lines, SAMPLE_AGE, SAMPLE_AGE_HELP, times.age.as_str());
            let ghost before = lines.deep_view();
            let comment = provenance_comment(served, times);
            let ghost text = comment@;
            lines.push(comment);
            assert(lines.deep_view() =~= before + seq![text]);
            render_field(&mut lines, host, PACKAGE, PACKAGE_HELP, &served.reading.package);
            render_field(&mut lines, host, CPU, CPU_HELP, &served.reading.cpu);
            render_field(&mut lines, host, GPU, GPU_HELP, &served.reading.gpu);
        },
        None => {
            if let Some(failure) = scrape.failure {
                let ghost before = lines.deep_view();
                let comment = cat3(
                    "# no reading this scrape: ",
                    failure,
                    "; the exporter's stderr log has the reason. No power series are published and no earlier reading is reused.",
                );
                let ghost text = comment@;
                lines.push(comment);
                assert(lines.deep_view() =~= before + seq![text]);
            }
        },
    }
    assert(lines.deep_view() =~= document_lines(*scrape, opt_text(host), *times));
    render_lines(&lines)
}

// ---------------------------------------------------------------------------
// Laws

proof fn lemma_up()
    ensures
        is_metric_name(UP@),
        one_line(UP@),
        one_line(UP_HELP@),
{
    reveal_strlit("muser_agent_up");
    reveal_strlit("1 when this scrape served a real powermetrics reading, 0 when the exporter could not obtain one.");
    reveal_with_fuel(words_to, 15);
    reveal_with_fuel(clear_to, 61);
    assert(words_to(UP@, 14));
    lemma_words(UP@, 14);
    assert(clear_to(UP_HELP@, 60));
    assert(clear_to(UP_HELP@, 96));
    lemma_clear(UP_HELP@, 96);
}

proof fn lemma_scrape_duration()
    ensures
        is_metric_name(SCRAPE_DURATION@),
        one_line(SCRAPE_DURATION@),
        one_line(SCRAPE_DURATION_HELP@),
{
    reveal_strlit("muser_agent_scrape_duration_seconds");
    reveal_strlit("Wall-clock seconds this scrape spent obtaining its reading; near zero when a reading taken moments ago was reused.");
    reveal_with_fuel(words_to, 36);
    reveal_with_fuel(clear_to, 61);
    assert(words_to(SCRAPE_DURATION@, 35));
    lemma_words(SCRAPE_DURATION@, 35);
    assert(clear_to(SCRAPE_DURATION_HELP@, 60));
    assert(clear_to(SCRAPE_DURATION_HELP@, 114));
    lemma_clear(SCRAPE_DURATION_HELP@, 114);
}

proof fn lemma_sample_age()
    ensures
        is_metric_name(SAMPLE_AGE@),
        one_line(SAMPLE_AGE@),
        one_line(SAMPLE_AGE_HELP@),
{
    reveal_strlit("muser_agent_sample_age_seconds");
    reveal_strlit("Age of the powermetrics sample this scrape served, at the moment it was served.");
    reveal_with_fuel(words_to, 31);
    reveal_with_fuel(clear_to, 61);
    assert(words_to(SAMPLE_AGE@, 30));
    lemma_words(SAMPLE_AGE@, 30);
    assert(clear_to(SAMPLE_AGE_HELP@, 60));
    assert(clear_to(SAMPLE_AGE_HELP@, 79));
    lemma_clear(SAMPLE_AGE_HELP@, 79);
}

proof fn lemma_package()
    ensures
        is_metric_name(PACKAGE@),
        one_line(PACKAGE@),
        one_line(PACKAGE_HELP@),
{
    reveal_strlit("muser_host_package_power_watts");
    reveal_strlit("Combined package power for this host, as reported by powermetrics.");
    reveal_with_fuel(words_to, 31);
    reveal_with_fuel(clear_to, 61);
    assert(words_to(PACKAGE@, 30));
    lemma_words(PACKAGE@, 30);
    assert(clear_to(PACKAGE_HELP@, 60));
    assert(clear_to(PACKAGE_HELP@, 66));
    lemma_clear(PACKAGE_HELP@, 66);
}

proof fn lemma_cpu()
    ensures
        is_metric_name(CPU@),
        one_line(CPU@),
        one_line(CPU_HELP@),
{
    reveal_strlit("muser_host_cpu_power_watts");
    reveal_strlit("CPU power for this host, as reported by the powermetrics cpu_power sampler.");
    reveal_with_fuel(words_to, 27);
    reveal_with_fuel(clear_to, 61);
    assert(words_to(CPU@, 26));
    lemma_words(CPU@, 26);
    assert(clear_to(CPU_HELP@, 60));
    assert(clear_to(CPU_HELP@, 75));
    lemma_clear(CPU_HELP@, 75);
}

proof fn lemma_gpu()
    ensures
        is_metric_name(GPU@),
        one_line(GPU@),
        one_line(GPU_HELP@),
{
    reveal_strlit("muser_host_gpu_power_watts");
    reveal_strlit("GPU power for this host, as reported by the powermetrics gpu_power sampler.");
    reveal_with_fuel(words_to, 27);
    reveal_with_fuel(clear_to, 61);
    assert(words_to(GPU@, 26));
    lemma_words(GPU@, 26);
    assert(clear_to(GPU_HELP@, 60));
    assert(clear_to(GPU_HELP@, 75));
    lemma_clear(GPU_HELP@, 75);
}

proof fn lemma_field_texts()
    ensures
        one_line("# "@),
        one_line(" is read from the powermetrics line \""@),
        one_line("\"."@),
        "# "@.len() > 0 && "# "@[0] == '#',
{
    reveal_strlit("# ");
    reveal_strlit(" is read from the powermetrics line \"");
    reveal_strlit("\".");
    reveal_with_fuel(clear_to, 61);
    assert(clear_to("# "@, 2));
    lemma_clear("# "@, 2);
    assert(clear_to(" is read from the powermetrics line \""@, 37));
    lemma_clear(" is read from the powermetrics line \""@, 37);
    assert(clear_to("\"."@, 2));
    lemma_clear("\"."@, 2);
}

proof fn lemma_provenance_texts()
    ensures
        one_line("# powermetrics sample completed at unix "@),
        one_line(", "@),
        one_line("# powermetrics sample completed "@),
        one_line(" s before this scrape. A reading is served for at most "@),
        one_line(" s and then re-measured; an older one is never served."@),
        "# powermetrics sample completed at unix "@.len() > 0 && "# powermetrics sample completed at unix "@[0] == '#',
        "# powermetrics sample completed "@.len() > 0 && "# powermetrics sample completed "@[0] == '#',
{
    reveal_strlit("# powermetrics sample completed at unix ");
    reveal_strlit(", ");
    reveal_strlit("# powermetrics sample completed ");
    reveal_strlit(" s before this scrape. A reading is served for at most ");
    reveal_strlit(" s and then re-measured; an older one is never served.");
    reveal_with_fuel(clear_to, 61);
    assert(clear_to("# powermetrics sample completed at unix "@, 40));
    lemma_clear("# powermetrics sample completed at unix "@, 40);
    assert(clear_to(", "@, 2));
    lemma_clear(", "@, 2);
    assert(clear_to("# powermetrics sample completed "@, 32));
    lemma_clear("# powermetrics sample completed "@, 32);
    assert(clear_to(" s before this scrape. A reading is served for at most "@, 55));
    lemma_clear(" s before this scrape. A reading is served for at most "@, 55);
    assert(clear_to(" s and then re-measured; an older one is never served."@, 54));
    lemma_clear(" s and then re-measured; an older one is never served."@, 54);
}

proof fn lemma_failure_texts()
    ensures
        one_line("# no reading this scrape: "@),
        one_line("; the exporter's stderr log has the reason. No power series are published and no earlier reading is reused."@),
        "# no reading this scrape: "@.len() > 0 && "# no reading this scrape: "@[0] == '#',
{
    reveal_strlit("# no reading this scrape: ");
    reveal_strlit("; the exporter's stderr log has the reason. No power series are published and no earlier reading is reused.");
    reveal_with_fuel(clear_to, 61);
    assert(clear_to("# no reading this scrape: "@, 26));
    lemma_clear("# no reading this scrape: "@, 26);
    assert(clear_to("; the exporter's stderr log has the reason. No power series are published and no earlier reading is reused."@, 60));
    assert(clear_to("; the exporter's stderr log has the reason. No power series are published and no earlier reading is reused."@, 107));
    lemma_clear("; the exporter's stderr log has the reason. No power series are published and no earlier reading is reused."@, 107);
}

/// These lines hold exactly these samples, and each is one line.
pub open spec fn holds_rows(lines: Seq<Seq<char>>, rows: Seq<SampleView>) -> bool {
    samples_of(lines) == rows && all_lines(lines)
}

proof fn lemma_appended(
    a: Seq<Seq<char>>,
    x: Seq<SampleView>,
    b: Seq<Seq<char>>,
    y: Seq<SampleView>,
)
    requires
        holds_rows(a, x),
        holds_rows(b, y),
    ensures
        holds_rows(a + b, x + y),
{
    lemma_joined(a, b);
}

proof fn lemma_comment_line(line: Seq<char>)
    requires
        one_line(line),
        line.len() > 0,
        line[0] == '#',
    ensures
        holds_rows(seq![line], Seq::empty()),
{
    lemma_comment(line);
    assert(seq![line].drop_last() =~= Seq::<Seq<char>>::empty());
    assert(samples_of(Seq::<Seq<char>>::empty()) =~= Seq::<SampleView>::empty());
    assert(samples_of(seq![line]) =~= Seq::<SampleView>::empty());
}

proof fn lemma_agent_lines(name: Seq<char>, help: Seq<char>, value: Seq<char>)
    requires
        is_metric_name(name),
        one_line(name),
        one_line(help),
        is_numeral(value),
    ensures
        holds_rows(agent_lines(name, help, value), seq![agent_row(name, value)]),
{
    reveal_strlit("agent");
    reveal_with_fuel(words_to, 6);
    assert(words_to("agent"@, 5));
    lemma_words("agent"@, 5);
    let rows = seq![agent_row(name, value)];
    assert forall|i: int| 0 <= i < rows.len() implies writable(#[trigger] rows[i]) by {
        assert(all_keys(rows[i].labels));
    }
    lemma_family(name, help, rows);
}

proof fn lemma_field_lines(
    host: Option<Seq<char>>,
    metric: Seq<char>,
    help: Seq<char>,
    field: Option<PowerField>,
)
    requires
        is_metric_name(metric),
        one_line(metric),
        one_line(help),
        field matches Some(f) ==> is_numeral(f.watts.numeral()),
    ensures
        holds_rows(field_lines(host, metric, help, field), field_rows(host, metric, field)),
{
    if let Some(f) = field {
        reveal_strlit("host");
        reveal_strlit("source");
        reveal_with_fuel(words_to, 7);
        assert(words_to("host"@, 4));
        assert(words_to("source"@, 6));
        lemma_words("host"@, 4);
        lemma_words("source"@, 6);
        let source = f.source_label@;
        let rows = field_rows(host, metric, field);
        assert forall|i: int| 0 <= i < rows.len() implies writable(#[trigger] rows[i]) by {
            assert(all_keys(rows[i].labels));
        }
        lemma_family(metric, help, rows);
        lemma_field_texts();
        lemma_escaped_one_line(source);
        let a = "# "@ + metric;
        let b = a + " is read from the powermetrics line \""@;
        let c = b + escaped(source);
        lemma_one_line_add("# "@, metric);
        lemma_one_line_add(a, " is read from the powermetrics line \""@);
        lemma_one_line_add(b, escaped(source));
        lemma_one_line_add(c, "\"."@);
        let comment = field_comment(metric, source);
        assert(comment[0] == "# "@[0]);
        lemma_comment_line(comment);
        lemma_appended(
            seq![comment],
            Seq::empty(),
            family_lines(metric, help, sample_lines(rows)),
            rows,
        );
        assert(Seq::<SampleView>::empty() + rows =~= rows);
    } else {
        assert(samples_of(field_lines(host, metric, help, field)) =~= field_rows(
            host,
            metric,
            field,
        ));
    }
}

proof fn lemma_provenance(completed: Option<Seq<char>>, age: Seq<char>, window: Seq<char>)
    requires
        completed matches Some(unix) ==> one_line(unix),
        one_line(age),
        one_line(window),
    ensures
        holds_rows(seq![provenance(completed, age, window)], Seq::empty()),
{
    lemma_provenance_texts();
    let head = match completed {
        Some(unix) => "# powermetrics sample completed at unix "@ + unix + ", "@,
        None => "# powermetrics sample completed "@,
    };
    if let Some(unix) = completed {
        lemma_one_line_add("# powermetrics sample completed at unix "@, unix);
        lemma_one_line_add("# powermetrics sample completed at unix "@ + unix, ", "@);
        assert(head[0] == "# powermetrics sample completed at unix "@[0]);
    }
    let a = head + age;
    let b = a + " s before this scrape. A reading is served for at most "@;
    let c = b + window;
    lemma_one_line_add(head, age);
    lemma_one_line_add(a, " s before this scrape. A reading is served for at most "@);
    lemma_one_line_add(b, window);
    lemma_one_line_add(c, " s and then re-measured; an older one is never served."@);
    let comment = provenance(completed, age, window);
    assert(comment[0] == head[0]);
    lemma_comment_line(comment);
}

proof fn lemma_flag(up: bool)
    ensures
        is_numeral(if up { "1"@ } else { "0"@ }),
{
    reveal_strlit("0");
    reveal_strlit("1");
    let s = if up { "1"@ } else { "0"@ };
    lemma_run_is(s, Class::Digit, 1);
    assert(s.skip(0) =~= s);
    assert(s.skip(1) =~= Seq::<char>::empty());
}

/// The texts that a document is given are numerals and single lines.
pub open spec fn printable(served: Served, times: Times) -> bool {
    &&& is_numeral(times.duration@)
    &&& is_numeral(times.age@)
    &&& one_line(times.age_rounded@)
    &&& one_line(times.window_rounded@)
    &&& text_view(served.completed_unix_s) matches Some(unix) ==> one_line(unix)
    &&& served.reading.package matches Some(f) ==> is_numeral(f.watts.numeral())
    &&& served.reading.cpu matches Some(f) ==> is_numeral(f.watts.numeral())
    &&& served.reading.gpu matches Some(f) ==> is_numeral(f.watts.numeral())
}

/// The samples of a scrape that served a reading.
pub open spec fn served_rows(served: Served, host: Option<Seq<char>>, times: Times) -> Seq<
    SampleView,
> {
    seq![agent_row(UP@, "1"@)] + (seq![agent_row(SCRAPE_DURATION@, times.duration@)] + seq![
        agent_row(SAMPLE_AGE@, times.age@),
    ] + Seq::empty() + field_rows(host, PACKAGE@, served.reading.package) + field_rows(
        host,
        CPU@,
        served.reading.cpu,
    ) + field_rows(host, GPU@, served.reading.gpu))
}

/// A scrape that served a reading is read back as exactly what it served: the
/// fields that were printed, each with the line it came from, and the
/// reading's true age.
pub proof fn law_served_readings_are_read_back(
    scrape: Scrape,
    host: Option<Seq<char>>,
    times: Times,
)
    requires
        scrape.up,
        scrape.served is Some,
        printable(scrape.served->0, times),
    ensures
        document(rendered(document_lines(scrape, host, times))) == served_rows(
            scrape.served->0,
            host,
            times,
        ),
{
    let served = scrape.served->0;
    lemma_up();
    lemma_scrape_duration();
    lemma_sample_age();
    lemma_package();
    lemma_cpu();
    lemma_gpu();
    lemma_flag(true);
    let up = agent_lines(UP@, UP_HELP@, "1"@);
    let took = agent_lines(SCRAPE_DURATION@, SCRAPE_DURATION_HELP@, times.duration@);
    let age = agent_lines(SAMPLE_AGE@, SAMPLE_AGE_HELP@, times.age@);
    let comment = seq![
        provenance(
            text_view(served.completed_unix_s),
            times.age_rounded@,
            times.window_rounded@,
        ),
    ];
    let package = field_lines(host, PACKAGE@, PACKAGE_HELP@, served.reading.package);
    let cpu = field_lines(host, CPU@, CPU_HELP@, served.reading.cpu);
    let gpu = field_lines(host, GPU@, GPU_HELP@, served.reading.gpu);
    lemma_agent_lines(UP@, UP_HELP@, "1"@);
    lemma_agent_lines(SCRAPE_DURATION@, SCRAPE_DURATION_HELP@, times.duration@);
    lemma_agent_lines(SAMPLE_AGE@, SAMPLE_AGE_HELP@, times.age@);
    lemma_provenance(
        text_view(served.completed_unix_s),
        times.age_rounded@,
        times.window_rounded@,
    );
    lemma_field_lines(host, PACKAGE@, PACKAGE_HELP@, served.reading.package);
    lemma_field_lines(host, CPU@, CPU_HELP@, served.reading.cpu);
    lemma_field_lines(host, GPU@, GPU_HELP@, served.reading.gpu);
    let took_row = seq![agent_row(SCRAPE_DURATION@, times.duration@)];
    let age_row = seq![agent_row(SAMPLE_AGE@, times.age@)];
    let package_rows = field_rows(host, PACKAGE@, served.reading.package);
    let cpu_rows = field_rows(host, CPU@, served.reading.cpu);
    let gpu_rows = field_rows(host, GPU@, served.reading.gpu);
    let none = Seq::<SampleView>::empty();
    lemma_appended(took, took_row, age, age_row);
    lemma_appended(took + age, took_row + age_row, comment, none);
    lemma_appended(took + age + comment, took_row + age_row + none, package, package_rows);
    lemma_appended(
        took + age + comment + package,
        took_row + age_row + none + package_rows,
        cpu,
        cpu_rows,
    );
    lemma_appended(
        took + age + comment + package + cpu,
        took_row + age_row + none + package_rows + cpu_rows,
        gpu,
        gpu_rows,
    );
    lemma_appended(
        up,
        seq![agent_row(UP@, "1"@)],
        took + age + comment + package + cpu + gpu,
        took_row + age_row + none + package_rows + cpu_rows + gpu_rows,
    );
    law_documents_are_read_back(document_lines(scrape, host, times));
}

/// A scrape without a reading publishes that the exporter is down and no
/// other sample: no zero, and nothing that was remembered.
pub proof fn law_failed_scrapes_publish_only_down(
    scrape: Scrape,
    host: Option<Seq<char>>,
    times: Times,
)
    requires
        !scrape.up,
        scrape.served is None,
        scrape.failure matches Some(failure) ==> one_line(failure@),
    ensures
        document(rendered(document_lines(scrape, host, times))) == seq![agent_row(UP@, "0"@)],
{
    lemma_up();
    lemma_flag(false);
    lemma_agent_lines(UP@, UP_HELP@, "0"@);
    let up = agent_lines(UP@, UP_HELP@, "0"@);
    let row = seq![agent_row(UP@, "0"@)];
    let none = Seq::<SampleView>::empty();
    if let Some(failure) = scrape.failure {
        lemma_failure_texts();
        lemma_one_line_add("# no reading this scrape: "@, failure@);
        lemma_one_line_add(
            "# no reading this scrape: "@ + failure@,
            "; the exporter's stderr log has the reason. No power series are published and no earlier reading is reused."@,
        );
        let comment = failure_comment(failure@);
        assert(comment[0] == "# no reading this scrape: "@[0]);
        lemma_comment_line(comment);
        lemma_appended(up, row, seq![comment], none);
    } else {
        assert(holds_rows(Seq::<Seq<char>>::empty(), none)) by {
            assert(samples_of(Seq::<Seq<char>>::empty()) =~= none);
        }
        lemma_appended(up, row, Seq::empty(), none);
    }
    assert(row + none =~= row);
    law_documents_are_read_back(document_lines(scrape, host, times));
}

/// A scrape that served a reading publishes that it is up, how long it took
/// and how old the reading is, and of package, CPU and GPU each power that was
/// read, under the metric of its own name, with the host where it is known and
/// the line it was read from.
pub proof fn law_fields_are_published_under_their_names(
    served: Served,
    host: Option<Seq<char>>,
    times: Times,
)
    ensures
        ({
            let rows = served_rows(served, host, times);
            let own = seq![("agent"@, "mac"@)];
            let told = |metric: Seq<char>, field: Option<PowerField>|
                field matches Some(f) ==> rows.contains(
                    SampleView {
                        metric,
                        labels: match host {
                            Some(name) => seq![("host"@, name), ("source"@, f.source_label@)],
                            None => seq![("source"@, f.source_label@)],
                        },
                        value: f.watts.numeral(),
                    },
                );
            &&& rows[0] == (SampleView { metric: "muser_agent_up"@, labels: own, value: "1"@ })
            &&& rows[1] == (SampleView {
                metric: "muser_agent_scrape_duration_seconds"@,
                labels: own,
                value: times.duration@,
            })
            &&& rows[2] == (SampleView {
                metric: "muser_agent_sample_age_seconds"@,
                labels: own,
                value: times.age@,
            })
            &&& told("muser_host_package_power_watts"@, served.reading.package)
            &&& told("muser_host_cpu_power_watts"@, served.reading.cpu)
            &&& told("muser_host_gpu_power_watts"@, served.reading.gpu)
            &&& rows.len() == 3 + (if served.reading.package is Some {
                1int
            } else {
                0
            }) + (if served.reading.cpu is Some {
                1int
            } else {
                0
            }) + (if served.reading.gpu is Some {
                1int
            } else {
                0
            })
        }),
{
    let rows = served_rows(served, host, times);
    let a = field_rows(host, PACKAGE@, served.reading.package);
    let b = field_rows(host, CPU@, served.reading.cpu);
    let c = field_rows(host, GPU@, served.reading.gpu);
    if served.reading.package is Some {
        assert(rows[3] == a[0]);
    }
    if served.reading.cpu is Some {
        assert(rows[3 + a.len() as int] == b[0]);
    }
    if served.reading.gpu is Some {
        assert(rows[3 + a.len() as int + b.len() as int] == c[0]);
    }
}

/// A scrape without a reading is published as down, under the exporter's own
/// label, and nothing else is.
pub proof fn law_a_failed_scrape_is_down(scrape: Scrape, host: Option<Seq<char>>, times: Times)
    requires
        !scrape.up,
        scrape.served is None,
        scrape.failure matches Some(failure) ==> one_line(failure@),
    ensures
        document(rendered(document_lines(scrape, host, times))) == seq![
            SampleView {
                metric: "muser_agent_up"@,
                labels: seq![("agent"@, "mac"@)],
                value: "0"@,
            },
        ],
{
    law_failed_scrapes_publish_only_down(scrape, host, times);
}

/// The document says in comments when the sample was complete and how long it
/// is served, and of every power which line it was read from; where there is no
/// reading, it says why.
pub proof fn law_documents_say_where_readings_come_from(
    scrape: Scrape,
    host: Option<Seq<char>>,
    times: Times,
)
    ensures
        ({
            let lines = document_lines(scrape, host, times);
            let sourced = |metric: Seq<char>, field: Option<PowerField>|
                field matches Some(f) ==> lines.contains(
                    "# "@ + metric + " is read from the powermetrics line \""@ + escaped(
                        f.source_label@,
                    ) + "\"."@,
                );
            &&& scrape.served matches Some(served) ==> {
                &&& sourced("muser_host_package_power_watts"@, served.reading.package)
                &&& sourced("muser_host_cpu_power_watts"@, served.reading.cpu)
                &&& sourced("muser_host_gpu_power_watts"@, served.reading.gpu)
                &&& text_view(served.completed_unix_s) matches Some(unix) ==> lines.contains(
                    "# powermetrics sample completed at unix "@ + unix + ", "@
                        + times.age_rounded@
                        + " s before this scrape. A reading is served for at most "@
                        + times.window_rounded@
                        + " s and then re-measured; an older one is never served."@,
                )
                &&& text_view(served.completed_unix_s) is None ==> lines.contains(
                    "# powermetrics sample completed "@ + times.age_rounded@
                        + " s before this scrape. A reading is served for at most "@
                        + times.window_rounded@
                        + " s and then re-measured; an older one is never served."@,
                )
            }
            &&& scrape.served is None ==> (scrape.failure matches Some(failure) ==> lines.contains(
                "# no reading this scrape: "@ + failure@
                    + "; the exporter's stderr log has the reason. No power series are published and no earlier reading is reused."@,
            ))
        }),
{
    let lines = document_lines(scrape, host, times);
    let up = agent_lines(
        UP@,
        UP_HELP@,
        if scrape.up {
            "1"@
        } else {
            "0"@
        },
    );
    if let Some(served) = scrape.served {
        let a = agent_lines(SCRAPE_DURATION@, SCRAPE_DURATION_HELP@, times.duration@);
        let b = agent_lines(SAMPLE_AGE@, SAMPLE_AGE_HELP@, times.age@);
        let c = seq![
            provenance(
                text_view(served.completed_unix_s),
                times.age_rounded@,
                times.window_rounded@,
            ),
        ];
        let p = field_lines(host, PACKAGE@, PACKAGE_HELP@, served.reading.package);
        let q = field_lines(host, CPU@, CPU_HELP@, served.reading.cpu);
        let r = field_lines(host, GPU@, GPU_HELP@, served.reading.gpu);
        let n = (up.len() + a.len() + b.len()) as int;
        assert(lines[n] == c[0]);
        if served.reading.package is Some {
            assert(lines[n + 1] == p[0]);
        }
        if served.reading.cpu is Some {
            assert(lines[n + 1 + p.len() as int] == q[0]);
        }
        if served.reading.gpu is Some {
            assert(lines[n + 1 + p.len() as int + q.len() as int] == r[0]);
        }
    } else if let Some(failure) = scrape.failure {
        assert(lines[up.len() as int] == failure_comment(failure@));
    }
}

} // verus!
