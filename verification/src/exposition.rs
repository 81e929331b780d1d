//! The Prometheus text exposition, as it is written.
//!
//! A document is a list of lines. A family is its two header lines and its
//! samples, and a family without a sample is not written at all: a header
//! with nothing under it would announce a series that does not exist.
use crate::history::prom::{
    closing, document, is_float, is_metric_name, label, label_set, line_sample, quoted, samples_of,
    shifted, unescaped, SampleView,
};
use crate::number::{finite, is_finite};
use crate::text::{
    after, is_ascii_letter, is_ascii_white, is_white, lemma_run_is, lemma_trim_end_is, pieces, run,
    trimmed, Class,
};
use vstd::prelude::*;

verus! {

/// `Content-Type` of an exposition document.
pub const CONTENT_TYPE: &'static str = "text/plain; version=0.0.4; charset=utf-8";

/// A number and the numeral it is printed as.
#[derive(PartialEq, Eq, Debug)]
pub enum Figure {
    /// A double, by its bits.
    Double { bits: u64, text: String },
    /// A decimal fraction that its numeral gives exactly.
    Exact { text: String },
}

impl Figure {
    /// Whether the number is finite.
    pub open spec fn measures(&self) -> bool {
        match self {
            Figure::Double { bits, .. } => is_finite(*bits),
            Figure::Exact { .. } => true,
        }
    }

    pub open spec fn numeral(&self) -> Seq<char> {
        match self {
            Figure::Double { text, .. } => text@,
            Figure::Exact { text } => text@,
        }
    }

    /// A copy of the figure.
    pub fn copy(&self) -> (r: Figure)
        ensures
            r == *self,
    {
        match self {
            Figure::Double { bits, text } => Figure::Double { bits: *bits, text: text.clone() },
            Figure::Exact { text } => Figure::Exact { text: text.clone() },
        }
    }
}

/// A copy of an optional figure.
pub fn copy_figure(figure: &Option<Figure>) -> (r: Option<Figure>)
    ensures
        r == *figure,
{
    match figure {
        Some(figure) => Some(figure.copy()),
        None => None,
    }
}

/// What is published of a reading: nothing of one that is missing or not
/// finite.
pub open spec fn published(reading: Option<Figure>) -> Option<Seq<char>> {
    match reading {
        Some(figure) => if figure.measures() {
            Some(figure.numeral())
        } else {
            None
        },
        None => None,
    }
}

/// The numeral of a reading that can be published.
pub fn publish(reading: &Option<Figure>) -> (r: Option<String>)
    ensures
        match r {
            Some(text) => published(*reading) == Some(text@),
            None => published(*reading) is None,
        },
{
    match reading {
        Some(Figure::Double { bits, text }) => if finite(*bits) {
            Some(text.clone())
        } else {
            None
        },
        Some(Figure::Exact { text }) => Some(text.clone()),
        None => None,
    }
}

// ---------------------------------------------------------------------------
// Labels

/// A character in a label value: the escapes are exactly backslash, quote and
/// line feed.
pub open spec fn escape_char(c: char) -> Seq<char> {
    if c == '\\' {
        seq!['\\', '\\']
    } else if c == '"' {
        seq!['\\', '"']
    } else if c == '\n' {
        seq!['\\', 'n']
    } else {
        seq![c]
    }
}

/// A label value as it is written between quotes.
pub open spec fn escaped(s: Seq<char>) -> Seq<char>
    decreases s.len(),
{
    if s.len() == 0 {
        Seq::empty()
    } else {
        escape_char(s[0]) + escaped(s.skip(1))
    }
}

fn push_escaped(out: &mut String, value: &str)
    ensures
        final(out)@ == old(out)@ + escaped(value@),
{
    let ghost before = out@;
    let ghost whole = escaped(value@);
    assert(value@.skip(0) =~= value@);
    for c in it: value.chars()
        invariant
            it.seq() == value@,
            0 <= it.index() <= value@.len(),
            before + whole == out@ + escaped(value@.skip(it.index() as int)),
    {
        let ghost rest = value@.skip(it.index() as int);
        let ghost so_far = out@;
        proof {
            assert(rest[0] == c);
            assert(rest.skip(1) =~= value@.skip(it.index() + 1));
        }
        if c == '\\' {
            out.push('\\');
            out.push('\\');
        } else if c == '"' {
            out.push('\\');
            out.push('"');
        } else if c == '\n' {
            out.push('\\');
            out.push('n');
        } else {
            out.push(c);
        }
        assert(out@ =~= so_far + escape_char(c));
        assert(so_far + (escape_char(c) + escaped(rest.skip(1))) =~= out@ + escaped(rest.skip(1)));
    }
    assert(value@.skip(value@.len() as int) =~= Seq::<char>::empty());
    assert(out@ + Seq::<char>::empty() =~= out@);
}

/// Escapes a label value.
pub fn escape(value: &str) -> (r: String)
    ensures
        r@ == escaped(value@),
{
    let mut out = String::new();
    push_escaped(&mut out, value);
    assert(Seq::<char>::empty() + escaped(value@) =~= escaped(value@));
    out
}

/// `key="value"`.
pub open spec fn pair_text(pair: (Seq<char>, Seq<char>)) -> Seq<char> {
    pair.0 + seq!['=', '"'] + escaped(pair.1) + seq!['"']
}

/// The inside of a label set.
pub open spec fn label_list(labels: Seq<(Seq<char>, Seq<char>)>) -> Seq<char>
    decreases labels.len(),
{
    if labels.len() == 0 {
        Seq::empty()
    } else if labels.len() == 1 {
        pair_text(labels[0])
    } else {
        pair_text(labels[0]) + seq![','] + label_list(labels.skip(1))
    }
}

/// A label set in braces, or nothing where there are no labels.
pub open spec fn label_text(labels: Seq<(Seq<char>, Seq<char>)>) -> Seq<char> {
    if labels.len() == 0 {
        Seq::empty()
    } else {
        seq!['{'] + label_list(labels) + seq!['}']
    }
}

/// The keys and values of a list of borrowed labels.
pub open spec fn pair_views(pairs: Seq<(&str, &str)>) -> Seq<(Seq<char>, Seq<char>)> {
    Seq::new(pairs.len(), |i: int| (pairs[i].0@, pairs[i].1@))
}

/// Writes a label set.
pub fn labels(pairs: &[(&str, &str)]) -> (r: String)
    ensures
        r@ == label_text(pair_views(pairs@)),
{
    let mut out = String::new();
    if pairs.len() == 0 {
        return out;
    }
    let ghost all = pair_views(pairs@);
    let ghost whole = label_list(all);
    out.push('{');
    proof {
        assert(all.skip(0) =~= all);
        assert(out@ =~= seq!['{']);
    }
    let mut i: usize = 0;
    while i < pairs.len()
        invariant
            i <= pairs@.len(),
            pairs@.len() > 0,
            all == pair_views(pairs@),
            i == 0 ==> out@ == seq!['{'] && whole == label_list(all.skip(0)),
            0 < i < pairs@.len() ==> seq!['{'] + whole == out@ + seq![','] + label_list(
                all.skip(i as int),
            ),
            i == pairs@.len() ==> seq!['{'] + whole == out@,
        decreases pairs@.len() - i,
    {
        let ghost rest = all.skip(i as int);
        let ghost before = out@;
        if i > 0 {
            out.push(',');
        }
        let ghost comma = out@;
        out.append(pairs[i].0);
        out.push('=');
        out.push('"');
        push_escaped(&mut out, pairs[i].1);
        out.push('"');
        proof {
            assert(rest[0] == (pairs@[i as int].0@, pairs@[i as int].1@));
            assert(out@ =~= comma + pair_text(rest[0]));
            assert(rest.skip(1) =~= all.skip(i + 1));
            if i > 0 {
                assert(comma =~= before + seq![',']);
            }
            if i + 1 < pairs@.len() {
                assert(seq!['{'] + whole =~= comma + label_list(rest));
                assert(comma + (pair_text(rest[0]) + seq![','] + label_list(rest.skip(1)))
                    =~= out@ + seq![','] + label_list(rest.skip(1)));
            } else {
                assert(seq!['{'] + whole =~= comma + label_list(rest));
            }
        }
        i += 1;
    }
    out.push('}');
    assert(out@ =~= seq!['{'] + whole + seq!['}']);
    out
}

// ---------------------------------------------------------------------------
// Lines

/// A sample: its metric, its labels and its value.
pub open spec fn sample_line(
    metric: Seq<char>,
    labels: Seq<(Seq<char>, Seq<char>)>,
    value: Seq<char>,
) -> Seq<char> {
    metric + label_text(labels) + seq![' '] + value
}

/// Writes a sample.
pub fn sample(metric: &str, pairs: &[(&str, &str)], value: &str) -> (r: String)
    ensures
        r@ == sample_line(metric@, pair_views(pairs@), value@),
{
    let mut out = metric.to_owned();
    out.append(labels(pairs).as_str());
    out.push(' ');
    out.append(value);
    assert(out@ =~= sample_line(metric@, pair_views(pairs@), value@));
    out
}

/// A family: its headers and its samples, or nothing without a sample.
pub open spec fn family_lines(name: Seq<char>, help: Seq<char>, samples: Seq<Seq<char>>) -> Seq<
    Seq<char>,
> {
    if samples.len() == 0 {
        Seq::empty()
    } else {
        seq!["# HELP "@ + name + " "@ + help, "# TYPE "@ + name + " gauge"@] + samples
    }
}

/// Writes a family of gauges.
pub fn family(lines: &mut Vec<String>, name: &str, help: &str, samples: Vec<String>)
    ensures
        final(lines).deep_view() == old(lines).deep_view() + family_lines(
            name@,
            help@,
            samples.deep_view(),
        ),
{
    let ghost before = lines.deep_view();
    let ghost all = samples.deep_view();
    if samples.len() == 0 {
        assert(before + Seq::<Seq<char>>::empty() =~= before);
        return;
    }
    let mut header = "# HELP ".to_owned();
    header.append(name);
    header.append(" ");
    header.append(help);
    lines.push(header);
    let mut header = "# TYPE ".to_owned();
    header.append(name);
    header.append(" gauge");
    lines.push(header);
    let ghost headers = seq!["# HELP "@ + name@ + " "@ + help@, "# TYPE "@ + name@ + " gauge"@];
    assert(lines.deep_view() =~= before + headers);
    let mut i: usize = 0;
    while i < samples.len()
        invariant
            i <= samples@.len(),
            all == samples.deep_view(),
            lines.deep_view() == before + headers + all.take(i as int),
        decreases samples@.len() - i,
    {
        let ghost so_far = lines.deep_view();
        lines.push(samples[i].clone());
        assert(lines.deep_view() =~= so_far.push(samples@[i as int]@));
        assert(all.take(i + 1) =~= all.take(i as int).push(samples@[i as int]@));
        assert(lines.deep_view() =~= before + headers + all.take(i + 1));
        i += 1;
    }
    assert(lines.deep_view() =~= before + (headers + all));
}

/// The text of a list of lines: each ends in a line feed.
pub open spec fn rendered(lines: Seq<Seq<char>>) -> Seq<char>
    decreases lines.len(),
{
    if lines.len() == 0 {
        Seq::empty()
    } else {
        rendered(lines.drop_last()) + lines.last() + seq!['\n']
    }
}

/// Writes a list of lines.
pub fn render_lines(lines: &Vec<String>) -> (r: String)
    ensures
        r@ == rendered(lines.deep_view()),
{
    let ghost all = lines.deep_view();
    let mut out = String::new();
    for i in 0..lines.len()
        invariant
            all == lines.deep_view(),
            out@ == rendered(all.take(i as int)),
    {
        let ghost before = out@;
        out.append(lines[i].as_str());
        out.push('\n');
        proof {
            let next = all.take(i + 1);
            assert(next.drop_last() =~= all.take(i as int));
            assert(next.last() == lines@[i as int]@);
            assert(out@ =~= before + lines@[i as int]@ + seq!['\n']);
        }
    }
    assert(all.take(all.len() as int) =~= all);
    out
}

// ---------------------------------------------------------------------------
// Reading back

/// A label name: at least one letter, digit or underscore.
pub open spec fn is_key(key: Seq<char>) -> bool {
    key.len() > 0 && forall|i: int| 0 <= i < key.len() ==> Class::Word.has(#[trigger] key[i])
}

pub open spec fn all_keys(labels: Seq<(Seq<char>, Seq<char>)>) -> bool {
    forall|i: int| 0 <= i < labels.len() ==> is_key((#[trigger] labels[i]).0)
}

/// A numeral: it denotes a number and holds no whitespace.
pub open spec fn is_numeral(value: Seq<char>) -> bool {
    is_float(value) && forall|i: int| 0 <= i < value.len() ==> !is_white(#[trigger] value[i])
}

proof fn lemma_escaped_unfold(s: Seq<char>, tail: Seq<char>)
    requires
        s.len() > 0,
    ensures
        escaped(s) + tail == escape_char(s[0]) + (escaped(s.skip(1)) + tail),
{
    assert(escaped(s) + tail =~= escape_char(s[0]) + (escaped(s.skip(1)) + tail));
}

/// A written label value reads back as it was.
proof fn lemma_quoted(value: Seq<char>, rest: Seq<char>)
    ensures
        quoted(escaped(value) + (seq!['"'] + rest)) == Some((value, rest)),
    decreases value.len(),
{
    let tail = seq!['"'] + rest;
    if value.len() == 0 {
        assert(escaped(value) + tail =~= tail);
        assert(tail.skip(1) =~= rest);
        assert(value =~= Seq::<char>::empty());
    } else {
        lemma_escaped_unfold(value, tail);
        lemma_quoted(value.skip(1), rest);
        let c = value[0];
        let inner = escaped(value.skip(1)) + tail;
        let s = escape_char(c) + inner;
        if c == '\\' || c == '"' || c == '\n' {
            assert(s[0] == '\\');
            assert(s.skip(2) =~= inner);
            assert(unescaped(s[1]) == Some(c));
        } else {
            assert(s[0] == c);
            assert(s.skip(1) =~= inner);
        }
        assert(seq![c] + value.skip(1) =~= value);
    }
}

/// No brace inside a written label value closes the label set.
proof fn lemma_closing_value(value: Seq<char>, rest: Seq<char>)
    ensures
        closing(escaped(value) + rest, true) == shifted(
            escaped(value).len() as int,
            closing(rest, true),
        ),
    decreases value.len(),
{
    if value.len() == 0 {
        assert(escaped(value) + rest =~= rest);
    } else {
        lemma_escaped_unfold(value, rest);
        lemma_closing_value(value.skip(1), rest);
        let c = value[0];
        let inner = escaped(value.skip(1)) + rest;
        let s = escape_char(c) + inner;
        if c == '\\' || c == '"' || c == '\n' {
            assert(s[0] == '\\');
            assert(s.skip(2) =~= inner);
        } else {
            assert(s[0] == c);
            assert(s.skip(1) =~= inner);
        }
    }
}

proof fn lemma_closing_key(key: Seq<char>, rest: Seq<char>)
    requires
        forall|i: int| 0 <= i < key.len() ==> Class::Word.has(#[trigger] key[i]),
    ensures
        closing(key + rest, false) == shifted(key.len() as int, closing(rest, false)),
    decreases key.len(),
{
    if key.len() == 0 {
        assert(key + rest =~= rest);
    } else {
        let t = key.skip(1);
        assert forall|i: int| 0 <= i < t.len() implies Class::Word.has(#[trigger] t[i]) by {
            assert(t[i] == key[i + 1]);
        }
        lemma_closing_key(t, rest);
        assert(Class::Word.has(key[0]));
        assert((key + rest).skip(1) =~= t + rest);
        assert((key + rest)[0] == key[0]);
    }
}

proof fn lemma_closing_pair(pair: (Seq<char>, Seq<char>), rest: Seq<char>)
    requires
        is_key(pair.0),
    ensures
        closing(pair_text(pair) + rest, false) == shifted(
            pair_text(pair).len() as int,
            closing(rest, false),
        ),
{
    let end = seq!['"'] + rest;
    let value = escaped(pair.1) + end;
    let quote = seq!['"'] + value;
    let eq = seq!['='] + quote;
    assert(pair_text(pair) + rest =~= pair.0 + eq);
    lemma_closing_key(pair.0, eq);
    assert(eq.skip(1) =~= quote);
    assert(quote.skip(1) =~= value);
    lemma_closing_value(pair.1, end);
    assert(end.skip(1) =~= rest);
    assert(closing(eq, false) == shifted(1, closing(quote, false)));
    assert(closing(quote, false) == shifted(1, closing(value, true)));
    assert(closing(end, true) == shifted(1, closing(rest, false)));
}

proof fn lemma_closing_list(labels: Seq<(Seq<char>, Seq<char>)>, rest: Seq<char>)
    requires
        all_keys(labels),
    ensures
        closing(label_list(labels) + (seq!['}'] + rest), false) == Some(
            label_list(labels).len() as int,
        ),
    decreases labels.len(),
{
    let tail = seq!['}'] + rest;
    if labels.len() == 0 {
        assert(label_list(labels) + tail =~= tail);
    } else {
        assert(is_key(labels[0].0));
        if labels.len() == 1 {
            lemma_closing_pair(labels[0], tail);
        } else {
            let t = labels.skip(1);
            assert forall|i: int| 0 <= i < t.len() implies is_key((#[trigger] t[i]).0) by {
                assert(t[i] == labels[i + 1]);
            }
            lemma_closing_list(t, rest);
            let comma = seq![','] + (label_list(t) + tail);
            assert(label_list(labels) + tail =~= pair_text(labels[0]) + comma);
            lemma_closing_pair(labels[0], comma);
            assert(comma.skip(1) =~= label_list(t) + tail);
        }
    }
}

/// One written label reads back as it was.
proof fn lemma_label(pair: (Seq<char>, Seq<char>), rest: Seq<char>)
    requires
        is_key(pair.0),
    ensures
        label(pair_text(pair) + rest) == Some((pair, rest)),
        (pair_text(pair) + rest).len() > 0,
        !is_ascii_white((pair_text(pair) + rest)[0]),
{
    let end = seq!['"'] + rest;
    let value = escaped(pair.1) + end;
    let quote = seq!['"'] + value;
    let eq = seq!['='] + quote;
    let s = pair_text(pair) + rest;
    assert(s =~= pair.0 + eq);
    assert forall|i: int| 0 <= i < pair.0.len() implies Class::Word.has(#[trigger] s[i]) by {
        assert(s[i] == pair.0[i]);
    }
    assert(s[pair.0.len() as int] == '=');
    lemma_run_is(s, Class::Word, pair.0.len());
    assert(s.take(pair.0.len() as int) =~= pair.0);
    assert(s.skip(pair.0.len() as int) =~= eq);
    lemma_run_is(eq, Class::AsciiWhite, 0);
    assert(eq.skip(0) =~= eq);
    assert(eq.skip(1) =~= quote);
    lemma_run_is(quote, Class::AsciiWhite, 0);
    assert(quote.skip(0) =~= quote);
    assert(quote.skip(1) =~= value);
    lemma_quoted(pair.1, rest);
    assert(Class::Word.has(s[0]));
}

/// A written label set reads back as it was.
proof fn lemma_label_set(labels: Seq<(Seq<char>, Seq<char>)>)
    requires
        all_keys(labels),
    ensures
        label_set(label_list(labels)) == Some(labels),
    decreases labels.len(),
{
    let s = label_list(labels);
    if labels.len() == 0 {
        lemma_run_is(s, Class::AsciiWhite, 0);
        assert(s.skip(0) =~= s);
        assert(labels =~= Seq::<(Seq<char>, Seq<char>)>::empty());
    } else {
        let t = labels.skip(1);
        let rest = if labels.len() == 1 {
            Seq::<char>::empty()
        } else {
            seq![','] + label_list(t)
        };
        assert(s =~= pair_text(labels[0]) + rest);
        assert(is_key(labels[0].0));
        lemma_label(labels[0], rest);
        lemma_run_is(s, Class::AsciiWhite, 0);
        assert(s.skip(0) =~= s);
        lemma_run_is(rest, Class::AsciiWhite, 0);
        assert(rest.skip(0) =~= rest);
        if labels.len() == 1 {
            assert(labels =~= seq![labels[0]]);
        } else {
            assert forall|i: int| 0 <= i < t.len() implies is_key((#[trigger] t[i]).0) by {
                assert(t[i] == labels[i + 1]);
            }
            lemma_label_set(t);
            assert(rest.skip(1) =~= label_list(t));
            assert(seq![labels[0]] + t =~= labels);
        }
    }
}

/// Text without whitespace at its ends is what is left of it by trimming.
proof fn lemma_trimmed(s: Seq<char>)
    requires
        s.len() > 0,
        !is_white(s[0]),
        !is_white(s.last()),
    ensures
        trimmed(s) == s,
{
    lemma_run_is(s, Class::White, 0);
    assert(s.skip(0) =~= s);
    lemma_trim_end_is(s, s.len() as int);
    assert(s.take(s.len() as int) =~= s);
}

/// What is written as a sample is read back as that sample: its metric, every
/// label with its exact value whatever characters it holds, and its numeral.
pub proof fn law_samples_are_read_back(
    metric: Seq<char>,
    labels: Seq<(Seq<char>, Seq<char>)>,
    value: Seq<char>,
)
    requires
        is_metric_name(metric),
        all_keys(labels),
        is_numeral(value),
    ensures
        line_sample(sample_line(metric, labels, value)) == Some(
            (SampleView { metric, labels, value }),
        ),
{
    let line = sample_line(metric, labels, value);
    let m = metric.len() as int;
    assert(value.len() > 0) by {
        if value.len() == 0 {
            assert(value.skip(0) =~= value);
            assert(value.map_values(|c: char| crate::text::lower(c)).len() == 0);
        }
    }
    assert forall|i: int| 0 <= i < m implies !is_white(#[trigger] metric[i]) && metric[i] != '{' by {
        let c = metric[i];
        assert(crate::text::is_ascii_letter(c) || crate::text::is_ascii_digit(c) || c == '_' || c
            == ':');
    }
    assert(line[0] == metric[0]);
    assert(line.last() == value.last());
    assert(!is_white(value[value.len() - 1]));
    lemma_trimmed(line);
    lemma_trimmed(metric);
    assert(line[0] != '#') by {
        let c = metric[0];
        assert(crate::text::is_ascii_letter(c) || crate::text::is_ascii_digit(c) || c == '_' || c
            == ':');
    }
    let rest = seq![' '] + value;
    assert(rest.skip(1) =~= value);
    lemma_run_is(rest, Class::White, 1);
    assert forall|i: int| 0 <= i < value.len() implies Class::Black.has(#[trigger] value[i]) by {}
    lemma_run_is(value, Class::Black, value.len());
    assert(value.take(value.len() as int) =~= value);
    if labels.len() > 0 {
        let inside = label_list(labels) + (seq!['}'] + rest);
        assert(line =~= metric + (seq!['{'] + inside));
        assert forall|i: int| 0 <= i < m implies Class::Not('{').has(#[trigger] line[i]) by {
            assert(line[i] == metric[i]);
        }
        lemma_run_is(line, Class::Not('{'), metric.len());
        assert(line.skip(m + 1) =~= inside);
        lemma_closing_list(labels, rest);
        assert(inside.take(label_list(labels).len() as int) =~= label_list(labels));
        lemma_label_set(labels);
        assert(line.take(m) =~= metric);
        assert(inside.skip(label_list(labels).len() as int + 1) =~= rest);
    } else {
        assert(line =~= metric + rest);
        assert(value.len() > 0);
        assert forall|i: int| 0 <= i < line.len() implies Class::Not('{').has(#[trigger] line[i]) by {
            if i < m {
                assert(line[i] == metric[i]);
            } else if i > m {
                assert(line[i] == value[i - m - 1]);
                lemma_numeral_char(value, i - m - 1);
            }
        }
        lemma_run_is(line, Class::Not('{'), line.len());
        assert forall|i: int| 0 <= i < m implies Class::Black.has(#[trigger] line[i]) by {
            assert(line[i] == metric[i]);
        }
        assert(line[m] == ' ');
        lemma_run_is(line, Class::Black, metric.len());
        assert(line.take(m) =~= metric);
        assert(line.skip(m) =~= rest);
        assert(labels =~= Seq::<(Seq<char>, Seq<char>)>::empty());
    }
}

/// No number holds a brace.
proof fn lemma_numeral_char(value: Seq<char>, i: int)
    requires
        is_float(value),
        0 <= i < value.len(),
    ensures
        value[i] != '{',
{
    let sign = crate::history::prom::sign_len(value) as int;
    let t = value.skip(sign);
    if i >= sign {
        assert(t[i - sign] == value[i]);
        if crate::history::prom::is_number(t) {
            lemma_number_char(t, i - sign);
        } else {
            let low = t.map_values(|c: char| crate::text::lower(c));
            let k = i - sign;
            assert(low[k] == crate::text::lower(value[i]));
            if low.len() == 3 {
                assert(k == 0 || k == 1 || k == 2);
            } else {
                assert(low == seq!['i', 'n', 'f', 'i', 'n', 'i', 't', 'y']);
                assert(k == 0 || k == 1 || k == 2 || k == 3 || k == 4 || k == 5 || k == 6 || k == 7);
            }
        }
    }
}

proof fn lemma_exponent_char(s: Seq<char>, i: int)
    requires
        crate::history::prom::is_exponent(s),
        0 <= i < s.len(),
    ensures
        s[i] != '{',
{
    let sign = crate::history::prom::sign_len(s.skip(1)) as int;
    let digits = s.skip(1).skip(sign);
    if i >= 1 + sign {
        assert(digits[i - 1 - sign] == s[i]);
    } else if i >= 1 {
        assert(s.skip(1)[i - 1] == s[i]);
    }
}

proof fn lemma_number_char(s: Seq<char>, i: int)
    requires
        crate::history::prom::is_number(s),
        0 <= i < s.len(),
    ensures
        s[i] != '{',
{
    crate::text::lemma_run(s, Class::Digit);
    let whole = run(s, Class::Digit) as int;
    let rest = after(s, Class::Digit);
    if i < whole {
        assert(Class::Digit.has(s[i]));
    } else {
        assert(rest[i - whole] == s[i]);
        if rest[0] == '.' {
            let fraction = rest.skip(1);
            crate::text::lemma_run(fraction, Class::Digit);
            let places = run(fraction, Class::Digit) as int;
            if i > whole {
                let at = i - whole - 1;
                assert(fraction[at] == s[i]);
                if at < places {
                    assert(Class::Digit.has(fraction[at]));
                } else {
                    assert(after(fraction, Class::Digit)[at - places] == s[i]);
                    lemma_exponent_char(after(fraction, Class::Digit), at - places);
                }
            }
        } else {
            lemma_exponent_char(rest, i - whole);
        }
    }
}

// ---------------------------------------------------------------------------
// Documents that are read back

pub open spec fn one_line(s: Seq<char>) -> bool {
    forall|i: int| 0 <= i < s.len() ==> #[trigger] s[i] != '\n'
}

/// A sample that can be written so that it is read back.
pub open spec fn writable(row: SampleView) -> bool {
    is_metric_name(row.metric) && all_keys(row.labels) && is_numeral(row.value)
}

/// The lines of a list of samples.
pub open spec fn sample_lines(rows: Seq<SampleView>) -> Seq<Seq<char>> {
    Seq::new(rows.len(), |i: int| sample_line(rows[i].metric, rows[i].labels, rows[i].value))
}

proof fn lemma_rendered_front(lines: Seq<Seq<char>>)
    requires
        lines.len() > 0,
    ensures
        rendered(lines) == lines[0] + seq!['\n'] + rendered(lines.skip(1)),
    decreases lines.len(),
{
    if lines.len() == 1 {
        assert(lines.drop_last() =~= Seq::<Seq<char>>::empty());
        assert(lines.skip(1) =~= Seq::<Seq<char>>::empty());
        assert(rendered(lines) =~= lines[0] + seq!['\n'] + rendered(lines.skip(1)));
    } else {
        lemma_rendered_front(lines.drop_last());
        let t = lines.skip(1);
        assert(t.drop_last() =~= lines.drop_last().skip(1));
        assert(t.last() == lines.last());
        assert(rendered(lines) =~= lines[0] + seq!['\n'] + rendered(t));
    }
}

proof fn lemma_pieces(lines: Seq<Seq<char>>)
    requires
        forall|i: int| 0 <= i < lines.len() ==> one_line(#[trigger] lines[i]),
    ensures
        pieces(rendered(lines), '\n') == lines.push(Seq::empty()),
    decreases lines.len(),
{
    let text = rendered(lines);
    if lines.len() == 0 {
        lemma_run_is(text, Class::Not('\n'), 0);
        assert(pieces(text, '\n') =~= lines.push(Seq::empty()));
    } else {
        lemma_rendered_front(lines);
        let head = lines[0];
        let t = lines.skip(1);
        assert forall|i: int| 0 <= i < t.len() implies one_line(#[trigger] t[i]) by {
            assert(t[i] == lines[i + 1]);
        }
        lemma_pieces(t);
        assert(one_line(head));
        assert forall|i: int| 0 <= i < head.len() implies Class::Not('\n').has(
            #[trigger] text[i],
        ) by {
            assert(text[i] == head[i]);
        }
        assert(text[head.len() as int] == '\n');
        lemma_run_is(text, Class::Not('\n'), head.len());
        assert(text.take(head.len() as int) =~= head);
        assert(text.skip(head.len() as int + 1) =~= rendered(t));
        assert(pieces(text, '\n') =~= lines.push(Seq::empty()));
    }
}

pub proof fn lemma_samples_of_add(a: Seq<Seq<char>>, b: Seq<Seq<char>>)
    ensures
        samples_of(a + b) == samples_of(a) + samples_of(b),
    decreases b.len(),
{
    if b.len() == 0 {
        assert(a + b =~= a);
        assert(samples_of(a) + samples_of(b) =~= samples_of(a));
    } else {
        lemma_samples_of_add(a, b.drop_last());
        assert((a + b).drop_last() =~= a + b.drop_last());
        assert((a + b).last() == b.last());
        assert(samples_of(a + b) =~= samples_of(a) + samples_of(b));
    }
}

/// Each of these is one line.
pub open spec fn all_lines(lines: Seq<Seq<char>>) -> bool {
    forall|i: int| 0 <= i < lines.len() ==> one_line(#[trigger] lines[i])
}

pub proof fn lemma_joined(a: Seq<Seq<char>>, b: Seq<Seq<char>>)
    requires
        all_lines(a),
        all_lines(b),
    ensures
        all_lines(a + b),
        samples_of(a + b) == samples_of(a) + samples_of(b),
{
    lemma_samples_of_add(a, b);
    assert forall|i: int| 0 <= i < (a + b).len() implies one_line(#[trigger] (a + b)[i]) by {
        if i < a.len() {
            assert((a + b)[i] == a[i]);
        } else {
            assert((a + b)[i] == b[i - a.len()]);
        }
    }
}

/// A document is read back line by line.
pub proof fn law_documents_are_read_back(lines: Seq<Seq<char>>)
    requires
        forall|i: int| 0 <= i < lines.len() ==> one_line(#[trigger] lines[i]),
    ensures
        document(rendered(lines)) == samples_of(lines),
{
    lemma_pieces(lines);
    let all = lines.push(Seq::<char>::empty());
    assert(all.drop_last() =~= lines);
    let e = Seq::<char>::empty();
    lemma_run_is(e, Class::White, 0);
    assert(e.skip(0) =~= e);
    assert(line_sample(e) is None);
}

proof fn lemma_trim_end_keeps_first(s: Seq<char>)
    requires
        s.len() > 0,
        !is_white(s[0]),
    ensures
        crate::text::trim_end(s).len() > 0,
        crate::text::trim_end(s)[0] == s[0],
    decreases s.len(),
{
    if is_white(s.last()) {
        lemma_trim_end_keeps_first(s.drop_last());
    }
}

/// A comment is no sample.
pub proof fn lemma_comment(line: Seq<char>)
    requires
        line.len() > 0,
        line[0] == '#',
    ensures
        line_sample(line) is None,
{
    lemma_run_is(line, Class::White, 0);
    assert(line.skip(0) =~= line);
    lemma_trim_end_keeps_first(line);
}

proof fn lemma_headers(name: Seq<char>, help: Seq<char>)
    ensures
        samples_of(seq!["# HELP "@ + name + " "@ + help, "# TYPE "@ + name + " gauge"@])
            == Seq::<SampleView>::empty(),
        one_line(name) && one_line(help) ==> one_line("# HELP "@ + name + " "@ + help) && one_line(
            "# TYPE "@ + name + " gauge"@,
        ),
{
    reveal_strlit("# HELP ");
    reveal_strlit("# TYPE ");
    reveal_strlit(" gauge");
    reveal_strlit(" ");
    let a = "# HELP "@ + name + " "@ + help;
    let b = "# TYPE "@ + name + " gauge"@;
    lemma_comment(a);
    lemma_comment(b);
    let both = seq![a, b];
    assert(both.drop_last() =~= seq![a]);
    assert(seq![a].drop_last() =~= Seq::<Seq<char>>::empty());
    assert(samples_of(Seq::<Seq<char>>::empty()) =~= Seq::<SampleView>::empty());
    assert(samples_of(seq![a]) =~= Seq::<SampleView>::empty());
    if one_line(name) && one_line(help) {
        assert(one_line("# HELP "@));
        assert(one_line("# TYPE "@));
        assert(one_line(" gauge"@));
        assert(one_line(" "@));
        lemma_one_line_add("# HELP "@, name);
        lemma_one_line_add("# HELP "@ + name, " "@);
        lemma_one_line_add("# HELP "@ + name + " "@, help);
        lemma_one_line_add("# TYPE "@, name);
        lemma_one_line_add("# TYPE "@ + name, " gauge"@);
    }
}

pub proof fn lemma_one_line_add(a: Seq<char>, b: Seq<char>)
    requires
        one_line(a),
        one_line(b),
    ensures
        one_line(a + b),
{
    assert forall|i: int| 0 <= i < (a + b).len() implies #[trigger] (a + b)[i] != '\n' by {
        if i >= a.len() {
            assert((a + b)[i] == b[i - a.len()]);
        } else {
            assert((a + b)[i] == a[i]);
        }
    }
}

pub proof fn lemma_escaped_one_line(s: Seq<char>)
    ensures
        one_line(escaped(s)),
    decreases s.len(),
{
    if s.len() > 0 {
        lemma_escaped_one_line(s.skip(1));
        lemma_one_line_add(escape_char(s[0]), escaped(s.skip(1)));
    }
}

proof fn lemma_label_list_one_line(labels: Seq<(Seq<char>, Seq<char>)>)
    requires
        all_keys(labels),
    ensures
        one_line(label_list(labels)),
    decreases labels.len(),
{
    if labels.len() > 0 {
        let pair = labels[0];
        assert(is_key(pair.0));
        assert(one_line(pair.0)) by {
            assert forall|i: int| 0 <= i < pair.0.len() implies #[trigger] pair.0[i] != '\n' by {
                assert(Class::Word.has(pair.0[i]));
            }
        }
        lemma_escaped_one_line(pair.1);
        lemma_one_line_add(pair.0, seq!['=', '"']);
        lemma_one_line_add(pair.0 + seq!['=', '"'], escaped(pair.1));
        lemma_one_line_add(pair.0 + seq!['=', '"'] + escaped(pair.1), seq!['"']);
        if labels.len() > 1 {
            let t = labels.skip(1);
            assert forall|i: int| 0 <= i < t.len() implies is_key((#[trigger] t[i]).0) by {
                assert(t[i] == labels[i + 1]);
            }
            lemma_label_list_one_line(t);
            lemma_one_line_add(pair_text(pair), seq![',']);
            lemma_one_line_add(pair_text(pair) + seq![','], label_list(t));
        }
    }
}

/// No label value, whatever it holds, breaks a sample into two lines.
pub proof fn law_samples_are_one_line(
    metric: Seq<char>,
    labels: Seq<(Seq<char>, Seq<char>)>,
    value: Seq<char>,
)
    requires
        is_metric_name(metric),
        all_keys(labels),
        is_numeral(value),
    ensures
        one_line(sample_line(metric, labels, value)),
{
    assert(one_line(metric)) by {
        assert forall|i: int| 0 <= i < metric.len() implies #[trigger] metric[i] != '\n' by {
            let c = metric[i];
            assert(crate::text::is_ascii_letter(c) || crate::text::is_ascii_digit(c) || c == '_'
                || c == ':');
        }
    }
    assert(one_line(value)) by {
        assert forall|i: int| 0 <= i < value.len() implies #[trigger] value[i] != '\n' by {
            assert(!is_white(value[i]));
        }
    }
    lemma_label_list_one_line(labels);
    lemma_one_line_add(seq!['{'], label_list(labels));
    lemma_one_line_add(seq!['{'] + label_list(labels), seq!['}']);
    lemma_one_line_add(metric, label_text(labels));
    lemma_one_line_add(metric + label_text(labels), seq![' ']);
    lemma_one_line_add(metric + label_text(labels) + seq![' '], value);
}

/// The lines of a family hold exactly its samples.
pub proof fn lemma_family(name: Seq<char>, help: Seq<char>, rows: Seq<SampleView>)
    requires
        one_line(name),
        one_line(help),
        forall|i: int| 0 <= i < rows.len() ==> writable(#[trigger] rows[i]),
    ensures
        samples_of(family_lines(name, help, sample_lines(rows))) == rows,
        forall|i: int|
            0 <= i < family_lines(name, help, sample_lines(rows)).len() ==> one_line(
                #[trigger] family_lines(name, help, sample_lines(rows))[i],
            ),
{
    let lines = sample_lines(rows);
    let whole = family_lines(name, help, lines);
    lemma_sample_lines(rows);
    if rows.len() == 0 {
        assert(whole =~= Seq::<Seq<char>>::empty());
        assert(samples_of(whole) =~= rows);
    } else {
        let headers = seq!["# HELP "@ + name + " "@ + help, "# TYPE "@ + name + " gauge"@];
        lemma_headers(name, help);
        lemma_samples_of_add(headers, lines);
        assert(samples_of(whole) =~= rows);
        assert forall|i: int| 0 <= i < whole.len() implies one_line(#[trigger] whole[i]) by {
            if i >= 2 {
                assert(whole[i] == lines[i - 2]);
            }
        }
    }
}

/// The lines of a list of samples are read back as those samples.
proof fn lemma_sample_lines(rows: Seq<SampleView>)
    requires
        forall|i: int| 0 <= i < rows.len() ==> writable(#[trigger] rows[i]),
    ensures
        samples_of(sample_lines(rows)) == rows,
        forall|i: int| 0 <= i < rows.len() ==> one_line(#[trigger] sample_lines(rows)[i]),
    decreases rows.len(),
{
    let lines = sample_lines(rows);
    if rows.len() == 0 {
        assert(samples_of(lines) =~= rows);
    } else {
        let init = rows.drop_last();
        assert forall|i: int| 0 <= i < init.len() implies writable(#[trigger] init[i]) by {
            assert(init[i] == rows[i]);
        }
        lemma_sample_lines(init);
        let row = rows.last();
        assert(writable(rows[rows.len() - 1]));
        law_samples_are_read_back(row.metric, row.labels, row.value);
        law_samples_are_one_line(row.metric, row.labels, row.value);
        assert(lines.drop_last() =~= sample_lines(init));
        assert(samples_of(lines) =~= rows);
        assert forall|i: int| 0 <= i < rows.len() implies one_line(#[trigger] lines[i]) by {
            if i < init.len() {
                assert(lines[i] == sample_lines(init)[i]);
            }
        }
    }
}

// ---------------------------------------------------------------------------
// Fixed texts

/// The first `n` characters hold no line feed.
pub open spec fn clear_to(s: Seq<char>, n: int) -> bool
    decreases n,
{
    n <= 0 || (s[n - 1] != '\n' && clear_to(s, n - 1))
}

/// The first `n` characters are letters or underscores.
pub open spec fn words_to(s: Seq<char>, n: int) -> bool
    decreases n,
{
    n <= 0 || ((is_ascii_letter(s[n - 1]) || s[n - 1] == '_') && words_to(s, n - 1))
}

pub proof fn lemma_clear(s: Seq<char>, n: int)
    requires
        clear_to(s, n),
    ensures
        forall|i: int| 0 <= i < n ==> #[trigger] s[i] != '\n',
        n == s.len() ==> one_line(s),
    decreases n,
{
    if n > 0 {
        lemma_clear(s, n - 1);
    }
}

pub proof fn lemma_words(s: Seq<char>, n: int)
    requires
        words_to(s, n),
    ensures
        forall|i: int| 0 <= i < n ==> is_ascii_letter(#[trigger] s[i]) || s[i] == '_',
        n == s.len() && n > 0 ==> is_metric_name(s) && one_line(s) && is_key(s),
    decreases n,
{
    if n > 0 {
        lemma_words(s, n - 1);
        assert(is_ascii_letter(s[n - 1]) || s[n - 1] == '_');
        if n == s.len() {
            assert(is_ascii_letter(s[0]) || s[0] == '_');
            assert forall|i: int| 0 <= i < s.len() implies Class::Word.has(#[trigger] s[i]) by {}
        }
    }
}

// ---------------------------------------------------------------------------
// How a document is written

/// A reading is published as its numeral where it is finite, and not at all
/// where it is missing, infinite or not a number.
pub proof fn law_only_finite_readings_are_published(bits: u64, text: String)
    requires
        bits < 0x8000_0000_0000_0000,
    ensures
        published(None) is None,
        published(Some(Figure::Exact { text })) == Some(text@),
        published(Some(Figure::Double { bits, text })) == if bits < 0x7ff0_0000_0000_0000 {
            Some(text@)
        } else {
            None
        },
        published(
            Some(Figure::Double { bits: (bits + 0x8000_0000_0000_0000) as u64, text }),
        ) == if bits < 0x7ff0_0000_0000_0000 {
            Some(text@)
        } else {
            None
        },
{
    crate::number::law_finite_lies_below_infinity(bits);
}

/// Escaping works character by character and rewrites the backslash, the quote
/// and the line feed alone: what it gives holds no line feed, and a text
/// without these three is given back as it is.
pub proof fn law_escaping_rewrites_three_characters(c: char, s: Seq<char>)
    ensures
        escaped(Seq::empty()) == Seq::<char>::empty(),
        escaped(seq![c] + s) == (if c == '\\' {
            seq!['\\', '\\']
        } else if c == '"' {
            seq!['\\', '"']
        } else if c == '\n' {
            seq!['\\', 'n']
        } else {
            seq![c]
        }) + escaped(s),
        !escaped(s).contains('\n'),
{
    assert((seq![c] + s).skip(1) =~= s);
    assert((seq![c] + s)[0] == c);
    lemma_escaped_one_line(s);
}

/// A sample is written as its metric, its labels in braces where it has any,
/// a space and its numeral; a label as its key, an equals sign and its escaped
/// value in quotes, with commas between labels.
pub proof fn law_samples_are_written_in_order(
    metric: Seq<char>,
    key: Seq<char>,
    text: Seq<char>,
    more: Seq<(Seq<char>, Seq<char>)>,
    value: Seq<char>,
)
    ensures
        sample_line(metric, Seq::empty(), value) == metric + seq![' '] + value,
        sample_line(metric, seq![(key, text)], value) == metric + seq!['{'] + key + seq!['=', '"']
            + escaped(text) + seq!['"', '}', ' '] + value,
        more.len() > 0 ==> label_list(seq![(key, text)] + more) == key + seq!['=', '"'] + escaped(
            text,
        ) + seq!['"', ','] + label_list(more),
{
    let empty = Seq::<(Seq<char>, Seq<char>)>::empty();
    assert(sample_line(metric, empty, value) =~= metric + seq![' '] + value);
    assert(sample_line(metric, seq![(key, text)], value) =~= metric + seq!['{'] + key + seq![
        '=',
        '"',
    ] + escaped(text) + seq!['"', '}', ' '] + value);
    if more.len() > 0 {
        let all = seq![(key, text)] + more;
        assert(all.skip(1) =~= more);
        assert(all[0] == (key, text));
        assert(label_list(all) =~= key + seq!['=', '"'] + escaped(text) + seq!['"', ',']
            + label_list(more));
    }
}

/// A family is written as its help, its type, which is that of a gauge, and its
/// samples; without a sample nothing of it is written. Every line of a document
/// ends in a line feed.
pub proof fn law_families_are_written_whole(
    name: Seq<char>,
    help: Seq<char>,
    samples: Seq<Seq<char>>,
    line: Seq<char>,
)
    ensures
        family_lines(name, help, Seq::empty()).len() == 0,
        samples.len() > 0 ==> family_lines(name, help, samples).len() == samples.len() + 2
            && family_lines(name, help, samples)[0] == "# HELP "@ + name + " "@ + help
            && family_lines(name, help, samples)[1] == "# TYPE "@ + name + " gauge"@
            && family_lines(name, help, samples).skip(2) == samples,
        rendered(samples.push(line)) == rendered(samples) + line + seq!['\n'],
        rendered(Seq::empty()).len() == 0,
{
    assert(samples.push(line).drop_last() =~= samples);
    if samples.len() > 0 {
        assert(family_lines(name, help, samples).skip(2) =~= samples);
    }
}

} // verus!
