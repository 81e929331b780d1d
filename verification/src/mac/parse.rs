//! The power lines of `powermetrics` output.
//!
//! A power line is `<label>: <number><unit>`. The reader is a recogniser: it
//! takes the lines it knows and ignores every other byte, so a field that the
//! output does not hold is simply absent.
use crate::exposition::Figure;
use crate::history::prom::{float, is_float};
use crate::text::{
    chars_of, is_white, law_trimming_ignores_padding, lemma_run_is, pieces, run, run_end, same_chars,
    split, text_of, trim, trimmed, views, Class,
};
use vstd::prelude::*;
use vstd::slice::slice_subrange;

verus! {

// ---------------------------------------------------------------------------
// Lines

/// A recognised line, as texts.
pub struct LineView {
    pub label: Seq<char>,
    pub number: Seq<char>,
    pub milliwatts: bool,
}

/// A recognised line: its label, its numeral as it was printed, and whether
/// the unit is milliwatts rather than watts.
#[derive(Debug)]
pub struct PowerLine {
    pub label: String,
    pub number: String,
    pub milliwatts: bool,
}

impl DeepView for PowerLine {
    type V = LineView;

    open spec fn deep_view(&self) -> LineView {
        LineView { label: self.label@, number: self.number@, milliwatts: self.milliwatts }
    }
}

/// What a line says: a label, a number and one of the two units, with or
/// without spaces between them, and nothing else.
pub open spec fn power_line(line: Seq<char>) -> Option<LineView> {
    let colon = run(line, Class::Not(':')) as int;
    let label = trimmed(line.take(colon));
    let rest = trimmed(line.skip(colon + 1));
    let end = run(rest, Class::Numeral) as int;
    let number = rest.take(end);
    let unit = trimmed(rest.skip(end));
    if colon >= line.len() || label.len() == 0 || !is_float(number) {
        None
    } else if unit == seq!['m', 'W'] {
        Some(LineView { label, number, milliwatts: true })
    } else if unit == seq!['W'] {
        Some(LineView { label, number, milliwatts: false })
    } else {
        None
    }
}

/// Reads one line.
pub fn parse_power_line(line: &[char]) -> (r: Option<PowerLine>)
    ensures
        match r {
            Some(found) => power_line(line@) == Some(found.deep_view()),
            None => power_line(line@) is None,
        },
{
    let colon = run_end(line, 0, &Class::Not(':'));
    assert(line@.skip(0) =~= line@);
    if colon >= line.len() {
        return None;
    }
    let label = trim(slice_subrange(line, 0, colon));
    let rest = trim(slice_subrange(line, colon + 1, line.len()));
    proof {
        assert(line@.subrange(0, colon as int) =~= line@.take(colon as int));
        assert(line@.subrange(colon + 1, line@.len() as int) =~= line@.skip(colon + 1));
    }
    if label.len() == 0 {
        return None;
    }
    let end = run_end(rest, 0, &Class::Numeral);
    let number = slice_subrange(rest, 0, end);
    let unit = trim(slice_subrange(rest, end, rest.len()));
    let milli: [char; 2] = ['m', 'W'];
    let whole: [char; 1] = ['W'];
    proof {
        assert(rest@.skip(0) =~= rest@);
        assert(number@ =~= rest@.take(end as int));
        assert(rest@.subrange(end as int, rest@.len() as int) =~= rest@.skip(end as int));
        assert(milli@ =~= seq!['m', 'W']);
        assert(whole@ =~= seq!['W']);
    }
    if !float(number) {
        return None;
    }
    if same_chars(unit, &milli) {
        Some(PowerLine { label: text_of(label), number: text_of(number), milliwatts: true })
    } else if same_chars(unit, &whole) {
        assert(seq!['W'].len() != seq!['m', 'W'].len());
        Some(PowerLine { label: text_of(label), number: text_of(number), milliwatts: false })
    } else {
        None
    }
}

/// The recognised lines of a list of lines, in order.
pub open spec fn power_lines_in(lines: Seq<Seq<char>>) -> Seq<LineView>
    decreases lines.len(),
{
    if lines.len() == 0 {
        Seq::empty()
    } else {
        let head = power_lines_in(lines.drop_last());
        match power_line(lines.last()) {
            Some(found) => head.push(found),
            None => head,
        }
    }
}

/// The recognised lines of a sample.
pub open spec fn power_lines_of(text: Seq<char>) -> Seq<LineView> {
    power_lines_in(pieces(text, '\n'))
}

/// The recognised lines of a sample, in order. What number each numeral
/// denotes is decided where it is converted.
pub fn power_lines(text: &str) -> (r: Vec<PowerLine>)
    ensures
        r.deep_view() == power_lines_of(text@),
{
    let chars = chars_of(text);
    let lines = split(chars.as_slice(), '\n');
    let ghost all = pieces(text@, '\n');
    let mut found: Vec<PowerLine> = Vec::new();
    assert(found.deep_view() =~= Seq::<LineView>::empty());
    for i in 0..lines.len()
        invariant
            views(lines@) == all,
            found.deep_view() == power_lines_in(all.take(i as int)),
    {
        let ghost before = found.deep_view();
        proof {
            let next = all.take(i + 1);
            assert(next.drop_last() =~= all.take(i as int));
            assert(next.last() == lines@[i as int]@);
        }
        if let Some(line) = parse_power_line(lines[i].as_slice()) {
            let ghost view = line.deep_view();
            found.push(line);
            assert(found.deep_view() =~= before.push(view));
        }
    }
    assert(all.take(all.len() as int) =~= all);
    found
}

// ---------------------------------------------------------------------------
// Readings

/// One power value and the exact label of the line it was read from.
#[derive(PartialEq, Eq, Debug)]
pub struct PowerField {
    pub watts: Figure,
    pub source_label: String,
}

/// What one sample yielded. A field that the output did not hold is absent.
#[derive(Default, PartialEq, Eq, Debug)]
pub struct Reading {
    pub package: Option<PowerField>,
    pub cpu: Option<PowerField>,
    pub gpu: Option<PowerField>,
}

impl Reading {
    /// Whether the sample held none of the fields.
    pub fn is_empty(&self) -> (r: bool)
        ensures
            r == (self.package is None && self.cpu is None && self.gpu is None),
    {
        self.package.is_none() && self.cpu.is_none() && self.gpu.is_none()
    }

    /// A copy of the reading.
    pub fn copy(&self) -> (r: Reading)
        ensures
            r == *self,
    {
        Reading {
            package: copy_field(&self.package),
            cpu: copy_field(&self.cpu),
            gpu: copy_field(&self.gpu),
        }
    }
}

fn copy_field(field: &Option<PowerField>) -> (r: Option<PowerField>)
    ensures
        r == *field,
{
    match field {
        Some(field) => Some(
            PowerField { watts: field.watts.copy(), source_label: field.source_label.clone() },
        ),
        None => None,
    }
}

/// Whether the line at `i` carries this label and a finite value.
pub open spec fn carries(
    lines: Seq<LineView>,
    watts: Seq<Figure>,
    label: Seq<char>,
    i: int,
) -> bool {
    lines[i].label == label && watts[i].measures()
}

/// The first line with this label and a finite value.
pub open spec fn first_line_of(
    lines: Seq<LineView>,
    watts: Seq<Figure>,
    label: Seq<char>,
    from: int,
) -> Option<int>
    decreases lines.len() - from,
{
    if from >= lines.len() {
        None
    } else if carries(lines, watts, label, from) {
        Some(from)
    } else {
        first_line_of(lines, watts, label, from + 1)
    }
}

/// The labels of the package's power, the preferred one first.
pub open spec fn package_labels() -> Seq<Seq<char>> {
    seq![
        "Package Power"@,
        "Combined Power (CPU + GPU + ANE)"@,
        "Intel energy model derived package power (CPUs+GT+SA)"@,
    ]
}

/// The field of the first of these labels that the sample has: of a label
/// that occurs more than once, the first occurrence.
pub open spec fn chosen(
    lines: Seq<LineView>,
    watts: Seq<Figure>,
    labels: Seq<Seq<char>>,
) -> Option<(Figure, Seq<char>)>
    decreases labels.len(),
{
    if labels.len() == 0 {
        None
    } else {
        match first_line_of(lines, watts, labels[0], 0) {
            Some(i) => Some((watts[i], labels[0])),
            None => chosen(lines, watts, labels.skip(1)),
        }
    }
}

pub open spec fn field_view(field: Option<PowerField>) -> Option<(Figure, Seq<char>)> {
    match field {
        Some(field) => Some((field.watts, field.source_label@)),
        None => None,
    }
}

fn choose_field(lines: &Vec<PowerLine>, watts: &Vec<Figure>, labels: &[&str]) -> (r: Option<
    PowerField,
>)
    requires
        watts@.len() == lines@.len(),
    ensures
        field_view(r) == chosen(
            lines.deep_view(),
            watts@,
            Seq::new(labels@.len(), |i: int| labels@[i]@),
        ),
{
    let ghost all = Seq::new(labels@.len(), |i: int| labels@[i]@);
    let ghost views = lines.deep_view();
    let mut k: usize = 0;
    assert(all.skip(0) =~= all);
    while k < labels.len()
        invariant
            k <= labels@.len(),
            watts@.len() == lines@.len(),
            views == lines.deep_view(),
            all == Seq::new(labels@.len(), |i: int| labels@[i]@),
            chosen(views, watts@, all) == chosen(views, watts@, all.skip(k as int)),
        decreases labels@.len() - k,
    {
        let ghost rest = all.skip(k as int);
        assert(rest[0] == labels@[k as int]@);
        assert(rest.skip(1) =~= all.skip(k + 1));
        let mut i: usize = 0;
        while i < lines.len()
            invariant
                i <= lines@.len(),
                k < labels@.len(),
                watts@.len() == lines@.len(),
                views == lines.deep_view(),
                all == Seq::new(labels@.len(), |i: int| labels@[i]@),
                rest == all.skip(k as int),
                rest[0] == labels@[k as int]@,
                chosen(views, watts@, all) == chosen(views, watts@, rest),
                first_line_of(views, watts@, rest[0], 0) == first_line_of(
                    views,
                    watts@,
                    rest[0],
                    i as int,
                ),
            decreases lines@.len() - i,
        {
            assert(views[i as int] == lines@[i as int].deep_view());
            if crate::text::same(lines[i].label.as_str(), labels[k]) && measures(&watts[i]) {
                assert(carries(views, watts@, rest[0], i as int));
                return Some(
                    PowerField { watts: watts[i].copy(), source_label: labels[k].to_owned() },
                );
            }
            i += 1;
        }
        assert(views.len() == lines@.len());
        k += 1;
    }
    assert(all.skip(all.len() as int) =~= Seq::<Seq<char>>::empty());
    None
}

/// Whether a figure is finite.
pub fn measures(figure: &Figure) -> (r: bool)
    ensures
        r == figure.measures(),
{
    match figure {
        Figure::Double { bits, .. } => crate::number::finite(*bits),
        Figure::Exact { .. } => true,
    }
}

/// Reads the power fields of a sample, given the watts that each of its
/// recognised lines denotes. Lines whose value is not finite count for
/// nothing, and two numbers that were printed separately are never averaged.
pub fn parse_powermetrics(text: &str, watts: &Vec<Figure>) -> (r: Reading)
    requires
        watts@.len() == power_lines_of(text@).len(),
    ensures
        field_view(r.package) == chosen(power_lines_of(text@), watts@, package_labels()),
        field_view(r.cpu) == chosen(power_lines_of(text@), watts@, seq!["CPU Power"@]),
        field_view(r.gpu) == chosen(power_lines_of(text@), watts@, seq!["GPU Power"@]),
{
    let lines = power_lines(text);
    assert(lines@.len() == lines.deep_view().len());
    let package: [&str; 3] = [
        "Package Power",
        "Combined Power (CPU + GPU + ANE)",
        "Intel energy model derived package power (CPUs+GT+SA)",
    ];
    let cpu: [&str; 1] = ["CPU Power"];
    let gpu: [&str; 1] = ["GPU Power"];
    proof {
        assert(Seq::new(package@.len(), |i: int| package@[i]@) =~= package_labels());
        assert(Seq::new(cpu@.len(), |i: int| cpu@[i]@) =~= seq!["CPU Power"@]);
        assert(Seq::new(gpu@.len(), |i: int| gpu@[i]@) =~= seq!["GPU Power"@]);
    }
    Reading {
        package: choose_field(&lines, watts, &package),
        cpu: choose_field(&lines, watts, &cpu),
        gpu: choose_field(&lines, watts, &gpu),
    }
}

// ---------------------------------------------------------------------------
// Laws

proof fn lemma_first_line_of(lines: Seq<LineView>, watts: Seq<Figure>, label: Seq<char>, from: int)
    requires
        0 <= from,
    ensures
        match first_line_of(lines, watts, label, from) {
            Some(i) => from <= i < lines.len() && carries(lines, watts, label, i) && forall|j: int|
                from <= j < i ==> !#[trigger] carries(lines, watts, label, j),
            None => forall|j: int|
                from <= j < lines.len() ==> !#[trigger] carries(lines, watts, label, j),
        },
    decreases lines.len() - from,
{
    if from < lines.len() && !carries(lines, watts, label, from) {
        lemma_first_line_of(lines, watts, label, from + 1);
    }
}

/// Every field is one that the sample printed: its value is that of a line
/// with exactly the label it names, and it is finite.
pub proof fn law_fields_were_printed(
    lines: Seq<LineView>,
    watts: Seq<Figure>,
    labels: Seq<Seq<char>>,
)
    ensures
        chosen(lines, watts, labels) matches Some((value, label)) ==> value.measures()
            && labels.contains(label) && exists|i: int|
            0 <= i < lines.len() && #[trigger] lines[i].label == label && watts[i] == value,
    decreases labels.len(),
{
    if labels.len() > 0 {
        lemma_first_line_of(lines, watts, labels[0], 0);
        match first_line_of(lines, watts, labels[0], 0) {
            Some(i) => {
                assert(lines[i].label == labels[0]);
                assert(labels.contains(labels[0]));
            },
            None => {
                law_fields_were_printed(lines, watts, labels.skip(1));
                if let Some((value, label)) = chosen(lines, watts, labels.skip(1)) {
                    let k = choose|k: int|
                        0 <= k < labels.skip(1).len() && labels.skip(1)[k] == label;
                    assert(labels[k + 1] == label);
                }
            },
        }
    }
}

/// A sample without any of the labels yields no field: never a zero.
pub proof fn law_absent_fields_stay_absent(
    lines: Seq<LineView>,
    watts: Seq<Figure>,
    labels: Seq<Seq<char>>,
)
    requires
        forall|i: int| 0 <= i < lines.len() ==> !labels.contains((#[trigger] lines[i]).label),
    ensures
        chosen(lines, watts, labels) is None,
{
    law_fields_were_printed(lines, watts, labels);
}

/// Whether every character of a text can stand in a numeral.
pub open spec fn is_numeral_text(text: Seq<char>) -> bool {
    forall|i: int|
        0 <= i < text.len() ==> '0' <= #[trigger] text[i] <= '9' || text[i] == '.' || text[i] == '-'
            || text[i] == '+'
}

/// A power line is a label, a colon, a number and a unit: `mW` tells
/// milliwatts, `W` watts, with or without a space in front of it, and any other
/// unit makes it no power line.
pub proof fn law_power_lines_are_read(label: Seq<char>, number: Seq<char>, unit: Seq<char>)
    requires
        label.len() > 0,
        !label.contains(':'),
        !is_white(label[0]),
        !is_white(label.last()),
        is_numeral_text(number),
        is_float(number),
        number.len() > 0,
        unit.len() > 0,
        !is_white(unit[0]),
        !is_white(unit.last()),
        !('0' <= unit[0] <= '9' || unit[0] == '.' || unit[0] == '-' || unit[0] == '+'),
    ensures
        ({
            let told = if unit == seq!['m', 'W'] {
                Some(LineView { label, number, milliwatts: true })
            } else if unit == seq!['W'] {
                Some(LineView { label, number, milliwatts: false })
            } else {
                None
            };
            &&& power_line(label + seq![':', ' '] + number + seq![' '] + unit) == told
            &&& power_line(label + seq![':', ' '] + number + unit) == told
        }),
        power_line(label) is None,
{
    lemma_power_line(label, number, seq![' '], unit);
    lemma_power_line(label, number, Seq::empty(), unit);
    assert(label + seq![':', ' '] + number + Seq::<char>::empty() + unit =~= label + seq![':', ' ']
        + number + unit);
    lemma_run_is(label, Class::Not(':'), label.len());
}

proof fn lemma_power_line(label: Seq<char>, number: Seq<char>, gap: Seq<char>, unit: Seq<char>)
    requires
        label.len() > 0,
        !label.contains(':'),
        !is_white(label[0]),
        !is_white(label.last()),
        is_numeral_text(number),
        is_float(number),
        number.len() > 0,
        forall|i: int| 0 <= i < gap.len() ==> gap[i] == ' ',
        unit.len() > 0,
        !is_white(unit[0]),
        !is_white(unit.last()),
        !('0' <= unit[0] <= '9' || unit[0] == '.' || unit[0] == '-' || unit[0] == '+'),
    ensures
        power_line(label + seq![':', ' '] + number + gap + unit) == if unit == seq!['m', 'W'] {
            Some(LineView { label, number, milliwatts: true })
        } else if unit == seq!['W'] {
            Some(LineView { label, number, milliwatts: false })
        } else {
            None
        },
{
    let line = label + seq![':', ' '] + number + gap + unit;
    let n = label.len() as int;
    let none = Seq::<char>::empty();
    assert forall|i: int| 0 <= i < n implies Class::Not(':').has(#[trigger] line[i]) by {
        assert(line[i] == label[i]);
    }
    assert(line[n] == ':');
    lemma_run_is(line, Class::Not(':'), label.len());
    assert(line.take(n) =~= none + label + none);
    law_trimming_ignores_padding(none, label, none);
    let body = number + gap + unit;
    assert(line.skip(n + 1) =~= seq![' '] + body + none);
    assert(body.last() == unit.last());
    assert(body[0] == number[0]);
    assert(!is_white(body[0])) by {
        let c = number[0];
        assert('0' <= c <= '9' || c == '.' || c == '-' || c == '+');
    }
    law_trimming_ignores_padding(seq![' '], body, none);
    let m = number.len() as int;
    assert forall|i: int| 0 <= i < m implies Class::Numeral.has(#[trigger] body[i]) by {
        assert(body[i] == number[i]);
    }
    assert(body[m] == if gap.len() > 0 {
        gap[0]
    } else {
        unit[0]
    });
    lemma_run_is(body, Class::Numeral, number.len());
    assert(body.take(m) =~= number);
    assert(body.skip(m) =~= gap + unit + none);
    law_trimming_ignores_padding(gap, unit, none);
    assert(seq!['m', 'W'].len() != seq!['W'].len());
}

/// The package's power is read from the first finite `Package Power` line;
/// where there is none, from the first finite combined line; and only where
/// there is neither, from the first of the energy model.
pub proof fn law_the_package_line_is_preferred(lines: Seq<LineView>, watts: Seq<Figure>, p: int)
    requires
        0 <= p < lines.len(),
        watts[p].measures(),
    ensures
        ({
            let taken = chosen(lines, watts, package_labels());
            let absent = |label: Seq<char>, upto: int|
                forall|j: int|
                    0 <= j < upto ==> !((#[trigger] lines[j]).label == label && watts[j].measures());
            let all = lines.len() as int;
            &&& lines[p].label == "Package Power"@ && absent("Package Power"@, p) ==> taken == Some(
                (watts[p], "Package Power"@),
            )
            &&& lines[p].label == "Combined Power (CPU + GPU + ANE)"@ && absent(
                "Combined Power (CPU + GPU + ANE)"@,
                p,
            ) && absent("Package Power"@, all) ==> taken == Some(
                (watts[p], "Combined Power (CPU + GPU + ANE)"@),
            )
            &&& lines[p].label == "Intel energy model derived package power (CPUs+GT+SA)"@ && absent(
                "Intel energy model derived package power (CPUs+GT+SA)"@,
                p,
            ) && absent("Package Power"@, all) && absent("Combined Power (CPU + GPU + ANE)"@, all)
                ==> taken == Some(
                (watts[p], "Intel energy model derived package power (CPUs+GT+SA)"@),
            )
        }),
{
    let labels = package_labels();
    let (a, b, c) = (labels[0], labels[1], labels[2]);
    lemma_first_line_of(lines, watts, a, 0);
    lemma_first_line_of(lines, watts, b, 0);
    lemma_first_line_of(lines, watts, c, 0);
    assert(labels.skip(1)[0] == b);
    assert(labels.skip(1).skip(1)[0] == c);
    assert forall|label: Seq<char>, j: int| #[trigger]
        carries(lines, watts, label, j) == (lines[j].label == label && watts[j].measures()) by {}
    reveal_with_fuel(chosen, 4);
    assert(carries(lines, watts, lines[p].label, p));
}

/// A single label is read from the first finite line that bears it.
pub proof fn law_the_first_finite_line_is_read(
    lines: Seq<LineView>,
    watts: Seq<Figure>,
    label: Seq<char>,
    p: int,
)
    requires
        0 <= p < lines.len(),
        lines[p].label == label,
        watts[p].measures(),
        forall|j: int| 0 <= j < p ==> !((#[trigger] lines[j]).label == label && watts[j].measures()),
    ensures
        chosen(lines, watts, seq![label]) == Some((watts[p], label)),
{
    lemma_first_line_of(lines, watts, label, 0);
    assert(carries(lines, watts, label, p));
    if let Some(i) = first_line_of(lines, watts, label, 0) {
        if i < p {
            assert(lines[i].label == label);
        }
    }
}

/// A sample's power lines are those among its lines, in their order.
pub proof fn law_power_lines_keep_their_order(lines: Seq<Seq<char>>, line: Seq<char>)
    ensures
        power_lines_in(lines.push(line)) == match power_line(line) {
            Some(found) => power_lines_in(lines).push(found),
            None => power_lines_in(lines),
        },
        power_lines_in(Seq::empty()).len() == 0,
        power_lines_in(lines).len() <= lines.len(),
    decreases lines.len(),
{
    assert(lines.push(line).drop_last() =~= lines);
    if lines.len() > 0 {
        law_power_lines_keep_their_order(lines.drop_last(), lines.last());
        assert(lines.drop_last().push(lines.last()) =~= lines);
    }
}

/// The models of lines and fields show what these hold.
pub proof fn law_models_show_what_is_held(line: PowerLine, field: PowerField)
    ensures
        line.deep_view().label == line.label@,
        line.deep_view().number == line.number@,
        line.deep_view().milliwatts == line.milliwatts,
        field_view(Some(field)) == Some((field.watts, field.source_label@)),
        field_view(None) is None,
{
}

} // verus!
