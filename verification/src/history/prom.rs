//! A parser for the Prometheus text exposition that engines and exporters
//! serve.
//!
//! Lines are `name value` or `name{label="v"} value`, with the standard
//! comment lines and an optional trailing timestamp. A line that cannot be
//! read contributes no sample. A sample keeps the numeral of its value as
//! text: what number it denotes is decided where it is stored.
use crate::text::{
    after, all_digits, ascii_digit, ascii_letter, chars_of, is_ascii_digit, is_ascii_letter, is_white,
    law_trimming_ignores_padding, lemma_run, lemma_run_is, lower, lowered, pieces, run, run_end, same, split, text_of, trim, trim_start,
    trimmed, views, Class,
};
use vstd::prelude::*;
use vstd::slice::slice_subrange;

verus! {

// ---------------------------------------------------------------------------
// Numerals

/// Length of the sign that `s` starts with.
pub open spec fn sign_len(s: Seq<char>) -> nat {
    if s.len() > 0 && (s[0] == '+' || s[0] == '-') {
        1
    } else {
        0
    }
}

/// Nothing, or `e`, an optional sign and at least one digit.
pub open spec fn is_exponent(s: Seq<char>) -> bool {
    s.len() == 0 || {
        let digits = s.skip(1).skip(sign_len(s.skip(1)) as int);
        (s[0] == 'e' || s[0] == 'E') && digits.len() > 0 && all_digits(digits)
    }
}

/// Digits with an optional point, at least one digit on one side of it, and
/// an optional exponent.
pub open spec fn is_number(s: Seq<char>) -> bool {
    let whole = run(s, Class::Digit);
    let rest = after(s, Class::Digit);
    if rest.len() > 0 && rest[0] == '.' {
        let fraction = rest.skip(1);
        whole + run(fraction, Class::Digit) > 0 && is_exponent(after(fraction, Class::Digit))
    } else {
        whole > 0 && is_exponent(rest)
    }
}

/// Whether `s` spells `word` in any case.
pub open spec fn spells(s: Seq<char>, word: Seq<char>) -> bool {
    s.map_values(|c: char| lower(c)) == word
}

/// Whether `s` denotes a floating-point number: an optional sign, then a
/// number or one of the words for infinity and not-a-number in any case.
pub open spec fn is_float(s: Seq<char>) -> bool {
    let t = s.skip(sign_len(s) as int);
    is_number(t) || spells(t, seq!['i', 'n', 'f']) || spells(
        t,
        seq!['i', 'n', 'f', 'i', 'n', 'i', 't', 'y'],
    ) || spells(t, seq!['n', 'a', 'n'])
}

fn sign_end(v: &[char], from: usize) -> (r: usize)
    requires
        from <= v@.len(),
    ensures
        r == from + sign_len(v@.skip(from as int)),
        r <= v@.len(),
        v@.skip(r as int) == v@.skip(from as int).skip(sign_len(v@.skip(from as int)) as int),
{
    proof {
        if from < v@.len() {
            assert(v@.skip(from as int)[0] == v@[from as int]);
            assert(v@.skip(from as int).skip(1) =~= v@.skip(from + 1));
        }
        assert(v@.skip(from as int).skip(0) =~= v@.skip(from as int));
    }
    if from < v.len() && (v[from] == '+' || v[from] == '-') {
        from + 1
    } else {
        from
    }
}

fn exponent(v: &[char], from: usize) -> (r: bool)
    requires
        from <= v@.len(),
    ensures
        r == is_exponent(v@.skip(from as int)),
{
    if from == v.len() {
        return true;
    }
    let ghost s = v@.skip(from as int);
    assert(s[0] == v@[from as int]);
    if v[from] != 'e' && v[from] != 'E' {
        return false;
    }
    let start = sign_end(v, from + 1);
    let end = run_end(v, start, &Class::Digit);
    proof {
        assert(s.skip(1) =~= v@.skip(from + 1));
        let digits = v@.skip(start as int);
        assert(digits == s.skip(1).skip(sign_len(s.skip(1)) as int));
        lemma_run(digits, Class::Digit);
        if end == v@.len() {
            assert(all_digits(digits));
        } else if all_digits(digits) {
            assert(is_ascii_digit(digits[run(digits, Class::Digit) as int]));
        }
    }
    start < v.len() && end == v.len()
}

fn number(v: &[char], from: usize) -> (r: bool)
    requires
        from <= v@.len(),
    ensures
        r == is_number(v@.skip(from as int)),
{
    let whole = run_end(v, from, &Class::Digit);
    proof {
        if whole < v@.len() {
            assert(v@.skip(whole as int)[0] == v@[whole as int]);
            assert(v@.skip(whole as int).skip(1) =~= v@.skip(whole + 1));
        }
    }
    if whole < v.len() && v[whole] == '.' {
        let end = run_end(v, whole + 1, &Class::Digit);
        let tail = exponent(v, end);
        (whole > from || end > whole + 1) && tail
    } else {
        let tail = exponent(v, whole);
        whole > from && tail
    }
}

fn spelled(v: &[char], from: usize, word: &[char]) -> (r: bool)
    requires
        from <= v@.len(),
    ensures
        r == spells(v@.skip(from as int), word@),
{
    let ghost s = v@.skip(from as int);
    let ghost low = s.map_values(|c: char| lower(c));
    let len = v.len();
    if len - from != word.len() {
        assert(low.len() != word@.len());
        return false;
    }
    let mut i: usize = 0;
    while i < word.len()
        invariant
            from <= v@.len(),
            len == v@.len(),
            v@.len() - from == word@.len(),
            s == v@.skip(from as int),
            low == s.map_values(|c: char| lower(c)),
            i <= word@.len(),
            forall|j: int| 0 <= j < i ==> low[j] == word@[j],
        decreases word@.len() - i,
    {
        assert(low[i as int] == lower(v@[from + i]));
        if lowered(v[from + i]) != word[i] {
            return false;
        }
        i += 1;
    }
    assert(low =~= word@);
    true
}

/// Whether `v` denotes a floating-point number.
pub fn float(v: &[char]) -> (r: bool)
    ensures
        r == is_float(v@),
{
    proof {
        assert(v@.skip(0) =~= v@);
    }
    let from = sign_end(v, 0);
    let inf: [char; 3] = ['i', 'n', 'f'];
    let infinity: [char; 8] = ['i', 'n', 'f', 'i', 'n', 'i', 't', 'y'];
    let nan: [char; 3] = ['n', 'a', 'n'];
    proof {
        assert(inf@ =~= seq!['i', 'n', 'f']);
        assert(infinity@ =~= seq!['i', 'n', 'f', 'i', 'n', 'i', 't', 'y']);
        assert(nan@ =~= seq!['n', 'a', 'n']);
    }
    number(v, from) || spelled(v, from, &inf) || spelled(v, from, &infinity) || spelled(
        v,
        from,
        &nan,
    )
}

// ---------------------------------------------------------------------------
// Labels

/// The character that an escape stands for: the escapes are exactly `\\`,
/// `\"` and `\n`.
pub open spec fn unescaped(c: char) -> Option<char> {
    if c == 'n' {
        Some('\n')
    } else if c == '\\' || c == '"' {
        Some(c)
    } else {
        None
    }
}

/// What a quoted label value holds, read from behind its opening quote, and
/// what follows its closing quote.
pub open spec fn quoted(s: Seq<char>) -> Option<(Seq<char>, Seq<char>)>
    decreases s.len(),
{
    if s.len() == 0 {
        None
    } else if s[0] == '"' {
        Some((Seq::empty(), s.skip(1)))
    } else if s[0] == '\\' {
        if s.len() < 2 {
            None
        } else {
            match unescaped(s[1]) {
                Some(c) => prepend(seq![c], quoted(s.skip(2))),
                None => None,
            }
        }
    } else {
        prepend(seq![s[0]], quoted(s.skip(1)))
    }
}

pub open spec fn prepend(head: Seq<char>, tail: Option<(Seq<char>, Seq<char>)>) -> Option<
    (Seq<char>, Seq<char>),
> {
    match tail {
        Some((value, rest)) => Some((head + value, rest)),
        None => None,
    }
}

/// One `key="value"` and what follows it.
pub open spec fn label(s: Seq<char>) -> Option<((Seq<char>, Seq<char>), Seq<char>)> {
    let key = s.take(run(s, Class::Word) as int);
    let eq = after(after(s, Class::Word), Class::AsciiWhite);
    if key.len() == 0 || eq.len() == 0 || eq[0] != '=' {
        None
    } else {
        let quote = after(eq.skip(1), Class::AsciiWhite);
        if quote.len() == 0 || quote[0] != '"' {
            None
        } else {
            match quoted(quote.skip(1)) {
                Some((value, rest)) => Some(((key, value), rest)),
                None => None,
            }
        }
    }
}

/// A comma-separated label set; whitespace around its parts and a trailing
/// comma are permitted.
pub open spec fn label_set(s: Seq<char>) -> Option<Seq<(Seq<char>, Seq<char>)>>
    decreases s.len(),
{
    let t = after(s, Class::AsciiWhite);
    if t.len() == 0 {
        Some(Seq::empty())
    } else {
        match label(t) {
            None => None,
            Some((pair, rest)) => {
                let tail = after(rest, Class::AsciiWhite);
                if tail.len() == 0 {
                    Some(seq![pair])
                } else if tail[0] != ',' || tail.len() > s.len() {
                    None
                } else {
                    extend(seq![pair], label_set(tail.skip(1)))
                }
            },
        }
    }
}

pub open spec fn extend(
    head: Seq<(Seq<char>, Seq<char>)>,
    tail: Option<Seq<(Seq<char>, Seq<char>)>>,
) -> Option<Seq<(Seq<char>, Seq<char>)>> {
    match tail {
        Some(rest) => Some(head + rest),
        None => None,
    }
}

proof fn lemma_quoted_shorter(s: Seq<char>)
    ensures
        quoted(s) matches Some((value, rest)) ==> rest.len() < s.len(),
    decreases s.len(),
{
    if s.len() > 0 && s[0] != '"' {
        if s[0] == '\\' {
            if s.len() >= 2 {
                lemma_quoted_shorter(s.skip(2));
            }
        } else {
            lemma_quoted_shorter(s.skip(1));
        }
    }
}

/// A label set never has more behind a label than in front of it, so the
/// length bound in `label_set` only serves its termination.
pub proof fn lemma_label_shorter(s: Seq<char>)
    ensures
        label(s) matches Some((pair, rest)) ==> rest.len() < s.len(),
{
    lemma_run(s, Class::Word);
    lemma_run(after(s, Class::Word), Class::AsciiWhite);
    let eq = after(after(s, Class::Word), Class::AsciiWhite);
    if eq.len() > 0 {
        lemma_run(eq.skip(1), Class::AsciiWhite);
        let quote = after(eq.skip(1), Class::AsciiWhite);
        if quote.len() > 0 {
            lemma_quoted_shorter(quote.skip(1));
        }
    }
}

/// Reads a quoted value from behind its opening quote.
fn read_quoted(v: &[char], from: usize) -> (r: Option<(String, usize)>)
    requires
        from <= v@.len(),
    ensures
        match r {
            Some((value, end)) => end <= v@.len() && quoted(v@.skip(from as int)) == Some(
                (value@, v@.skip(end as int)),
            ),
            None => quoted(v@.skip(from as int)) is None,
        },
{
    let mut value = String::new();
    let mut i: usize = from;
    let ghost whole = quoted(v@.skip(from as int));
    proof {
        if let Some((w, rest)) = whole {
            assert(value@ + w =~= w);
        }
    }
    loop
        invariant
            from <= i <= v@.len(),
            whole == quoted(v@.skip(from as int)),
            whole == prepend(value@, quoted(v@.skip(i as int))),
        decreases v@.len() - i,
    {
        let ghost s = v@.skip(i as int);
        if i >= v.len() {
            return None;
        }
        assert(s[0] == v@[i as int]);
        let c = v[i];
        if c == '"' {
            proof {
                assert(s.skip(1) =~= v@.skip(i + 1));
                assert(value@ + Seq::<char>::empty() =~= value@);
            }
            return Some((value, i + 1));
        }
        let ghost before = value@;
        if c == '\\' {
            if v.len() - i < 2 {
                return None;
            }
            assert(s[1] == v@[i + 1]);
            let escaped = v[i + 1];
            let plain = if escaped == 'n' {
                '\n'
            } else if escaped == '\\' || escaped == '"' {
                escaped
            } else {
                return None;
            };
            value.push(plain);
            proof {
                assert(s.skip(2) =~= v@.skip(i + 2));
                if let Some((w, rest)) = quoted(s.skip(2)) {
                    assert(before + (seq![plain] + w) =~= value@ + w);
                }
            }
            i += 2;
        } else {
            value.push(c);
            proof {
                assert(s.skip(1) =~= v@.skip(i + 1));
                if let Some((w, rest)) = quoted(s.skip(1)) {
                    assert(before + (seq![c] + w) =~= value@ + w);
                }
            }
            i += 1;
        }
    }
}

/// Reads one `key="value"`.
fn read_label(v: &[char], from: usize) -> (r: Option<((String, String), usize)>)
    requires
        from <= v@.len(),
    ensures
        match r {
            Some((pair, end)) => from < end <= v@.len() && label(v@.skip(from as int)) == Some(
                ((pair.0@, pair.1@), v@.skip(end as int)),
            ),
            None => label(v@.skip(from as int)) is None,
        },
{
    let key_end = run_end(v, from, &Class::Word);
    let ghost s = v@.skip(from as int);
    proof {
        lemma_label_shorter(s);
        assert(v@.subrange(from as int, key_end as int) =~= s.take(run(s, Class::Word) as int));
    }
    if key_end == from {
        return None;
    }
    let key = text_of(slice_subrange(v, from, key_end));
    let eq = run_end(v, key_end, &Class::AsciiWhite);
    if eq >= v.len() {
        return None;
    }
    assert(v@.skip(eq as int)[0] == v@[eq as int]);
    if v[eq] != '=' {
        return None;
    }
    assert(v@.skip(eq as int).skip(1) =~= v@.skip(eq + 1));
    let quote = run_end(v, eq + 1, &Class::AsciiWhite);
    if quote >= v.len() {
        return None;
    }
    assert(v@.skip(quote as int)[0] == v@[quote as int]);
    if v[quote] != '"' {
        return None;
    }
    assert(v@.skip(quote as int).skip(1) =~= v@.skip(quote + 1));
    match read_quoted(v, quote + 1) {
        Some((value, end)) => Some(((key, value), end)),
        None => None,
    }
}

/// Reads a label set: the inside of a pair of braces.
pub fn parse_labels(v: &[char]) -> (r: Option<Vec<(String, String)>>)
    ensures
        match r {
            Some(labels) => label_set(v@) == Some(labels.deep_view()),
            None => label_set(v@) is None,
        },
{
    let mut labels: Vec<(String, String)> = Vec::new();
    let mut i: usize = 0;
    let ghost whole = label_set(v@);
    proof {
        assert(v@.skip(0) =~= v@);
        if let Some(l) = whole {
            assert(labels.deep_view() + l =~= l);
        }
    }
    loop
        invariant
            i <= v@.len(),
            whole == label_set(v@),
            whole == extend(labels.deep_view(), label_set(v@.skip(i as int))),
        decreases v@.len() - i,
    {
        let ghost before = labels.deep_view();
        let start = run_end(v, i, &Class::AsciiWhite);
        if start >= v.len() {
            proof {
                assert(before + Seq::<(Seq<char>, Seq<char>)>::empty() =~= before);
            }
            return Some(labels);
        }
        match read_label(v, start) {
            None => {
                return None;
            },
            Some((pair, end)) => {
                let ghost p = (pair.0@, pair.1@);
                let next = run_end(v, end, &Class::AsciiWhite);
                labels.push(pair);
                assert(labels.deep_view() =~= before.push(p));
                if next >= v.len() {
                    assert(before + seq![p] =~= labels.deep_view());
                    return Some(labels);
                }
                assert(v@.skip(next as int)[0] == v@[next as int]);
                if v[next] != ',' {
                    return None;
                }
                proof {
                    assert(v@.skip(next as int).skip(1) =~= v@.skip(next + 1));
                    if let Some(l) = label_set(v@.skip(next + 1)) {
                        assert(before + (seq![p] + l) =~= labels.deep_view() + l);
                    }
                }
                i = next + 1;
            },
        }
    }
}

// ---------------------------------------------------------------------------
// Lines

/// Offset of the brace that closes a label set, skipping any brace that sits
/// inside a quoted label value.
pub open spec fn closing(s: Seq<char>, in_quotes: bool) -> Option<int>
    decreases s.len(),
{
    if s.len() == 0 {
        None
    } else if s[0] == '\\' && in_quotes {
        if s.len() < 2 {
            None
        } else {
            shifted(2, closing(s.skip(2), in_quotes))
        }
    } else if s[0] == '"' {
        shifted(1, closing(s.skip(1), !in_quotes))
    } else if s[0] == '}' && !in_quotes {
        Some(0)
    } else {
        shifted(1, closing(s.skip(1), in_quotes))
    }
}

pub open spec fn shifted(by: int, offset: Option<int>) -> Option<int> {
    match offset {
        Some(n) => Some(n + by),
        None => None,
    }
}

/// Index of the `}` that closes the label set opened at `open`; nothing closes
/// what is opened past the end.
pub fn close_brace(v: &[char], open: usize) -> (r: Option<usize>)
    ensures
        match r {
            Some(index) => open < index < v@.len() && closing(v@.skip(open + 1), false) == Some(
                index - (open + 1),
            ),
            None => open >= v@.len() || closing(v@.skip(open + 1), false) is None,
        },
{
    let len = v.len();
    if open >= len {
        return None;
    }
    let mut i: usize = open + 1;
    let mut in_quotes = false;
    let ghost whole = closing(v@.skip(open + 1), false);
    while i < len
        invariant
            len == v@.len(),
            open < i <= v@.len(),
            whole == closing(v@.skip(open + 1), false),
            whole == shifted(i - (open + 1), closing(v@.skip(i as int), in_quotes)),
        decreases v@.len() - i,
    {
        let ghost s = v@.skip(i as int);
        assert(s[0] == v@[i as int]);
        let c = v[i];
        if c == '\\' && in_quotes {
            if len - i < 2 {
                return None;
            }
            assert(s.skip(2) =~= v@.skip(i + 2));
            i += 2;
        } else {
            assert(s.skip(1) =~= v@.skip(i + 1));
            if c == '"' {
                in_quotes = !in_quotes;
            } else if c == '}' && !in_quotes {
                return Some(i);
            }
            i += 1;
        }
    }
    None
}

/// Whether `s` is a metric name.
pub open spec fn is_metric_name(s: Seq<char>) -> bool {
    &&& s.len() > 0
    &&& !is_ascii_digit(s[0])
    &&& forall|i: int|
        0 <= i < s.len() ==> is_ascii_letter(#[trigger] s[i]) || is_ascii_digit(s[i]) || s[i] == '_'
            || s[i] == ':'
}

/// Whether `v` is a metric name.
pub fn valid_metric_name(v: &[char]) -> (r: bool)
    ensures
        r == is_metric_name(v@),
{
    if v.len() == 0 || ascii_digit(v[0]) {
        return false;
    }
    let mut i: usize = 0;
    while i < v.len()
        invariant
            i <= v@.len(),
            forall|j: int|
                0 <= j < i ==> is_ascii_letter(#[trigger] v@[j]) || is_ascii_digit(v@[j]) || v@[j]
                    == '_' || v@[j] == ':',
        decreases v@.len() - i,
    {
        let c = v[i];
        if !(ascii_letter(c) || ascii_digit(c) || c == '_' || c == ':') {
            return false;
        }
        i += 1;
    }
    true
}

/// One parsed exposition line, as texts.
pub struct SampleView {
    pub metric: Seq<char>,
    pub labels: Seq<(Seq<char>, Seq<char>)>,
    pub value: Seq<char>,
}

/// One parsed exposition line. `value` is the numeral as it was written.
#[derive(Debug)]
pub struct Sample {
    pub metric: String,
    pub labels: Vec<(String, String)>,
    pub value: String,
}

impl DeepView for Sample {
    type V = SampleView;

    open spec fn deep_view(&self) -> SampleView {
        SampleView {
            metric: self.metric@,
            labels: self.labels.deep_view(),
            value: self.value@,
        }
    }
}

/// The sample of a line that was cut into its metric, its labels and the rest:
/// the value is the first word of the rest.
pub open spec fn assembled(
    metric: Seq<char>,
    labels: Seq<(Seq<char>, Seq<char>)>,
    rest: Seq<char>,
) -> Option<SampleView> {
    let name = trimmed(metric);
    let words = trim_start(rest);
    let value = words.take(run(words, Class::Black) as int);
    if is_metric_name(name) && is_float(value) {
        Some(SampleView { metric: name, labels, value })
    } else {
        None
    }
}

/// What a line says.
pub open spec fn line_sample(line: Seq<char>) -> Option<SampleView> {
    let t = trimmed(line);
    let open = run(t, Class::Not('{')) as int;
    if t.len() == 0 || t[0] == '#' {
        None
    } else if open < t.len() {
        match closing(t.skip(open + 1), false) {
            Some(n) => match label_set(t.skip(open + 1).take(n)) {
                Some(labels) => assembled(t.take(open), labels, t.skip(open + 1).skip(n + 1)),
                None => None,
            },
            None => None,
        }
    } else {
        let end = run(t, Class::Black) as int;
        if end < t.len() {
            assembled(t.take(end), Seq::empty(), t.skip(end))
        } else {
            None
        }
    }
}

fn assemble(metric: &[char], labels: Vec<(String, String)>, rest: &[char]) -> (r: Option<Sample>)
    ensures
        match r {
            Some(sample) => assembled(metric@, labels.deep_view(), rest@) == Some(
                sample.deep_view(),
            ),
            None => assembled(metric@, labels.deep_view(), rest@) is None,
        },
{
    let name = trim(metric);
    let from = run_end(rest, 0, &Class::White);
    let to = run_end(rest, from, &Class::Black);
    let numeral = slice_subrange(rest, from, to);
    proof {
        assert(rest@.skip(0) =~= rest@);
        let words = trim_start(rest@);
        assert(numeral@ =~= words.take(run(words, Class::Black) as int));
    }
    if valid_metric_name(name) && float(numeral) {
        Some(Sample { metric: text_of(name), labels, value: text_of(numeral) })
    } else {
        None
    }
}

/// Parses one line; comments, blank lines and lines that cannot be read give
/// nothing.
pub fn parse_line(v: &[char]) -> (r: Option<Sample>)
    ensures
        match r {
            Some(sample) => line_sample(v@) == Some(sample.deep_view()),
            None => line_sample(v@) is None,
        },
{
    let line = trim(v);
    if line.len() == 0 || line[0] == '#' {
        return None;
    }
    let open = run_end(line, 0, &Class::Not('{'));
    proof {
        assert(line@.skip(0) =~= line@);
        lemma_run(line@, Class::Black);
    }
    if open < line.len() {
        match close_brace(line, open) {
            None => None,
            Some(close) => {
                let inside = slice_subrange(line, open + 1, close);
                let rest = slice_subrange(line, close + 1, line.len());
                proof {
                    let t = line@.skip(open + 1);
                    assert(inside@ =~= t.take(close - (open + 1)));
                    assert(rest@ =~= t.skip(close - (open + 1) + 1));
                    assert(line@.subrange(0, open as int) =~= line@.take(open as int));
                }
                match parse_labels(inside) {
                    None => None,
                    Some(labels) => assemble(slice_subrange(line, 0, open), labels, rest),
                }
            },
        }
    } else {
        let end = run_end(line, 0, &Class::Black);
        if end < line.len() {
            let labels: Vec<(String, String)> = Vec::new();
            proof {
                assert(labels.deep_view() =~= Seq::<(Seq<char>, Seq<char>)>::empty());
                assert(line@.subrange(0, end as int) =~= line@.take(end as int));
                assert(line@.subrange(end as int, line@.len() as int) =~= line@.skip(end as int));
            }
            assemble(
                slice_subrange(line, 0, end),
                labels,
                slice_subrange(line, end, line.len()),
            )
        } else {
            None
        }
    }
}

// ---------------------------------------------------------------------------
// Documents

/// The samples of a list of lines, in order.
pub open spec fn samples_of(lines: Seq<Seq<char>>) -> Seq<SampleView>
    decreases lines.len(),
{
    if lines.len() == 0 {
        Seq::empty()
    } else {
        let head = samples_of(lines.drop_last());
        match line_sample(lines.last()) {
            Some(sample) => head.push(sample),
            None => head,
        }
    }
}

/// The samples of an exposition document: those of its lines, in order.
pub open spec fn document(text: Seq<char>) -> Seq<SampleView> {
    samples_of(pieces(text, '\n'))
}

/// A parsed exposition document.
#[derive(Debug)]
pub struct Exposition {
    pub samples: Vec<Sample>,
}

impl DeepView for Exposition {
    type V = Seq<SampleView>;

    open spec fn deep_view(&self) -> Seq<SampleView> {
        self.samples.deep_view()
    }
}

/// The first value of `key` among `labels`.
pub open spec fn label_value(labels: Seq<(Seq<char>, Seq<char>)>, key: Seq<char>) -> Option<
    Seq<char>,
>
    decreases labels.len(),
{
    if labels.len() == 0 {
        None
    } else if labels[0].0 == key {
        Some(labels[0].1)
    } else {
        label_value(labels.skip(1), key)
    }
}

/// Whether a sample is named `metric` and, where a label is wanted, has it
/// with exactly that value.
pub open spec fn is_wanted(
    sample: SampleView,
    metric: Seq<char>,
    wanted: Option<(Seq<char>, Seq<char>)>,
) -> bool {
    sample.metric == metric && match wanted {
        Some((key, value)) => label_value(sample.labels, key) == Some(value),
        None => true,
    }
}

/// The position of the first wanted sample.
pub open spec fn first_wanted(
    samples: Seq<SampleView>,
    metric: Seq<char>,
    wanted: Option<(Seq<char>, Seq<char>)>,
) -> Option<int>
    decreases samples.len(),
{
    if samples.len() == 0 {
        None
    } else if is_wanted(samples[0], metric, wanted) {
        Some(0)
    } else {
        shifted(1, first_wanted(samples.skip(1), metric, wanted))
    }
}

/// The numeral at that position.
pub open spec fn wanted_value(
    samples: Seq<SampleView>,
    metric: Seq<char>,
    wanted: Option<(Seq<char>, Seq<char>)>,
) -> Option<Seq<char>> {
    match first_wanted(samples, metric, wanted) {
        Some(i) => Some(samples[i].value),
        None => None,
    }
}

impl Sample {
    /// The first value of the label `key`.
    pub fn label(&self, key: &str) -> (r: Option<&str>)
        ensures
            match r {
                Some(value) => label_value(self.labels.deep_view(), key@) == Some(value@),
                None => label_value(self.labels.deep_view(), key@) is None,
            },
    {
        let ghost all = self.labels.deep_view();
        assert(all.skip(0) =~= all);
        let mut i: usize = 0;
        while i < self.labels.len()
            invariant
                i <= self.labels@.len(),
                all == self.labels.deep_view(),
                label_value(all, key@) == label_value(all.skip(i as int), key@),
            decreases self.labels@.len() - i,
        {
            let ghost s = all.skip(i as int);
            assert(s[0] == (self.labels@[i as int].0@, self.labels@[i as int].1@));
            if same(self.labels[i].0.as_str(), key) {
                return Some(self.labels[i].1.as_str());
            }
            assert(s.skip(1) =~= all.skip(i + 1));
            i += 1;
        }
        None
    }
}

impl Exposition {
    /// Parses an exposition document.
    pub fn parse(text: &str) -> (r: Exposition)
        ensures
            r.deep_view() == document(text@),
    {
        let chars = chars_of(text);
        let lines = split(chars.as_slice(), '\n');
        let ghost all = pieces(text@, '\n');
        let mut samples: Vec<Sample> = Vec::new();
        assert(samples.deep_view() =~= Seq::<SampleView>::empty());
        for i in 0..lines.len()
            invariant
                views(lines@) == all,
                samples.deep_view() == samples_of(all.take(i as int)),
        {
            let ghost before = samples.deep_view();
            proof {
                let next = all.take(i + 1);
                assert(next.drop_last() =~= all.take(i as int));
                assert(next.last() == lines@[i as int]@);
            }
            match parse_line(lines[i].as_slice()) {
                Some(sample) => {
                    let ghost view = sample.deep_view();
                    samples.push(sample);
                    assert(samples.deep_view() =~= before.push(view));
                },
                None => {},
            }
        }
        assert(all.take(all.len() as int) =~= all);
        Exposition { samples }
    }

    /// The parsed samples, in document order.
    pub fn samples(&self) -> (r: &Vec<Sample>)
        ensures
            r.deep_view() == self.deep_view(),
    {
        &self.samples
    }

    /// Whether the document holds no sample.
    pub fn is_empty(&self) -> (r: bool)
        ensures
            r == (self.deep_view().len() == 0),
    {
        self.samples.is_empty()
    }

    /// Position of the first sample named `metric` that has, where one is
    /// wanted, the label `key` with exactly the value `value`.
    pub fn find(&self, metric: &str, wanted: Option<(&str, &str)>) -> (r: Option<usize>)
        ensures
            match r {
                Some(i) => i < self.samples@.len() && first_wanted(
                    self.deep_view(),
                    metric@,
                    wanted_view(wanted),
                ) == Some(i as int),
                None => first_wanted(self.deep_view(), metric@, wanted_view(wanted)) is None,
            },
    {
        let ghost all = self.deep_view();
        let ghost w = wanted_view(wanted);
        assert(all.skip(0) =~= all);
        let mut i: usize = 0;
        while i < self.samples.len()
            invariant
                i <= self.samples@.len(),
                all == self.samples.deep_view(),
                w == wanted_view(wanted),
                first_wanted(all, metric@, w) == shifted(
                    i as int,
                    first_wanted(all.skip(i as int), metric@, w),
                ),
            decreases self.samples@.len() - i,
        {
            let ghost s = all.skip(i as int);
            assert(s[0] == self.samples@[i as int].deep_view());
            let sample = &self.samples[i];
            if same(sample.metric.as_str(), metric) {
                let found = match wanted {
                    None => true,
                    Some((key, value)) => match sample.label(key) {
                        Some(held) => same(held, value),
                        None => false,
                    },
                };
                if found {
                    return Some(i);
                }
            }
            assert(s.skip(1) =~= all.skip(i + 1));
            i += 1;
        }
        None
    }

    /// Numeral of the first sample named `metric` whose `key` label is exactly
    /// `wanted`. A device that the exporter did not publish has none, never a
    /// neighbour's.
    pub fn labeled_value(&self, metric: &str, key: &str, wanted: &str) -> (r: Option<&str>)
        ensures
            match r {
                Some(value) => wanted_value(self.deep_view(), metric@, Some((key@, wanted@)))
                    == Some(value@),
                None => wanted_value(self.deep_view(), metric@, Some((key@, wanted@))) is None,
            },
    {
        match self.find(metric, Some((key, wanted))) {
            Some(i) => {
                assert(self.deep_view()[i as int] == self.samples@[i as int].deep_view());
                Some(self.samples[i].value.as_str())
            },
            None => None,
        }
    }

    /// Numeral of the first sample named `metric`, restricted to a `quantile`
    /// label where one is given. Numerals of non-finite numbers are returned
    /// too; the caller decides what is storable.
    pub fn value(&self, metric: &str, quantile: Option<&str>) -> (r: Option<&str>)
        ensures
            match r {
                Some(value) => wanted_value(self.deep_view(), metric@, quantile_label(quantile))
                    == Some(value@),
                None => wanted_value(self.deep_view(), metric@, quantile_label(quantile)) is None,
            },
    {
        let wanted = match quantile {
            Some(q) => Some(("quantile", q)),
            None => None,
        };
        match self.find(metric, wanted) {
            Some(i) => {
                assert(self.deep_view()[i as int] == self.samples@[i as int].deep_view());
                Some(self.samples[i].value.as_str())
            },
            None => None,
        }
    }
}

pub open spec fn wanted_view(wanted: Option<(&str, &str)>) -> Option<(Seq<char>, Seq<char>)> {
    match wanted {
        Some((key, value)) => Some((key@, value@)),
        None => None,
    }
}

pub open spec fn quantile_label(quantile: Option<&str>) -> Option<(Seq<char>, Seq<char>)> {
    match quantile {
        Some(q) => Some(("quantile"@, q@)),
        None => None,
    }
}

// ---------------------------------------------------------------------------
// Laws

/// A label is found under its own key: of several with one key it is the
/// first, and labels with other keys change nothing.
pub proof fn law_labels_are_found_by_key(
    front: Seq<(Seq<char>, Seq<char>)>,
    key: Seq<char>,
    value: Seq<char>,
    rest: Seq<(Seq<char>, Seq<char>)>,
)
    requires
        forall|i: int| 0 <= i < front.len() ==> (#[trigger] front[i]).0 != key,
    ensures
        label_value(front + seq![(key, value)] + rest, key) == Some(value),
        label_value(front, key) is None,
    decreases front.len(),
{
    let all = front + seq![(key, value)] + rest;
    if front.len() == 0 {
        assert(all[0] == (key, value));
    } else {
        let t = front.skip(1);
        assert forall|i: int| 0 <= i < t.len() implies (#[trigger] t[i]).0 != key by {
            assert(t[i] == front[i + 1]);
        }
        law_labels_are_found_by_key(t, key, value, rest);
        assert(all[0] == front[0]);
        assert(all.skip(1) =~= t + seq![(key, value)] + rest);
    }
}

/// Whether the line at `p` is the first of a metric, or, where a label is
/// asked for, the first of it that bears the label with that very value.
pub open spec fn leads(
    lines: Seq<SampleView>,
    p: int,
    metric: Seq<char>,
    label: Option<(Seq<char>, Seq<char>)>,
) -> bool {
    &&& 0 <= p < lines.len()
    &&& bears(lines[p], metric, label)
    &&& forall|j: int| 0 <= j < p ==> !bears(#[trigger] lines[j], metric, label)
}

/// Whether a line is one of the metric and bears the label asked for.
pub open spec fn bears(
    line: SampleView,
    metric: Seq<char>,
    label: Option<(Seq<char>, Seq<char>)>,
) -> bool {
    &&& line.metric == metric
    &&& label matches Some(pair) ==> label_value(line.labels, pair.0) == Some(pair.1)
}

/// A metric is read from its first line, and one asked for by a label from the
/// first line that bears it; where there is no such line there is no value,
/// whatever other lines say.
pub proof fn law_the_first_line_is_read(
    lines: Seq<SampleView>,
    metric: Seq<char>,
    label: Option<(Seq<char>, Seq<char>)>,
    p: int,
)
    ensures
        leads(lines, p, metric, label) ==> first_wanted(lines, metric, label) == Some(p)
            && wanted_value(lines, metric, label) == Some(lines[p].value),
        (forall|j: int| 0 <= j < lines.len() ==> !bears(#[trigger] lines[j], metric, label)) ==> (
        first_wanted(lines, metric, label) is None && wanted_value(lines, metric, label) is None),
    decreases lines.len(),
{
    if lines.len() > 0 {
        let t = lines.skip(1);
        law_the_first_line_is_read(t, metric, label, p - 1);
        if leads(lines, p, metric, label) && p > 0 {
            assert(!bears(lines[0], metric, label));
            assert(t[p - 1] == lines[p]);
            assert forall|j: int| 0 <= j < p - 1 implies !bears(#[trigger] t[j], metric, label) by {
                assert(t[j] == lines[j + 1]);
            }
        }
        if forall|j: int| 0 <= j < lines.len() ==> !bears(#[trigger] lines[j], metric, label) {
            assert(!bears(lines[0], metric, label));
            assert forall|j: int| 0 <= j < t.len() implies !bears(#[trigger] t[j], metric, label) by {
                assert(t[j] == lines[j + 1]);
            }
        }
    }
}

/// Which texts are numerals: digits, with a sign, a point and an exponent where
/// they have one, and the words for what is not finite, in any case.
pub proof fn law_numerals(digits: Seq<char>, fraction: Seq<char>, power: Seq<char>, mark: char)
    requires
        digits.len() > 0,
        all_digits(digits),
        all_digits(fraction),
        power.len() > 0,
        all_digits(power),
        mark == 'e' || mark == 'E',
    ensures
        is_float(digits),
        is_float(seq!['-'] + digits),
        is_float(seq!['+'] + digits),
        is_float(digits + seq!['.'] + fraction),
        is_float(seq!['-'] + (digits + seq!['.'] + fraction)),
        is_float(seq!['.'] + digits),
        is_float(digits + seq![mark] + power),
        is_float(digits + seq![mark, '-'] + power),
        is_float(digits + seq![mark, '+'] + power),
        is_float(digits + seq!['.'] + fraction + seq![mark] + power),
        !is_float(Seq::empty()),
        !is_float(seq!['.']),
        !is_float(seq!['-']),
        !is_float(digits + seq![mark]),
{
    let none = Seq::<char>::empty();
    lemma_unsigned(digits, none, none);
    assert(digits + none + none =~= digits);
    assert((seq!['-'] + digits).skip(1) =~= digits);
    assert((seq!['+'] + digits).skip(1) =~= digits);
    lemma_unsigned(digits, seq!['.'] + fraction, none);
    let with_point = digits + seq!['.'] + fraction;
    assert(digits + (seq!['.'] + fraction) + none =~= with_point);
    assert((seq!['-'] + with_point).skip(1) =~= with_point);
    assert(with_point.skip(0) =~= with_point);
    lemma_unsigned(none, seq!['.'] + digits, none);
    assert(none + (seq!['.'] + digits) + none =~= seq!['.'] + digits);
    assert((seq!['.'] + digits).skip(0) =~= seq!['.'] + digits);
    lemma_exponent(seq![mark], power);
    lemma_exponent(seq![mark, '-'], power);
    lemma_exponent(seq![mark, '+'], power);
    lemma_unsigned(digits, none, seq![mark] + power);
    lemma_unsigned(digits, none, seq![mark, '-'] + power);
    lemma_unsigned(digits, none, seq![mark, '+'] + power);
    lemma_unsigned(digits, seq!['.'] + fraction, seq![mark] + power);
    assert(digits + none + (seq![mark] + power) =~= digits + seq![mark] + power);
    assert(digits + none + (seq![mark, '-'] + power) =~= digits + seq![mark, '-'] + power);
    assert(digits + none + (seq![mark, '+'] + power) =~= digits + seq![mark, '+'] + power);
    assert(digits + (seq!['.'] + fraction) + (seq![mark] + power) =~= with_point + seq![mark]
        + power);
    assert(digits.skip(0) =~= digits);
    lemma_no_numeral(none);
    lemma_no_numeral(seq!['.']);
    assert(seq!['-'].skip(1) =~= none);
    assert(none.skip(0) =~= none);
    assert(seq!['.'].skip(0) =~= seq!['.']);
    let bare = digits + seq![mark];
    assert forall|i: int| 0 <= i < digits.len() implies Class::Digit.has(#[trigger] bare[i]) by {
        assert(bare[i] == digits[i]);
    }
    lemma_run_is(bare, Class::Digit, digits.len());
    assert(bare.skip(0) =~= bare);
    assert(after(bare, Class::Digit) =~= seq![mark]);
    assert(seq![mark].skip(1) =~= none);
    assert(bare[0] == digits[0]);
    assert(is_ascii_digit(digits[0]));
    lemma_not_spelled(bare);
}

/// A text that starts with a digit or a point spells no word.
proof fn lemma_not_spelled(s: Seq<char>)
    requires
        s.len() > 0,
        is_ascii_digit(s[0]) || s[0] == '.',
    ensures
        !spells(s, seq!['i', 'n', 'f']),
        !spells(s, seq!['i', 'n', 'f', 'i', 'n', 'i', 't', 'y']),
        !spells(s, seq!['n', 'a', 'n']),
{
    let l = s.map_values(|c: char| lower(c));
    assert(l[0] == lower(s[0]));
}

proof fn lemma_no_numeral(s: Seq<char>)
    requires
        s.len() == 0 || s == seq!['.'],
    ensures
        !is_number(s),
        !spells(s, seq!['i', 'n', 'f']),
        !spells(s, seq!['i', 'n', 'f', 'i', 'n', 'i', 't', 'y']),
        !spells(s, seq!['n', 'a', 'n']),
{
    let l = s.map_values(|c: char| lower(c));
    assert(l.len() == s.len());
    lemma_run_is(s, Class::Digit, 0);
    if s.len() > 0 {
        assert(s.skip(0) =~= s);
        assert(s.skip(1) =~= Seq::<char>::empty());
        lemma_run_is(Seq::empty(), Class::Digit, 0);
    }
}

proof fn lemma_exponent(mark: Seq<char>, power: Seq<char>)
    requires
        mark.len() == 1 || mark.len() == 2 && (mark[1] == '-' || mark[1] == '+'),
        mark[0] == 'e' || mark[0] == 'E',
        power.len() > 0,
        all_digits(power),
    ensures
        is_exponent(mark + power),
{
    let s = mark + power;
    let t = s.skip(1);
    assert(is_ascii_digit(power[0]));
    if mark.len() == 1 {
        assert(t =~= power);
        assert(t.skip(0) =~= power);
    } else {
        assert(t[0] == mark[1]);
        assert(t.skip(1) =~= power);
    }
}

/// Digits, a part that starts with a point, and an exponent make a number.
proof fn lemma_unsigned(digits: Seq<char>, point: Seq<char>, exponent: Seq<char>)
    requires
        all_digits(digits),
        point.len() == 0 || point[0] == '.' && all_digits(point.skip(1)),
        digits.len() > 0 || point.len() > 1,
        is_exponent(exponent),
    ensures
        is_float(digits + point + exponent),
{
    let s = digits + point + exponent;
    assert forall|i: int| 0 <= i < digits.len() implies Class::Digit.has(#[trigger] s[i]) by {
        assert(s[i] == digits[i]);
        assert(is_ascii_digit(digits[i]));
    }
    lemma_run_is(s, Class::Digit, digits.len());
    let rest = s.skip(digits.len() as int);
    assert(rest =~= point + exponent);
    assert(sign_len(s) == 0) by {
        if digits.len() > 0 {
            assert(s[0] == digits[0]);
            assert(is_ascii_digit(digits[0]));
        } else {
            assert(s[0] == point[0]);
        }
    }
    assert(s.skip(0) =~= s);
    if point.len() > 0 {
        let fraction = rest.skip(1);
        let places = point.skip(1);
        assert(fraction =~= places + exponent);
        assert forall|i: int| 0 <= i < places.len() implies Class::Digit.has(
            #[trigger] fraction[i],
        ) by {
            assert(fraction[i] == places[i]);
            assert(is_ascii_digit(places[i]));
        }
        lemma_run_is(fraction, Class::Digit, places.len());
        assert(after(fraction, Class::Digit) =~= exponent);
    } else {
        assert(rest =~= exponent);
    }
}

/// The words for what is not finite are numerals in any case, with or without
/// a sign.
pub proof fn law_words_are_numerals(s: Seq<char>, sign: char)
    requires
        sign == '+' || sign == '-',
        ({
            let l = s.map_values(|c: char| lower(c));
            l == seq!['n', 'a', 'n'] || l == seq!['i', 'n', 'f'] || l == seq![
                'i',
                'n',
                'f',
                'i',
                'n',
                'i',
                't',
                'y',
            ]
        }),
    ensures
        is_float(s),
        is_float(seq![sign] + s),
{
    let l = s.map_values(|c: char| lower(c));
    assert(l.len() == s.len());
    assert(l[0] == lower(s[0]));
    assert(s.skip(0) =~= s);
    assert((seq![sign] + s).skip(1) =~= s);
}

/// Which texts are metric names.
pub proof fn law_metric_names(s: Seq<char>)
    ensures
        is_metric_name(s) <==> s.len() > 0 && !('0' <= s[0] <= '9') && forall|i: int|
            0 <= i < s.len() ==> 'a' <= #[trigger] s[i] <= 'z' || 'A' <= s[i] <= 'Z' || '0' <= s[i]
                <= '9' || s[i] == '_' || s[i] == ':',
{
    if is_metric_name(s) {
        assert forall|i: int| 0 <= i < s.len() implies 'a' <= #[trigger] s[i] <= 'z' || 'A' <= s[i]
            <= 'Z' || '0' <= s[i] <= '9' || s[i] == '_' || s[i] == ':' by {
            assert(is_ascii_letter(s[i]) || is_ascii_digit(s[i]) || s[i] == '_' || s[i] == ':');
        }
    }
}

/// A comment and a blank line tell nothing.
pub proof fn law_comments_tell_nothing(left: Seq<char>, rest: Seq<char>)
    requires
        forall|i: int| 0 <= i < left.len() ==> is_white(#[trigger] left[i]),
    ensures
        line_sample(left) is None,
        rest.len() == 0 || !is_white(rest.last()) ==> line_sample(left + seq!['#'] + rest) is None,
{
    let none = Seq::<char>::empty();
    assert(left + none + none =~= left);
    law_trimming_ignores_padding(left, none, none);
    if rest.len() == 0 || !is_white(rest.last()) {
        let body = seq!['#'] + rest;
        assert(left + seq!['#'] + rest =~= left + body + none);
        assert(body.last() == if rest.len() > 0 {
            rest.last()
        } else {
            '#'
        });
        law_trimming_ignores_padding(left, body, none);
    }
}

/// A line without labels is a metric's name, space and a numeral; what follows
/// the numeral, such as a timestamp, is not read. Another word in its place
/// tells nothing.
pub proof fn law_bare_lines_are_read(metric: Seq<char>, value: Seq<char>, stamp: Seq<char>)
    requires
        is_metric_name(metric),
        value.len() > 0,
        forall|i: int| 0 <= i < value.len() ==> !is_white(#[trigger] value[i]) && value[i] != '{',
        forall|i: int| 0 <= i < stamp.len() ==> !is_white(#[trigger] stamp[i]) && stamp[i] != '{',
    ensures
        line_sample(metric + seq![' '] + value) == if is_float(value) {
            Some(SampleView { metric, labels: Seq::empty(), value })
        } else {
            None
        },
        stamp.len() > 0 ==> line_sample(metric + seq![' '] + value + seq![' '] + stamp)
            == line_sample(metric + seq![' '] + value),
{
    lemma_bare(metric, value, Seq::empty());
    assert(metric + seq![' '] + value + Seq::<char>::empty() =~= metric + seq![' '] + value);
    if stamp.len() > 0 {
        lemma_bare(metric, value, seq![' '] + stamp);
        assert(metric + seq![' '] + value + (seq![' '] + stamp) =~= metric + seq![' '] + value
            + seq![' '] + stamp);
    }
}

proof fn lemma_bare(metric: Seq<char>, value: Seq<char>, rest: Seq<char>)
    requires
        is_metric_name(metric),
        value.len() > 0,
        forall|i: int| 0 <= i < value.len() ==> !is_white(#[trigger] value[i]) && value[i] != '{',
        rest.len() > 0 ==> rest[0] == ' ' && !is_white(rest.last()),
        forall|i: int| 0 <= i < rest.len() ==> #[trigger] rest[i] != '{',
    ensures
        line_sample(metric + seq![' '] + value + rest) == if is_float(value) {
            Some(SampleView { metric, labels: Seq::empty(), value })
        } else {
            None
        },
{
    let none = Seq::<char>::empty();
    let line = metric + seq![' '] + value + rest;
    let m = metric.len() as int;
    assert forall|i: int| 0 <= i < m implies !is_white(#[trigger] metric[i]) && metric[i] != '{'
        && metric[i] != '#' by {
        assert(is_ascii_letter(metric[i]) || is_ascii_digit(metric[i]) || metric[i] == '_'
            || metric[i] == ':');
    }
    assert(line[0] == metric[0]);
    assert(line.last() == if rest.len() > 0 {
        rest.last()
    } else {
        value.last()
    });
    assert(none + line + none =~= line);
    law_trimming_ignores_padding(none, line, none);
    assert forall|i: int| 0 <= i < line.len() implies Class::Not('{').has(#[trigger] line[i]) by {
        if i < m {
            assert(line[i] == metric[i]);
        } else if i == m {
            assert(line[i] == ' ');
        } else if i < m + 1 + value.len() {
            assert(line[i] == value[i - m - 1]);
        } else {
            assert(line[i] == rest[i - m - 1 - value.len()]);
        }
    }
    lemma_run_is(line, Class::Not('{'), line.len());
    assert forall|i: int| 0 <= i < m implies Class::Black.has(#[trigger] line[i]) by {
        assert(line[i] == metric[i]);
    }
    assert(line[m] == ' ');
    lemma_run_is(line, Class::Black, metric.len());
    assert(line.take(m) =~= metric);
    assert(none + metric + none =~= metric);
    law_trimming_ignores_padding(none, metric, none);
    let tail = line.skip(m);
    assert(tail =~= seq![' '] + value + rest);
    assert(tail[1] == value[0]);
    lemma_run_is(tail, Class::White, 1);
    let words = tail.skip(1);
    assert(words =~= value + rest);
    assert forall|i: int| 0 <= i < value.len() implies Class::Black.has(#[trigger] words[i]) by {
        assert(words[i] == value[i]);
    }
    if rest.len() > 0 {
        assert(words[value.len() as int] == rest[0]);
    }
    lemma_run_is(words, Class::Black, value.len());
    assert(words.take(value.len() as int) =~= value);
}

/// A label set is its pairs in order, with or without a comma behind the last
/// one; one without its quotes is none.
pub proof fn law_label_sets_are_read(key: Seq<char>, value: Seq<char>)
    requires
        key.len() > 0,
        forall|i: int| 0 <= i < key.len() ==> Class::Word.has(#[trigger] key[i]),
        forall|i: int|
            0 <= i < value.len() ==> #[trigger] value[i] != '"' && value[i] != '\\',
    ensures
        ({
            let pair = key + seq!['=', '"'] + value + seq!['"'];
            &&& label_set(pair) == Some(seq![(key, value)])
            &&& label_set(pair + seq![',']) == Some(seq![(key, value)])
        }),
        label_set(Seq::empty()) == Some(Seq::<(Seq<char>, Seq<char>)>::empty()),
        label_set(key) is None,
{
    let pair = key + seq!['=', '"'] + value + seq!['"'];
    lemma_one_label(key, value, Seq::empty());
    assert(key + seq!['=', '"'] + value + seq!['"'] + Seq::<char>::empty() =~= pair);
    lemma_one_label(key, value, seq![',']);
    lemma_run_is(Seq::empty(), Class::AsciiWhite, 0);
    assert(Seq::<char>::empty().skip(0) =~= Seq::empty());
    lemma_run_is(seq![','], Class::AsciiWhite, 0);
    assert(seq![','].skip(0) =~= seq![',']);
    assert(seq![','].skip(1) =~= Seq::<char>::empty());
    let comma = pair + seq![','];
    assert(pair[0] == key[0] && comma[0] == key[0]);
    assert(Class::Word.has(key[0]));
    lemma_run_is(pair, Class::AsciiWhite, 0);
    lemma_run_is(comma, Class::AsciiWhite, 0);
    assert(pair.skip(0) =~= pair);
    assert(comma.skip(0) =~= comma);
    reveal_with_fuel(label_set, 3);
    assert(label_set(Seq::empty()) == Some(Seq::<(Seq<char>, Seq<char>)>::empty()));
    assert(seq![(key, value)] + Seq::<(Seq<char>, Seq<char>)>::empty() =~= seq![(key, value)]);
    lemma_run_is(key, Class::AsciiWhite, 0);
    assert(key.skip(0) =~= key);
    lemma_run_is(key, Class::Word, key.len());
    assert(key.skip(key.len() as int) =~= Seq::<char>::empty());
}

proof fn lemma_plain_quoted(value: Seq<char>, rest: Seq<char>)
    requires
        forall|i: int|
            0 <= i < value.len() ==> #[trigger] value[i] != '"' && value[i] != '\\',
    ensures
        quoted(value + (seq!['"'] + rest)) == Some((value, rest)),
    decreases value.len(),
{
    let s = value + (seq!['"'] + rest);
    if value.len() == 0 {
        assert(s[0] == '"');
        assert(s.skip(1) =~= rest);
        assert(value =~= Seq::<char>::empty());
    } else {
        let t = value.skip(1);
        assert forall|i: int| 0 <= i < t.len() implies #[trigger] t[i] != '"' && t[i] != '\\' by {
            assert(t[i] == value[i + 1]);
        }
        lemma_plain_quoted(t, rest);
        assert(s[0] == value[0]);
        assert(s.skip(1) =~= t + (seq!['"'] + rest));
        assert(seq![value[0]] + t =~= value);
    }
}

proof fn lemma_one_label(key: Seq<char>, value: Seq<char>, rest: Seq<char>)
    requires
        key.len() > 0,
        forall|i: int| 0 <= i < key.len() ==> Class::Word.has(#[trigger] key[i]),
        forall|i: int|
            0 <= i < value.len() ==> #[trigger] value[i] != '"' && value[i] != '\\',
    ensures
        label(key + seq!['=', '"'] + value + seq!['"'] + rest) == Some(((key, value), rest)),
{
    let s = key + seq!['=', '"'] + value + seq!['"'] + rest;
    let k = key.len() as int;
    assert forall|i: int| 0 <= i < k implies Class::Word.has(#[trigger] s[i]) by {
        assert(s[i] == key[i]);
    }
    assert(s[k] == '=');
    lemma_run_is(s, Class::Word, key.len());
    assert(s.take(k) =~= key);
    let eq = s.skip(k);
    assert(eq[0] == '=');
    lemma_run_is(eq, Class::AsciiWhite, 0);
    assert(eq.skip(0) =~= eq);
    let quote = eq.skip(1);
    assert(quote[0] == '"');
    lemma_run_is(quote, Class::AsciiWhite, 0);
    assert(quote.skip(0) =~= quote);
    assert(quote.skip(1) =~= value + (seq!['"'] + rest));
    lemma_plain_quoted(value, rest);
}

/// A quantile is asked for by the label of that name, and lines are read one by
/// one, in order.
pub proof fn law_quantiles_are_labels(quantile: &str, lines: Seq<Seq<char>>, line: Seq<char>)
    ensures
        quantile_label(Some(quantile)) == Some(("quantile"@, quantile@)),
        quantile_label(None) is None,
        samples_of(lines.push(line)) == match line_sample(line) {
            Some(sample) => samples_of(lines).push(sample),
            None => samples_of(lines),
        },
        samples_of(Seq::empty()).len() == 0,
{
    assert(lines.push(line).drop_last() =~= lines);
}

/// The models of samples and documents show what these hold, unchanged and in
/// order.
pub proof fn law_models_show_what_is_held(sample: Sample, exposition: Exposition, i: int)
    ensures
        sample.deep_view().metric == sample.metric@,
        sample.deep_view().value == sample.value@,
        sample.deep_view().labels.len() == sample.labels@.len(),
        0 <= i < sample.labels@.len() ==> sample.deep_view().labels[i] == (
            sample.labels@[i].0@,
            sample.labels@[i].1@,
        ),
        exposition.deep_view().len() == exposition.samples@.len(),
        0 <= i < exposition.samples@.len() ==> exposition.deep_view()[i]
            == exposition.samples@[i].deep_view(),
{
}

} // verus!
