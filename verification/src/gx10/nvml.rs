//! What is made of the driver library's answers.
//!
//! Every call of the library returns a status, and only success means that it
//! answered: a field whose call failed is not published, whatever the call
//! left behind.
use crate::exposition::{is_numeral, Figure};
use crate::gx10::source::{DeviceSample, ScrapeResult};
use crate::history::prom::is_number;
use crate::text::{
    after, all_digits, cat2, decimal, decimal_int, decimal_of, decimal_of_int, digit_char,
    digits_value, is_ascii_digit, is_white, law_text_ends_at_the_first_zero, lemma_run_is,
    read_terminated, terminated_text, text_view, Class,
};
use vstd::prelude::*;
use vstd::slice::slice_subrange;
use vstd::utf8::{decode_utf8, valid_utf8};

verus! {

/// The status of a call that answered.
pub const NVML_SUCCESS: i32 = 0;

// ---------------------------------------------------------------------------
// Driver texts

/// The text that the driver wrote into a buffer whose last place is its
/// terminator: nothing where the call failed or the bytes are not UTF-8.
pub open spec fn driver_text(status: i32, buffer: Seq<u8>) -> Option<Seq<char>> {
    if status == NVML_SUCCESS {
        terminated_text(buffer.drop_last())
    } else {
        None
    }
}

/// Reads a text that the driver wrote into a buffer. A buffer that was filled
/// without a terminator is cut at its last place.
pub fn read_c_string(status: i32, buffer: &[u8]) -> (r: Option<String>)
    requires
        buffer@.len() > 0,
    ensures
        text_view(r) == driver_text(status, buffer@),
{
    if status != NVML_SUCCESS {
        return None;
    }
    let last: usize = buffer.len() - 1;
    assert(buffer@.subrange(0, last as int) =~= buffer@.drop_last());
    read_terminated(slice_subrange(buffer, 0, last))
}

// ---------------------------------------------------------------------------
// Units

/// The decimal digits of `part / unit`, for `part < unit` and a power of ten
/// as the unit, without trailing zeros.
pub open spec fn fraction(part: nat, unit: nat) -> Seq<char>
    decreases unit,
{
    if part == 0 || unit < 10 {
        Seq::empty()
    } else {
        seq![digit_char(part / (unit / 10))] + fraction(part % (unit / 10), unit / 10)
    }
}

/// The decimal notation of `n / unit`, for a power of ten as the unit.
pub open spec fn scaled(n: nat, unit: nat) -> Seq<char> {
    if n % unit == 0 {
        decimal(n / unit)
    } else {
        decimal(n / unit) + seq!['.'] + fraction(n % unit, unit)
    }
}

fn scale(n: u32, unit: u32) -> (r: String)
    requires
        unit == 100 || unit == 1000,
    ensures
        r@ == scaled(n as nat, unit as nat),
{
    let mut r = decimal_of((n / unit) as u64);
    let mut part: u32 = n % unit;
    if part == 0 {
        return r;
    }
    r.push('.');
    let ghost head = r@;
    let ghost whole = fraction(part as nat, unit as nat);
    let mut place: u32 = unit;
    assert(head + whole =~= r@ + fraction(part as nat, place as nat));
    while part > 0
        invariant
            place == 1000 || place == 100 || place == 10 || place == 1,
            part < place,
            head + whole == r@ + fraction(part as nat, place as nat),
        decreases place,
    {
        let next: u32 = place / 10;
        let digit: u32 = part / next;
        let ghost before = r@;
        assert(digit < 10) by (nonlinear_arith)
            requires
                digit == part / next,
                part < 10 * next,
                next > 0,
        ;
        r.push(((digit as u8) + 48) as char);
        proof {
            assert(r@ =~= before + seq![digit_char(digit as nat)]);
            assert(before + (seq![digit_char(digit as nat)] + fraction(
                (part % next) as nat,
                next as nat,
            )) =~= r@ + fraction((part % next) as nat, next as nat));
        }
        part = part % next;
        place = next;
    }
    assert(head + whole =~= r@);
    r
}

/// The ratio that a whole percentage stands for, exactly; it is not clamped.
pub fn ratio_from_percent(percent: u32) -> (r: Figure)
    ensures
        r matches Figure::Exact { text } && text@ == scaled(percent as nat, 100),
{
    Figure::Exact { text: scale(percent, 100) }
}

/// The watts that so many milliwatts are, exactly.
pub fn watts_from_milliwatts(milliwatts: u32) -> (r: Figure)
    ensures
        r matches Figure::Exact { text } && text@ == scaled(milliwatts as nat, 1000),
{
    Figure::Exact { text: scale(milliwatts, 1000) }
}

// ---------------------------------------------------------------------------
// Devices

/// A call that fills a text buffer.
#[derive(Debug)]
pub struct TextProbe {
    pub status: i32,
    pub buffer: Vec<u8>,
}

/// A call that gives one number.
#[derive(Debug)]
pub struct NumberProbe {
    pub status: i32,
    pub value: u32,
}

/// The call that gives both memory figures.
#[derive(Debug)]
pub struct MemoryProbe {
    pub status: i32,
    pub used: u64,
    pub total: u64,
}

/// The answers of the calls about one device; `reached` tells whether its
/// handle could be had at all.
#[derive(Debug)]
pub struct Probes {
    pub index: u32,
    pub reached: bool,
    pub uuid: TextProbe,
    pub name: TextProbe,
    pub utilization_percent: NumberProbe,
    pub power_milliwatts: NumberProbe,
    pub temperature_celsius: NumberProbe,
    pub memory: MemoryProbe,
}

impl Probes {
    /// The two texts have a buffer.
    pub open spec fn wf(&self) -> bool {
        self.uuid.buffer@.len() > 0 && self.name.buffer@.len() > 0
    }
}

/// What a sample holds of a number: its numeral, where the call answered.
pub open spec fn answered(probe: NumberProbe, unit: nat) -> Option<Seq<char>> {
    if probe.status == NVML_SUCCESS {
        Some(scaled(probe.value as nat, unit))
    } else {
        None
    }
}

/// The exact numeral of a figure.
pub open spec fn exact_text(figure: Option<Figure>) -> Option<Seq<char>> {
    match figure {
        Some(Figure::Exact { text }) => Some(text@),
        _ => None,
    }
}

pub open spec fn is_exact(figure: Option<Figure>) -> bool {
    figure matches Some(f) ==> f is Exact
}

/// Whether a sample holds exactly what the calls answered.
pub open spec fn reports(sample: DeviceSample, probes: Probes) -> bool {
    &&& sample.index == probes.index
    &&& text_view(sample.uuid) == driver_text(probes.uuid.status, probes.uuid.buffer@)
    &&& text_view(sample.name) == driver_text(probes.name.status, probes.name.buffer@)
    &&& is_exact(sample.utilization_ratio)
    &&& exact_text(sample.utilization_ratio) == answered(probes.utilization_percent, 100)
    &&& is_exact(sample.power_watts)
    &&& exact_text(sample.power_watts) == answered(probes.power_milliwatts, 1000)
    &&& is_exact(sample.temperature_celsius)
    &&& exact_text(sample.temperature_celsius) == answered(probes.temperature_celsius, 1)
    &&& sample.memory_used_bytes == (if probes.memory.status == NVML_SUCCESS {
        Some(probes.memory.used)
    } else {
        None
    })
    &&& sample.memory_total_bytes == (if probes.memory.status == NVML_SUCCESS {
        Some(probes.memory.total)
    } else {
        None
    })
}

/// The sample of one device: only the fields whose calls answered.
pub fn device(probes: &Probes) -> (r: DeviceSample)
    requires
        probes.wf(),
    ensures
        reports(r, *probes),
{
    let utilization_ratio = if probes.utilization_percent.status == NVML_SUCCESS {
        Some(ratio_from_percent(probes.utilization_percent.value))
    } else {
        None
    };
    let power_watts = if probes.power_milliwatts.status == NVML_SUCCESS {
        Some(watts_from_milliwatts(probes.power_milliwatts.value))
    } else {
        None
    };
    let temperature_celsius = if probes.temperature_celsius.status == NVML_SUCCESS {
        Some(Figure::Exact { text: decimal_of(probes.temperature_celsius.value as u64) })
    } else {
        None
    };
    let (used, total) = if probes.memory.status == NVML_SUCCESS {
        (Some(probes.memory.used), Some(probes.memory.total))
    } else {
        (None, None)
    };
    DeviceSample {
        index: probes.index,
        uuid: read_c_string(probes.uuid.status, probes.uuid.buffer.as_slice()),
        name: read_c_string(probes.name.status, probes.name.buffer.as_slice()),
        utilization_ratio,
        power_watts,
        temperature_celsius,
        memory_used_bytes: used,
        memory_total_bytes: total,
    }
}

/// The devices whose handles could be had.
pub open spec fn reached(probes: Seq<Probes>) -> Seq<Probes>
    decreases probes.len(),
{
    if probes.len() == 0 {
        Seq::empty()
    } else {
        let head = reached(probes.drop_last());
        if probes.last().reached {
            head.push(probes.last())
        } else {
            head
        }
    }
}

pub open spec fn all_report(samples: Seq<DeviceSample>, probes: Seq<Probes>) -> bool {
    samples.len() == probes.len() && forall|i: int|
        0 <= i < samples.len() ==> reports(#[trigger] samples[i], probes[i])
}

/// Why the devices could not be counted.
pub open spec fn count_error(status: i32) -> Seq<char> {
    "nvmlDeviceGetCount_v2 returned "@ + decimal_int(status as int)
}

/// Every device that was enumerated, each with only the fields that answered.
/// A device without a handle is skipped, and its siblings are unaffected.
pub fn devices(count_status: i32, probes: &Vec<Probes>) -> (r: ScrapeResult)
    requires
        forall|i: int| 0 <= i < probes@.len() ==> (#[trigger] probes@[i]).wf(),
    ensures
        match r {
            Ok(samples) => count_status == NVML_SUCCESS && all_report(
                samples@,
                reached(probes@),
            ),
            Err(reason) => count_status != NVML_SUCCESS && reason@ == count_error(count_status),
        },
{
    if count_status != NVML_SUCCESS {
        let status = decimal_of_int(count_status as i64);
        return Err(cat2("nvmlDeviceGetCount_v2 returned ", status.as_str()));
    }
    let mut samples: Vec<DeviceSample> = Vec::new();
    for i in 0..probes.len()
        invariant
            forall|i: int| 0 <= i < probes@.len() ==> (#[trigger] probes@[i]).wf(),
            all_report(samples@, reached(probes@.take(i as int))),
    {
        proof {
            let next = probes@.take(i + 1);
            assert(next.drop_last() =~= probes@.take(i as int));
            assert(next.last() == probes@[i as int]);
        }
        if probes[i].reached {
            samples.push(device(&probes[i]));
        }
    }
    assert(probes@.take(probes@.len() as int) =~= probes@);
    Ok(samples)
}

// ---------------------------------------------------------------------------
// Loading

/// The names that the driver's library goes by: its versioned name, then the
/// link that only a development package installs.
pub fn library_candidates() -> (r: Vec<String>)
    ensures
        r.deep_view() == seq!["libnvidia-ml.so.1"@, "libnvidia-ml.so"@],
{
    let mut names: Vec<String> = Vec::new();
    names.push("libnvidia-ml.so.1".to_owned());
    names.push("libnvidia-ml.so".to_owned());
    assert(names.deep_view() =~= seq!["libnvidia-ml.so.1"@, "libnvidia-ml.so"@]);
    names
}

/// Why a symbol cannot be taken for a function: it is not as wide as an
/// address, or it was not found.
pub open spec fn symbol_refusal(
    name: Seq<char>,
    width: usize,
    address_width: usize,
    found: bool,
) -> Option<Seq<char>> {
    if width != address_width {
        Some(name + ": not a function pointer on this target"@)
    } else if !found {
        Some(name + ": symbol not present"@)
    } else {
        None
    }
}

/// Judges whether a symbol can be taken for a function of this width.
pub fn symbol(name: &str, width: usize, address_width: usize, found: bool) -> (r: Result<
    (),
    String,
>)
    ensures
        match r {
            Ok(_) => symbol_refusal(name@, width, address_width, found) is None,
            Err(error) => symbol_refusal(name@, width, address_width, found) == Some(error@),
        },
{
    if width != address_width {
        Err(cat2(name, ": not a function pointer on this target"))
    } else if !found {
        Err(cat2(name, ": symbol not present"))
    } else {
        Ok(())
    }
}

/// The attempts to load the library: the candidates in order, and what went
/// wrong with the last one that was tried.
#[derive(Debug)]
pub struct Loading {
    pub candidates: Vec<String>,
    pub tried: usize,
    pub last: String,
}

impl Loading {
    pub open spec fn wf(&self) -> bool {
        self.tried <= self.candidates@.len()
    }

    /// Nothing has been tried.
    pub fn new(candidates: Vec<String>) -> (r: Loading)
        ensures
            r.wf(),
            r.candidates == candidates,
            r.tried == 0,
            r.last@ == "no NVML library name to try"@,
    {
        Loading { candidates, tried: 0, last: "no NVML library name to try".to_owned() }
    }

    /// The candidate to try next, or the failure to report.
    pub fn next(&self) -> (r: Result<&str, &str>)
        requires
            self.wf(),
        ensures
            match r {
                Ok(name) => self.tried < self.candidates@.len() && name@
                    == self.candidates@[self.tried as int]@,
                Err(reason) => self.tried == self.candidates@.len() && reason@ == self.last@,
            },
    {
        if self.tried < self.candidates.len() {
            Ok(self.candidates[self.tried].as_str())
        } else {
            Err(self.last.as_str())
        }
    }

    /// Notes that the candidate did not load.
    pub fn failed(&mut self, reason: String)
        requires
            old(self).wf(),
            old(self).tried < old(self).candidates@.len(),
        ensures
            final(self).wf(),
            final(self).candidates == old(self).candidates,
            final(self).tried == old(self).tried + 1,
            final(self).last == reason,
    {
        let len: usize = self.candidates.len();
        assert(self.tried < len);
        self.tried = self.tried + 1;
        self.last = reason;
    }
}

/// The driver's library as a source: it stays loaded for as long as it
/// answers.
#[derive(Debug)]
pub struct NvmlSource {
    pub candidates: Vec<String>,
    pub loaded: bool,
}

impl NvmlSource {
    /// The source that tries the driver's own names.
    pub fn new() -> (r: NvmlSource)
        ensures
            r.candidates.deep_view() == seq!["libnvidia-ml.so.1"@, "libnvidia-ml.so"@],
            !r.loaded,
    {
        NvmlSource { candidates: library_candidates(), loaded: false }
    }

    /// The source that tries these names.
    pub fn with_candidates(candidates: &[&str]) -> (r: NvmlSource)
        ensures
            r.candidates.deep_view() == Seq::new(candidates@.len(), |i: int| candidates@[i]@),
            !r.loaded,
    {
        let ghost all = Seq::new(candidates@.len(), |i: int| candidates@[i]@);
        let mut names: Vec<String> = Vec::new();
        assert(names.deep_view() =~= all.take(0));
        for i in 0..candidates.len()
            invariant
                all == Seq::new(candidates@.len(), |i: int| candidates@[i]@),
                names.deep_view() == all.take(i as int),
        {
            let ghost before = names.deep_view();
            names.push(candidates[i].to_owned());
            assert(names.deep_view() =~= before.push(candidates@[i as int]@));
            assert(all.take(i + 1) =~= all.take(i as int).push(all[i as int]));
        }
        assert(all.take(all.len() as int) =~= all);
        NvmlSource { candidates: names, loaded: false }
    }

    /// The attempts that a scrape has to make before it can ask for devices:
    /// none where the library is loaded. A failure is never remembered, so
    /// that a driver that appears later is found.
    pub fn attempts(&self) -> (r: Option<Loading>)
        ensures
            match r {
                Some(loading) => !self.loaded && loading.wf() && loading.tried == 0
                    && loading.candidates.deep_view() == self.candidates.deep_view()
                    && loading.last@ == "no NVML library name to try"@,
                None => self.loaded,
            },
    {
        if self.loaded {
            return None;
        }
        let ghost all = self.candidates.deep_view();
        let mut names: Vec<String> = Vec::new();
        assert(names.deep_view() =~= all.take(0));
        for i in 0..self.candidates.len()
            invariant
                all == self.candidates.deep_view(),
                names.deep_view() == all.take(i as int),
        {
            let ghost before = names.deep_view();
            names.push(self.candidates[i].clone());
            assert(names.deep_view() =~= before.push(self.candidates@[i as int]@));
            assert(all.take(i + 1) =~= all.take(i as int).push(all[i as int]));
        }
        assert(all.take(all.len() as int) =~= all);
        Some(Loading::new(names))
    }

    /// Notes how a scrape went: a library that would not answer is dropped, so
    /// that the next scrape loads it anew.
    pub fn settle(&mut self, outcome: &ScrapeResult)
        ensures
            final(self).loaded == (*outcome is Ok),
            final(self).candidates == old(self).candidates,
    {
        self.loaded = match outcome {
            Ok(_) => true,
            Err(_) => false,
        };
    }
}

// ---------------------------------------------------------------------------
// Laws

proof fn lemma_decimal(n: nat)
    ensures
        decimal(n).len() > 0,
        forall|i: int| 0 <= i < decimal(n).len() ==> is_ascii_digit(#[trigger] decimal(n)[i]),
    decreases n,
{
    if n >= 10 {
        lemma_decimal(n / 10);
        let head = decimal(n / 10);
        assert forall|i: int| 0 <= i < decimal(n).len() implies is_ascii_digit(
            #[trigger] decimal(n)[i],
        ) by {
            if i < head.len() {
                assert(decimal(n)[i] == head[i]);
            }
        }
    }
}

proof fn lemma_fraction(part: nat, unit: nat)
    requires
        part < unit,
        unit == 1 || unit == 10 || unit == 100 || unit == 1000,
    ensures
        forall|i: int|
            0 <= i < fraction(part, unit).len() ==> is_ascii_digit(#[trigger] fraction(part, unit)[i]),
    decreases unit,
{
    if part > 0 && unit >= 10 {
        let next = unit / 10;
        lemma_fraction(part % next, next);
        let digit = part / next;
        assert(digit < 10) by (nonlinear_arith)
            requires
                digit == part / next,
                part < 10 * next,
                next > 0,
        ;
        let rest = fraction(part % next, next);
        assert forall|i: int| 0 <= i < fraction(part, unit).len() implies is_ascii_digit(
            #[trigger] fraction(part, unit)[i],
        ) by {
            if i > 0 {
                assert(fraction(part, unit)[i] == rest[i - 1]);
            }
        }
    }
}

/// Every numeral that is made of a driver's number denotes a number.
pub proof fn law_scaled_numbers_are_numerals(n: nat, unit: nat)
    requires
        unit == 1 || unit == 100 || unit == 1000,
    ensures
        is_numeral(scaled(n, unit)),
{
    let s = scaled(n, unit);
    let whole = decimal(n / unit);
    lemma_decimal(n / unit);
    let part = n % unit;
    lemma_fraction(part, unit);
    let tail = fraction(part, unit);
    assert forall|i: int| 0 <= i < s.len() implies !is_white(#[trigger] s[i]) by {
        if i < whole.len() {
            assert(s[i] == whole[i]);
            assert(is_ascii_digit(whole[i]));
        } else if i > whole.len() {
            assert(s[i] == tail[i - whole.len() - 1]);
            assert(is_ascii_digit(tail[i - whole.len() - 1]));
        }
    }
    assert(s[0] == whole[0]);
    assert(is_ascii_digit(whole[0]));
    assert(s.skip(0) =~= s);
    assert forall|i: int| 0 <= i < whole.len() implies Class::Digit.has(#[trigger] s[i]) by {
        assert(s[i] == whole[i]);
        assert(is_ascii_digit(whole[i]));
    }
    lemma_run_is(s, Class::Digit, whole.len());
    let rest = after(s, Class::Digit);
    if part == 0 {
        assert(rest =~= Seq::<char>::empty());
    } else {
        assert(rest =~= seq!['.'] + tail);
        let places = rest.skip(1);
        assert(places =~= tail);
        assert forall|i: int| 0 <= i < places.len() implies Class::Digit.has(#[trigger] places[i]) by {
            assert(is_ascii_digit(tail[i]));
        }
        lemma_run_is(places, Class::Digit, places.len());
        assert(after(places, Class::Digit) =~= Seq::<char>::empty());
    }
    assert(is_number(s));
}

/// Both calls answered the same, or neither of them answered.
pub open spec fn same_text(a: TextProbe, b: TextProbe) -> bool {
    (a.status == NVML_SUCCESS) == (b.status == NVML_SUCCESS) && (a.status == NVML_SUCCESS
        ==> a.buffer@ == b.buffer@)
}

/// Both calls answered the same, or neither of them answered.
pub open spec fn same_number(a: NumberProbe, b: NumberProbe) -> bool {
    (a.status == NVML_SUCCESS) == (b.status == NVML_SUCCESS) && (a.status == NVML_SUCCESS
        ==> a.value == b.value)
}

/// A failed call leaves nothing in a sample, whatever it wrote, and takes
/// nothing from what the other calls answered: two devices that differ only in
/// what failed calls left behind have the same report.
pub proof fn law_failed_calls_report_nothing(a: Probes, b: Probes, sample: DeviceSample)
    requires
        reports(sample, a),
        a.index == b.index,
        same_text(a.uuid, b.uuid),
        same_text(a.name, b.name),
        same_number(a.utilization_percent, b.utilization_percent),
        same_number(a.power_milliwatts, b.power_milliwatts),
        same_number(a.temperature_celsius, b.temperature_celsius),
        (a.memory.status == NVML_SUCCESS) == (b.memory.status == NVML_SUCCESS),
        a.memory.status == NVML_SUCCESS ==> a.memory.used == b.memory.used && a.memory.total
            == b.memory.total,
    ensures
        reports(sample, b),
        a.uuid.status != NVML_SUCCESS ==> sample.uuid is None,
        a.name.status != NVML_SUCCESS ==> sample.name is None,
        a.utilization_percent.status == NVML_SUCCESS <==> sample.utilization_ratio is Some,
        a.power_milliwatts.status == NVML_SUCCESS <==> sample.power_watts is Some,
        a.temperature_celsius.status == NVML_SUCCESS <==> sample.temperature_celsius is Some,
        a.memory.status == NVML_SUCCESS <==> sample.memory_used_bytes is Some,
        a.memory.status == NVML_SUCCESS <==> sample.memory_total_bytes is Some,
{
}

/// A percentage and a number of milliwatts are told exactly: the numeral is the
/// whole part and, where there is more, a point and the digits returned, which
/// make up the rest to the last hundredth or thousandth and end in no zero.
pub proof fn law_scaled_numbers_are_exact(n: nat, unit: nat) -> (digits: Seq<char>)
    requires
        unit == 100 || unit == 1000,
    ensures
        n % unit == 0 ==> scaled(n, unit) == decimal(n / unit),
        n % unit != 0 ==> {
            &&& scaled(n, unit) == decimal(n / unit) + seq!['.'] + digits
            &&& all_digits(digits)
            &&& 1 <= digits.len() <= 3
            &&& digits.last() != '0'
            &&& digits.len() == 1 ==> digits_value(digits) * (unit as int / 10) == n % unit
            &&& digits.len() == 2 ==> digits_value(digits) * (unit as int / 100) == n % unit
            &&& digits.len() == 3 ==> unit == 1000 && digits_value(digits) == n % unit
        },
{
    let part = n % unit;
    let digits = fraction(part, unit);
    lemma_fraction(part, unit);
    if part != 0 {
        reveal_with_fuel(fraction, 5);
        reveal_with_fuel(digits_value, 5);
        if unit == 100 {
            let (a, b) = (part / 10, part % 10);
            if b == 0 {
                assert(digits =~= seq![digit_char(a)]);
                lemma_value_of_one(a);
            } else {
                assert(digits =~= seq![digit_char(a), digit_char(b)]);
                lemma_value_of_two(a, b);
            }
        } else {
            let (a, b, c) = (part / 100, (part % 100) / 10, part % 10);
            assert((part % 100) % 10 == c);
            if b == 0 && c == 0 {
                assert(digits =~= seq![digit_char(a)]);
                lemma_value_of_one(a);
            } else if c == 0 {
                assert(digits =~= seq![digit_char(a), digit_char(b)]);
                lemma_value_of_two(a, b);
            } else {
                assert(digits =~= seq![digit_char(a), digit_char(b), digit_char(c)]);
                lemma_value_of_three(a, b, c);
            }
        }
    }
    digits
}

proof fn lemma_value_of_one(a: nat)
    requires
        a < 10,
    ensures
        digits_value(seq![digit_char(a)]) == a,
{
    let s = seq![digit_char(a)];
    assert(s.drop_last() =~= Seq::<char>::empty());
    assert(digits_value(s.drop_last()) == 0);
}

proof fn lemma_value_of_two(a: nat, b: nat)
    requires
        a < 10,
        b < 10,
    ensures
        digits_value(seq![digit_char(a), digit_char(b)]) == 10 * a + b,
{
    let s = seq![digit_char(a), digit_char(b)];
    assert(s.drop_last() =~= seq![digit_char(a)]);
    lemma_value_of_one(a);
}

proof fn lemma_value_of_three(a: nat, b: nat, c: nat)
    requires
        a < 10,
        b < 10,
        c < 10,
    ensures
        digits_value(seq![digit_char(a), digit_char(b), digit_char(c)]) == 100 * a + 10 * b + c,
{
    let s = seq![digit_char(a), digit_char(b), digit_char(c)];
    assert(s.drop_last() =~= seq![digit_char(a), digit_char(b)]);
    lemma_value_of_two(a, b);
}

/// A device's report tells utilization as a hundredth of the percentage that
/// was answered, power as a thousandth of the milliwatts, and temperature and
/// memory as they were answered; the index is the device's.
pub proof fn law_reports_are_in_base_units(sample: DeviceSample, probes: Probes)
    requires
        reports(sample, probes),
    ensures
        sample.index == probes.index,
        probes.utilization_percent.status == 0 ==> exact_text(sample.utilization_ratio) == Some(
            scaled(probes.utilization_percent.value as nat, 100),
        ),
        probes.power_milliwatts.status == 0 ==> exact_text(sample.power_watts) == Some(
            scaled(probes.power_milliwatts.value as nat, 1000),
        ),
        probes.temperature_celsius.status == 0 ==> exact_text(sample.temperature_celsius) == Some(
            decimal(probes.temperature_celsius.value as nat),
        ),
        probes.memory.status == 0 ==> sample.memory_used_bytes == Some(probes.memory.used)
            && sample.memory_total_bytes == Some(probes.memory.total),
        probes.utilization_percent.status != 0 ==> sample.utilization_ratio is None,
        probes.power_milliwatts.status != 0 ==> sample.power_watts is None,
        probes.temperature_celsius.status != 0 ==> sample.temperature_celsius is None,
        probes.memory.status != 0 ==> sample.memory_used_bytes is None
            && sample.memory_total_bytes is None,
{
}

/// A text of the driver ends at its terminator, and the last place of its
/// buffer is never part of it; a failed call gives none.
pub proof fn law_driver_texts_end_at_their_terminator(
    status: i32,
    text: Seq<u8>,
    rest: Seq<u8>,
    last: u8,
)
    requires
        forall|i: int| 0 <= i < text.len() ==> text[i] != 0,
        valid_utf8(text),
    ensures
        driver_text(0, text + seq![0u8] + rest + seq![last]) == Some(decode_utf8(text)),
        driver_text(0, text + seq![last]) == Some(decode_utf8(text)),
        status != 0 ==> driver_text(status, text + seq![0u8] + rest + seq![last]) is None,
{
    law_text_ends_at_the_first_zero(text, rest);
    assert((text + seq![0u8] + rest + seq![last]).drop_last() =~= text + seq![0u8] + rest);
    assert((text + seq![last]).drop_last() =~= text);
}

/// The devices of a scrape are all whose handles could be had, in their order.
pub proof fn law_reached_devices_are_reported(probes: Seq<Probes>)
    ensures
        reached(probes) == probes.filter(|probe: Probes| probe.reached),
    decreases probes.len(),
{
    reveal(Seq::filter);
    if probes.len() > 0 {
        law_reached_devices_are_reported(probes.drop_last());
    }
}

/// A symbol is a function where it is as wide as an address and was found.
pub proof fn law_symbols_are_found_functions(
    name: Seq<char>,
    width: usize,
    address_width: usize,
    found: bool,
)
    ensures
        symbol_refusal(name, width, address_width, found) is None <==> width == address_width
            && found,
{
}

/// A failed count is told with the status that the driver gave.
pub proof fn law_a_failed_count_tells_its_status(status: i32)
    ensures
        count_error(status) == "nvmlDeviceGetCount_v2 returned "@ + decimal_int(status as int),
{
}

/// A device bears the identity that the driver gave it: its own index, the
/// UUID that was read as one and the name that was read as one.
pub proof fn law_devices_bear_their_own_identity(
    sample: DeviceSample,
    probes: Probes,
    uuid: Seq<u8>,
    name: Seq<u8>,
    last: u8,
)
    requires
        reports(sample, probes),
        forall|i: int| 0 <= i < uuid.len() ==> uuid[i] != 0,
        forall|i: int| 0 <= i < name.len() ==> name[i] != 0,
        valid_utf8(uuid),
        valid_utf8(name),
    ensures
        sample.index == probes.index,
        probes.uuid.status == 0 && probes.uuid.buffer@ == uuid + seq![last] ==> text_view(
            sample.uuid,
        ) == Some(decode_utf8(uuid)),
        probes.name.status == 0 && probes.name.buffer@ == name + seq![last] ==> text_view(
            sample.name,
        ) == Some(decode_utf8(name)),
        probes.uuid.status != 0 ==> sample.uuid is None,
        probes.name.status != 0 ==> sample.name is None,
{
    law_driver_texts_end_at_their_terminator(0, uuid, Seq::empty(), last);
    law_driver_texts_end_at_their_terminator(0, name, Seq::empty(), last);
}

/// What is said of a symbol that does not do.
pub proof fn law_refused_symbols_say_why(
    name: Seq<char>,
    width: usize,
    address_width: usize,
    found: bool,
)
    ensures
        width != address_width ==> symbol_refusal(name, width, address_width, found) == Some(
            name + ": not a function pointer on this target"@,
        ),
        symbol_refusal(name, width, width, false) == Some(name + ": symbol not present"@),
{
}

} // verus!
