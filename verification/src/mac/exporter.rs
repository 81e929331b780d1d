//! One bounded memory, one reading, no invention.
//!
//! A completed reading may be served again, but only while it is young, and
//! always with its age. Past that it is not served at all: presenting the
//! measurement of one moment as that of another is what the exporter must
//! never do. Times are nanoseconds of a monotonic clock.
use crate::exposition::Figure;
use crate::mac::parse::{
    chosen, field_view, law_fields_were_printed, law_the_first_finite_line_is_read,
    law_the_package_line_is_preferred,
    package_labels, parse_powermetrics, power_lines_of, Reading,
};
use crate::mac::source::SourceError;
use crate::text::{cat3, text_view};
use vstd::prelude::*;

verus! {

/// How long a reading may still be served, in nanoseconds.
pub const MAX_READING_AGE: u64 = 500000000;

/// A completed frame of the sampler, with the time at which it was complete.
#[derive(Debug)]
pub struct SourceSample {
    pub text: String,
    pub completed_at: u64,
    /// The same time in Unix seconds, to three decimal places; nothing where
    /// the system's clock cannot be read.
    pub completed_unix_s: Option<String>,
}

/// The reading that a scrape served, and how old it was.
#[derive(Debug)]
pub struct Served {
    pub reading: Reading,
    pub completed_unix_s: Option<String>,
    pub age: u64,
}

/// What one scrape produced.
#[derive(Debug)]
pub struct Scrape {
    /// Whether it served a real reading.
    pub up: bool,
    /// How long it took.
    pub duration: u64,
    pub served: Option<Served>,
    /// Why there was no reading, as a phrase that is safe to publish.
    pub failure: Option<&'static str>,
}

/// The reading that was taken last.
#[derive(Debug)]
pub struct Cached {
    pub reading: Reading,
    pub completed_unix_s: Option<String>,
    pub completed_at: u64,
}

/// The time that has passed since `at`; none where `at` lies ahead.
pub open spec fn elapsed(at: u64, now: u64) -> u64 {
    if now >= at {
        (now - at) as u64
    } else {
        0
    }
}

fn since(at: u64, now: u64) -> (r: u64)
    ensures
        r == elapsed(at, now),
{
    if now >= at {
        now - at
    } else {
        0
    }
}

/// The exporter's memory.
#[derive(Debug)]
pub struct Exporter {
    pub host: Option<String>,
    pub max_age: u64,
    pub cached: Option<Cached>,
    pub last_up: Option<bool>,
    pub logged: usize,
}

/// What a cached reading is good for: it is served while it is young enough,
/// and never where no age is young enough.
pub open spec fn fresh(cached: Option<Cached>, max_age: u64, now: u64) -> Option<
    (Reading, Option<Seq<char>>, u64),
> {
    match cached {
        Some(cached) => if max_age > 0 && elapsed(cached.completed_at, now) <= max_age {
            Some(
                (
                    cached.reading,
                    text_view(cached.completed_unix_s),
                    elapsed(cached.completed_at, now),
                ),
            )
        } else {
            None
        },
        None => None,
    }
}

pub open spec fn served_view(served: Option<Served>) -> Option<
    (Reading, Option<Seq<char>>, u64),
> {
    match served {
        Some(served) => Some((served.reading, text_view(served.completed_unix_s), served.age)),
        None => None,
    }
}

/// Whether this is the reading of a sample whose lines denote these watts.
pub open spec fn reads(reading: Reading, text: Seq<char>, watts: Seq<Figure>) -> bool {
    &&& field_view(reading.package) == chosen(power_lines_of(text), watts, package_labels())
    &&& field_view(reading.cpu) == chosen(power_lines_of(text), watts, seq!["CPU Power"@])
    &&& field_view(reading.gpu) == chosen(power_lines_of(text), watts, seq!["GPU Power"@])
}

/// What is logged when a reading becomes available.
pub open spec fn up_line(reading: Reading) -> Seq<char> {
    if reading.package is None && reading.cpu is None && reading.gpu is None {
        "powermetrics ran but printed none of the power lines this exporter recognizes; publishing no power series"@
    } else {
        "powermetrics reading available"@
    }
}

/// What is logged when there is no reading any more.
pub open spec fn down_line(error: SourceError) -> Seq<char> {
    "no reading: "@ + error.reason() + " (publishing nothing)"@
}

fn copy_text(text: &Option<String>) -> (r: Option<String>)
    ensures
        text_view(r) == text_view(*text),
{
    match text {
        Some(text) => Some(text.clone()),
        None => None,
    }
}

impl Exporter {
    /// An exporter that has not scraped yet.
    pub fn new(host: Option<String>) -> (r: Exporter)
        ensures
            r.host == host,
            r.max_age == MAX_READING_AGE,
            r.cached is None,
            r.last_up is None,
            r.logged == 0,
    {
        Exporter::with_max_age(host, MAX_READING_AGE)
    }

    /// An exporter that serves a reading for this long. With no time at all,
    /// every scrape measures.
    pub fn with_max_age(host: Option<String>, max_age: u64) -> (r: Exporter)
        ensures
            r.host == host,
            r.max_age == max_age,
            r.cached is None,
            r.last_up is None,
            r.logged == 0,
    {
        Exporter { host, max_age, cached: None, last_up: None, logged: 0 }
    }

    /// How many changes were logged.
    pub fn state_log_count(&self) -> (r: usize)
        ensures
            r == self.logged,
    {
        self.logged
    }

    /// The host's name.
    pub fn host(&self) -> (r: Option<&str>)
        ensures
            crate::history::catalog::opt_text(r) == text_view(self.host),
    {
        match &self.host {
            Some(host) => Some(host.as_str()),
            None => None,
        }
    }

    /// How long a reading may be served.
    pub fn max_age(&self) -> (r: u64)
        ensures
            r == self.max_age,
    {
        self.max_age
    }

    /// The reading that was taken last, where it may still be served.
    pub fn fresh_reading(&self, now: u64) -> (r: Option<Served>)
        ensures
            served_view(r) == fresh(self.cached, self.max_age, now),
    {
        match &self.cached {
            Some(cached) => {
                let age = since(cached.completed_at, now);
                if self.max_age == 0 || age > self.max_age {
                    return None;
                }
                Some(
                    Served {
                        reading: cached.reading.copy(),
                        completed_unix_s: copy_text(&cached.completed_unix_s),
                        age,
                    },
                )
            },
            None => None,
        }
    }

    /// A scrape that needs no new sample. It logs nothing: the same source is
    /// still answering.
    pub fn reuse(&self, started: u64, now: u64) -> (r: Option<Scrape>)
        ensures
            match r {
                Some(scrape) => scrape.up && scrape.duration == elapsed(started, now)
                    && scrape.served is Some && served_view(scrape.served) == fresh(
                    self.cached,
                    self.max_age,
                    now,
                ) && scrape.failure is None,
                None => fresh(self.cached, self.max_age, now) is None,
            },
    {
        match self.fresh_reading(now) {
            Some(served) => Some(
                Scrape {
                    up: true,
                    duration: since(started, now),
                    served: Some(served),
                    failure: None,
                },
            ),
            None => None,
        }
    }

    /// Notes whether there was a reading, and gives the line to log: only a
    /// change is logged.
    fn note_state(&mut self, up: bool, line: String) -> (r: Option<String>)
        ensures
            final(self).last_up == Some(up),
            old(self).last_up == Some(up) ==> r is None && final(self).logged == old(self).logged,
            old(self).last_up != Some(up) ==> text_view(r) == Some(line@) && (old(self).logged
                < usize::MAX ==> final(self).logged == old(self).logged + 1),
            final(self).host == old(self).host,
            final(self).max_age == old(self).max_age,
            final(self).cached == old(self).cached,
    {
        let known = match self.last_up {
            Some(last) => last == up,
            None => false,
        };
        if known {
            return None;
        }
        self.last_up = Some(up);
        self.logged = self.logged.wrapping_add(1);
        Some(line)
    }

    /// Finishes a scrape that had to wait for the sampler: a frame becomes the
    /// reading that is served and kept, and a failure serves nothing, least of
    /// all what was kept before.
    pub fn finish(
        &mut self,
        outcome: &Result<SourceSample, SourceError>,
        watts: &Vec<Figure>,
        started: u64,
        now: u64,
    ) -> (r: (Scrape, Option<String>))
        requires
            outcome matches Ok(sample) ==> watts@.len() == power_lines_of(sample.text@).len(),
        ensures
            r.0.duration == elapsed(started, now),
            match outcome {
                Ok(sample) => {
                    &&& r.0.up
                    &&& r.0.failure is None
                    &&& r.0.served matches Some(served)
                    &&& reads(served.reading, sample.text@, watts@)
                    &&& text_view(served.completed_unix_s) == text_view(sample.completed_unix_s)
                    &&& served.age == elapsed(sample.completed_at, now)
                    &&& final(self).cached matches Some(cached)
                    &&& cached.reading == served.reading
                    &&& cached.completed_at == sample.completed_at
                    &&& text_view(cached.completed_unix_s) == text_view(sample.completed_unix_s)
                    &&& final(self).last_up == Some(true)
                    &&& text_view(r.1) == (if old(self).last_up == Some(true) {
                        None
                    } else {
                        Some(up_line(served.reading))
                    })
                },
                Err(error) => {
                    &&& !r.0.up
                    &&& r.0.served is None
                    &&& r.0.failure matches Some(phrase)
                    &&& phrase@ == error.phrase()
                    &&& final(self).cached == old(self).cached
                    &&& final(self).last_up == Some(false)
                    &&& text_view(r.1) == (if old(self).last_up == Some(false) {
                        None
                    } else {
                        Some(down_line(*error))
                    })
                },
            },
            r.1 is None ==> final(self).logged == old(self).logged,
            r.1 is Some && old(self).logged < usize::MAX ==> final(self).logged == old(self).logged
                + 1,
            final(self).host == old(self).host,
            final(self).max_age == old(self).max_age,
    {
        match outcome {
            Ok(sample) => {
                let reading = parse_powermetrics(sample.text.as_str(), watts);
                let line = if reading.is_empty() {
                    "powermetrics ran but printed none of the power lines this exporter recognizes; publishing no power series".to_owned()
                } else {
                    "powermetrics reading available".to_owned()
                };
                let cached = Cached {
                    reading: reading.copy(),
                    completed_unix_s: copy_text(&sample.completed_unix_s),
                    completed_at: sample.completed_at,
                };
                self.cached = Some(cached);
                let note = self.note_state(true, line);
                let served = Served {
                    reading,
                    completed_unix_s: copy_text(&sample.completed_unix_s),
                    age: since(sample.completed_at, now),
                };
                (
                    Scrape {
                        up: true,
                        duration: since(started, now),
                        served: Some(served),
                        failure: None,
                    },
                    note,
                )
            },
            Err(error) => {
                let detail = error.detail();
                let line = cat3("no reading: ", detail.as_str(), " (publishing nothing)");
                let note = self.note_state(false, line);
                (
                    Scrape {
                        up: false,
                        duration: since(started, now),
                        served: None,
                        failure: Some(error.category()),
                    },
                    note,
                )
            },
        }
    }
}

// ---------------------------------------------------------------------------
// Laws

/// A reading is served again only while it is young, with its true age.
pub proof fn law_stale_readings_are_never_served(cached: Option<Cached>, max_age: u64, now: u64)
    ensures
        fresh(cached, max_age, now) matches Some((_, _, age)) ==> age <= max_age && age == elapsed(
            cached->0.completed_at,
            now,
        ),
        cached is Some && elapsed(cached->0.completed_at, now) > max_age ==> fresh(
            cached,
            max_age,
            now,
        ) is None,
{
}

/// An exporter that serves a reading for no time at all measures on every
/// scrape, even at the very time at which the last reading was complete.
pub proof fn law_no_age_is_never_served(cached: Option<Cached>, max_age: u64, now: u64)
    requires
        max_age == 0,
    ensures
        fresh(cached, max_age, now) is None,
{
}

/// Two scrapes that lie further apart than a reading is served for never
/// serve the same one.
pub proof fn law_distant_scrapes_measure_again(
    cached: Option<Cached>,
    max_age: u64,
    now: u64,
    later: u64,
)
    requires
        fresh(cached, max_age, now) is Some,
        cached->0.completed_at <= now,
        now + max_age < later,
    ensures
        fresh(cached, max_age, later) is None,
{
}

/// By default a reading is served again for half a second: up to and at
/// 500,000,000 nanoseconds after it was complete, as it was taken and with the
/// nanoseconds that have passed as its age, and not later.
pub proof fn law_readings_are_served_for_half_a_second(cached: Cached, now: u64)
    requires
        cached.completed_at <= now,
    ensures
        now - cached.completed_at <= 500_000_000 ==> fresh(Some(cached), MAX_READING_AGE, now)
            == Some(
            (
                cached.reading,
                text_view(cached.completed_unix_s),
                (now - cached.completed_at) as u64,
            ),
        ),
        now - cached.completed_at > 500_000_000 ==> fresh(Some(cached), MAX_READING_AGE, now)
            is None,
        fresh(None, MAX_READING_AGE, now) is None,
{
}

/// A reading takes the CPU's and the GPU's power from the first finite line
/// that is labelled for each.
pub proof fn law_readings_take_the_first_line(
    reading: Reading,
    text: Seq<char>,
    watts: Seq<Figure>,
    p: int,
)
    requires
        reads(reading, text, watts),
        0 <= p < power_lines_of(text).len(),
        watts[p].measures(),
    ensures
        ({
            let lines = power_lines_of(text);
            &&& lines[p].label == "CPU Power"@ && (forall|j: int|
                0 <= j < p ==> !((#[trigger] lines[j]).label == "CPU Power"@
                    && watts[j].measures())) ==> field_view(reading.cpu) == Some(
                (watts[p], "CPU Power"@),
            )
            &&& lines[p].label == "GPU Power"@ && (forall|j: int|
                0 <= j < p ==> !((#[trigger] lines[j]).label == "GPU Power"@
                    && watts[j].measures())) ==> field_view(reading.gpu) == Some(
                (watts[p], "GPU Power"@),
            )
            &&& lines[p].label == "Package Power"@ && (forall|j: int|
                0 <= j < p ==> !((#[trigger] lines[j]).label == "Package Power"@
                    && watts[j].measures())) ==> field_view(reading.package) == Some(
                (watts[p], "Package Power"@),
            )
        }),
{
    let lines = power_lines_of(text);
    law_the_package_line_is_preferred(lines, watts, p);
    if lines[p].label == "CPU Power"@ && forall|j: int|
        0 <= j < p ==> !((#[trigger] lines[j]).label == "CPU Power"@ && watts[j].measures()) {
        law_the_first_finite_line_is_read(lines, watts, "CPU Power"@, p);
    }
    if lines[p].label == "GPU Power"@ && forall|j: int|
        0 <= j < p ==> !((#[trigger] lines[j]).label == "GPU Power"@ && watts[j].measures()) {
        law_the_first_finite_line_is_read(lines, watts, "GPU Power"@, p);
    }
}

/// Time that passes is counted from its start, and a start that lies ahead
/// counts as now.
pub proof fn law_time_passes_from_its_start(at: u64, now: u64)
    ensures
        now >= at ==> at + elapsed(at, now) == now,
        now < at ==> elapsed(at, now) == 0,
{
}

/// A reading is served again exactly up to the age that was set, whatever that
/// is, and a later scrape finds it older by the time that passed.
pub proof fn law_readings_are_served_up_to_their_age(
    cached: Cached,
    max_age: u64,
    now: u64,
    later: u64,
)
    requires
        cached.completed_at <= now <= later,
        max_age > 0,
    ensures
        fresh(Some(cached), max_age, now) is Some <==> now <= cached.completed_at + max_age,
        fresh(Some(cached), max_age, later) matches Some((reading, unix, age)) ==> (fresh(
            Some(cached),
            max_age,
            now,
        ) matches Some((first, first_unix, first_age)) && reading == first && unix == first_unix
            && reading == cached.reading && age - first_age == later - now),
{
}

/// What is logged when readings come and when they stop.
pub proof fn law_changes_are_told_apart(reading: Reading, error: SourceError)
    ensures
        reading.package is Some || reading.cpu is Some || reading.gpu is Some ==> up_line(reading)
            == "powermetrics reading available"@,
        reading.package is None && reading.cpu is None && reading.gpu is None ==> up_line(reading)
            == "powermetrics ran but printed none of the power lines this exporter recognizes; publishing no power series"@,
        down_line(error) == "no reading: "@ + error.reason() + " (publishing nothing)"@,
{
}

/// A power that no finite line is labelled for is absent from the reading,
/// whatever other lines there are.
pub proof fn law_absent_powers_stay_absent(reading: Reading, text: Seq<char>, watts: Seq<Figure>)
    requires
        reads(reading, text, watts),
    ensures
        ({
            let lines = power_lines_of(text);
            let absent = |label: Seq<char>|
                forall|j: int|
                    0 <= j < lines.len() ==> !((#[trigger] lines[j]).label == label
                        && watts[j].measures());
            &&& absent("CPU Power"@) ==> reading.cpu is None
            &&& absent("GPU Power"@) ==> reading.gpu is None
            &&& absent("Package Power"@) && absent("Combined Power (CPU + GPU + ANE)"@) && absent(
                "Intel energy model derived package power (CPUs+GT+SA)"@,
            ) ==> reading.package is None
        }),
{
    let lines = power_lines_of(text);
    law_fields_were_printed(lines, watts, package_labels());
    law_fields_were_printed(lines, watts, seq!["CPU Power"@]);
    law_fields_were_printed(lines, watts, seq!["GPU Power"@]);
}

} // verus!
