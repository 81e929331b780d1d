//! Where a power reading comes from: frames of a long-lived sampler process,
//! and why there is none.
use crate::text::{
    all_digits, cat2, cat3, chars_of, decimal, decimal_of, digit_char, digits_value, pieces, split,
    starts, starts_with, text_of, text_view, trim, trimmed, views,
};
use vstd::prelude::*;
use vstd::slice::slice_subrange;
use vstd::utf8::encode_utf8;

verus! {

// ---------------------------------------------------------------------------
// Failures

/// Why a scrape got no reading. The detail is for the log; only the category
/// ever reaches a response.
#[derive(Debug)]
pub enum SourceError {
    /// The process could not be started.
    Spawn(String),
    /// Its output could not be collected.
    Io(String),
    /// It ran and exited with a failure.
    Exit { status: String, stderr: String },
    /// No completed frame arrived within so many milliseconds.
    Timeout(u64),
    /// Its output was not UTF-8.
    NonUtf8,
}

/// Milliseconds as seconds with three decimal places.
pub open spec fn seconds_text(millis: nat) -> Seq<char> {
    decimal(millis / 1000) + seq![
        '.',
        digit_char((millis / 100) % 10),
        digit_char((millis / 10) % 10),
        digit_char(millis % 10),
    ]
}

fn digit(d: u64) -> (r: char)
    requires
        d < 10,
    ensures
        r == digit_char(d as nat),
{
    ((d as u8) + 48) as char
}

/// Milliseconds as seconds with three decimal places.
pub fn seconds_of(millis: u64) -> (r: String)
    ensures
        r@ == seconds_text(millis as nat),
{
    let mut r = decimal_of(millis / 1000);
    r.push('.');
    r.push(digit((millis / 100) % 10));
    r.push(digit((millis / 10) % 10));
    r.push(digit(millis % 10));
    assert(r@ =~= seconds_text(millis as nat));
    r
}

impl SourceError {
    /// The published phrase: it names the class of failure and nothing that
    /// was read from the environment.
    pub open spec fn phrase(&self) -> Seq<char> {
        match self {
            SourceError::Spawn(_) => "the powermetrics process could not be started"@,
            SourceError::Io(_) => "reading the powermetrics output failed"@,
            SourceError::Exit { .. } => "the powermetrics process exited non-zero"@,
            SourceError::Timeout(_) =>
                "powermetrics did not produce a completed frame in time"@,
            SourceError::NonUtf8 => "the powermetrics output was not UTF-8"@,
        }
    }

    /// The full reason.
    pub open spec fn reason(&self) -> Seq<char> {
        match self {
            SourceError::Spawn(error) => "spawn failed: "@ + error@,
            SourceError::Io(error) => "io error: "@ + error@,
            SourceError::Exit { status, stderr } => if stderr@.len() == 0 {
                status@
            } else {
                status@ + " — "@ + stderr@
            },
            SourceError::Timeout(millis) => "no completed frame within "@ + seconds_text(
                *millis as nat,
            ) + " s"@,
            SourceError::NonUtf8 => "output was not UTF-8"@,
        }
    }

    /// A fixed phrase that is safe to publish.
    pub fn category(&self) -> (r: &'static str)
        ensures
            r@ == self.phrase(),
    {
        match self {
            SourceError::Spawn(_) => "the powermetrics process could not be started",
            SourceError::Io(_) => "reading the powermetrics output failed",
            SourceError::Exit { .. } => "the powermetrics process exited non-zero",
            SourceError::Timeout(_) => "powermetrics did not produce a completed frame in time",
            SourceError::NonUtf8 => "the powermetrics output was not UTF-8",
        }
    }

    /// The full reason, for the log only.
    pub fn detail(&self) -> (r: String)
        ensures
            r@ == self.reason(),
    {
        match self {
            SourceError::Spawn(error) => cat2("spawn failed: ", error.as_str()),
            SourceError::Io(error) => cat2("io error: ", error.as_str()),
            SourceError::Exit { status, stderr } => {
                let text = chars_of(stderr.as_str());
                if text.len() == 0 {
                    status.clone()
                } else {
                    cat3(status.as_str(), " — ", stderr.as_str())
                }
            },
            SourceError::Timeout(millis) => {
                let seconds = seconds_of(*millis);
                cat3("no completed frame within ", seconds.as_str(), " s")
            },
            SourceError::NonUtf8 => "output was not UTF-8".to_owned(),
        }
    }

    /// A copy of the error.
    pub fn copy(&self) -> (r: SourceError)
        ensures
            r == *self,
    {
        match self {
            SourceError::Spawn(error) => SourceError::Spawn(error.clone()),
            SourceError::Io(error) => SourceError::Io(error.clone()),
            SourceError::Exit { status, stderr } => SourceError::Exit {
                status: status.clone(),
                stderr: stderr.clone(),
            },
            SourceError::Timeout(millis) => SourceError::Timeout(*millis),
            SourceError::NonUtf8 => SourceError::NonUtf8,
        }
    }
}

/// What the sampler's exit means: it was to run for as long as the exporter
/// does.
pub fn exited(success: bool, status: &str, stderr: &str) -> (r: SourceError)
    ensures
        if success {
            r matches SourceError::Io(error) && error@ == "persistent powermetrics sampler exited"@
        } else {
            r matches SourceError::Exit { status: s, stderr: e } && s@ == status@ && e@ == stderr@
        },
{
    if success {
        SourceError::Io("persistent powermetrics sampler exited".to_owned())
    } else {
        SourceError::Exit { status: status.to_owned(), stderr: stderr.to_owned() }
    }
}

// ---------------------------------------------------------------------------
// The sampler

/// The sampler's settings: the width of a frame, and how long a scrape waits
/// for one.
#[derive(Debug)]
pub struct Powermetrics {
    pub sample_ms: u64,
    pub budget_ms: u64,
}

/// The default width of a frame.
pub const DEFAULT_SAMPLE_MS: u64 = 200;

/// The sampler's program, by its absolute path: it is never looked up.
pub const PROGRAM: &'static str = "/usr/bin/powermetrics";

/// How long a scrape waits for a completed frame.
pub const MAX_BUDGET_MS: u64 = 900;

/// What a frame may be late before the sampler counts as stalled.
pub const STALL_ALLOWANCE_MS: u64 = 3000;

/// How large a frame may grow.
pub const MAX_FRAME_BYTES: usize = 1048576;

/// The arguments of a sampler of frames this wide.
pub open spec fn sampler_arguments(sample_ms: nat) -> Seq<Seq<char>> {
    seq![
        "--buffer-size"@,
        "1"@,
        "--samplers"@,
        "cpu_power,gpu_power"@,
        "-n"@,
        "-1"@,
        "-i"@,
        decimal(sample_ms),
    ]
}

impl Powermetrics {
    /// A sampler of frames this wide. What a scrape waits does not depend on
    /// it.
    pub fn new(sample_ms: u64) -> (r: Powermetrics)
        ensures
            r.sample_ms == sample_ms,
            r.budget_ms == MAX_BUDGET_MS,
    {
        Powermetrics { sample_ms, budget_ms: MAX_BUDGET_MS }
    }

    /// The arguments that the sampler is started with.
    pub fn arguments(&self) -> (r: Vec<String>)
        ensures
            r.deep_view() == sampler_arguments(self.sample_ms as nat),
    {
        let mut r: Vec<String> = Vec::new();
        r.push("--buffer-size".to_owned());
        r.push("1".to_owned());
        r.push("--samplers".to_owned());
        r.push("cpu_power,gpu_power".to_owned());
        r.push("-n".to_owned());
        r.push("-1".to_owned());
        r.push("-i".to_owned());
        r.push(decimal_of(self.sample_ms));
        assert(r.deep_view() =~= sampler_arguments(self.sample_ms as nat));
        r
    }

    /// How long the sampler may be silent before it counts as stalled.
    pub fn stall_budget_ms(&self) -> (r: u64)
        ensures
            r == (if self.sample_ms + STALL_ALLOWANCE_MS <= u64::MAX {
                self.sample_ms + STALL_ALLOWANCE_MS
            } else {
                u64::MAX as int
            }),
    {
        if self.sample_ms <= u64::MAX - STALL_ALLOWANCE_MS {
            self.sample_ms + STALL_ALLOWANCE_MS
        } else {
            u64::MAX
        }
    }
}

/// What a scrape does with what the sampler published last.
#[derive(Debug, Clone, Copy, PartialEq, Eq, Structural)]
pub enum Wait {
    /// It serves the frame.
    Serve,
    /// It fails as the sampler did.
    Fail,
    /// It waits for the next publication.
    Again,
}

/// A frame is served once: the next scrape waits for a newer one.
pub open spec fn wait_for(published: Option<bool>, generation: int, served: int) -> Wait {
    match published {
        Some(true) => if generation > served {
            Wait::Serve
        } else {
            Wait::Again
        },
        Some(false) => Wait::Fail,
        None => Wait::Again,
    }
}

/// What a scrape does, given whether the last publication is a frame, its
/// generation, and the generation of the frame that was served last.
pub fn next_wait(published: Option<bool>, generation: u64, served: u64) -> (r: Wait)
    ensures
        r == wait_for(published, generation as int, served as int),
{
    match published {
        Some(true) => if generation > served {
            Wait::Serve
        } else {
            Wait::Again
        },
        Some(false) => Wait::Fail,
        None => Wait::Again,
    }
}

// ---------------------------------------------------------------------------
// Frames

/// How the first line of a frame starts.
pub const FRAME_HEADER: &'static str = "*** Sampled system activity (";

/// Puts the sampler's lines together to frames. A frame is complete when the
/// next one starts.
#[derive(Debug)]
pub struct FrameAssembler {
    pub current: Option<String>,
}

/// What a line makes of the frame in progress: the frame after it, and what
/// comes out.
pub open spec fn frame_step(current: Option<Seq<char>>, line: Seq<char>) -> (
    Option<Seq<char>>,
    Result<Option<Seq<char>>, Seq<char>>,
) {
    if starts(line, FRAME_HEADER@) {
        (Some(line + seq!['\n']), Ok(current))
    } else {
        match current {
            None => (None, Ok(None)),
            Some(frame) => if encode_utf8(frame).len() + encode_utf8(line).len() + 1
                > MAX_FRAME_BYTES {
                (current, Err("powermetrics sample exceeded the frame limit"@))
            } else {
                (Some(frame + line + seq!['\n']), Ok(None))
            },
        }
    }
}

/// What came of a line.
pub open spec fn frame_result(r: Result<Option<String>, SourceError>) -> Result<
    Option<Seq<char>>,
    Seq<char>,
> {
    match r {
        Ok(frame) => Ok(text_view(frame)),
        Err(SourceError::Io(error)) => Err(error@),
        Err(_) => Err(Seq::empty()),
    }
}

impl FrameAssembler {
    /// No frame is in progress.
    pub fn new() -> (r: FrameAssembler)
        ensures
            r.current is None,
    {
        FrameAssembler { current: None }
    }

    /// Takes one line, and gives the frame that it completes.
    pub fn push(&mut self, line: &str) -> (r: Result<Option<String>, SourceError>)
        ensures
            (text_view(final(self).current), frame_result(r)) == frame_step(
                text_view(old(self).current),
                line@,
            ),
            r matches Err(error) ==> error is Io,
    {
        let mut held: Option<String> = None;
        std::mem::swap(&mut held, &mut self.current);
        if starts_with(line, FRAME_HEADER) {
            let mut frame = line.to_owned();
            frame.push('\n');
            assert(frame@ =~= line@ + seq!['\n']);
            self.current = Some(frame);
            return Ok(held);
        }
        match held {
            None => {
                self.current = None;
                Ok(None)
            },
            Some(mut frame) => {
                let size: usize = frame.as_str().as_bytes().len().saturating_add(
                    line.as_bytes().len(),
                ).saturating_add(1);
                if size > MAX_FRAME_BYTES {
                    self.current = Some(frame);
                    return Err(
                        SourceError::Io(
                            "powermetrics sample exceeded the frame limit".to_owned(),
                        ),
                    );
                }
                let ghost before = frame@;
                frame.append(line);
                frame.push('\n');
                assert(frame@ =~= before + line@ + seq!['\n']);
                self.current = Some(frame);
                Ok(None)
            },
        }
    }
}

/// What happens to a running sampler.
#[derive(Debug)]
pub enum Event {
    /// It printed a line.
    Line(String),
    /// It was silent for longer than it may be.
    Stalled,
    /// Its output was not UTF-8.
    Garbled,
    /// Its output could not be read.
    Broken(String),
    /// Its output ended.
    Ended,
}

/// What is done about it.
#[derive(Debug)]
pub enum Action {
    /// Nothing: the next event is awaited.
    Go,
    /// The frame is published.
    Publish(String),
    /// The sampler is stopped, and this is published.
    Stop(SourceError),
    /// The sampler's exit is awaited.
    Reap,
}

impl FrameAssembler {
    /// Takes one event of a sampler that may be silent for so long.
    pub fn step(&mut self, event: &Event, stall_ms: u64) -> (r: Action)
        ensures
            match event {
                Event::Line(line) => {
                    let (next, out) = frame_step(text_view(old(self).current), line@);
                    &&& text_view(final(self).current) == next
                    &&& match out {
                        Ok(Some(frame)) => r matches Action::Publish(text) && text@ == frame,
                        Ok(None) => r is Go,
                        Err(message) => r matches Action::Stop(SourceError::Io(error)) && error@
                            == message,
                    }
                },
                Event::Stalled => r == Action::Stop(SourceError::Timeout(stall_ms)) && *final(self)
                    == *old(self),
                Event::Garbled => r == Action::Stop(SourceError::NonUtf8) && *final(self) == *old(self),
                Event::Broken(error) => r == Action::Stop(SourceError::Io(*error)) && *final(self)
                    == *old(self),
                Event::Ended => r is Reap && *final(self) == *old(self),
            },
    {
        match event {
            Event::Line(line) => match self.push(line.as_str()) {
                Ok(Some(frame)) => Action::Publish(frame),
                Ok(None) => Action::Go,
                Err(error) => Action::Stop(error),
            },
            Event::Stalled => Action::Stop(SourceError::Timeout(stall_ms)),
            Event::Garbled => Action::Stop(SourceError::NonUtf8),
            Event::Broken(error) => Action::Stop(SourceError::Io(error.clone())),
            Event::Ended => Action::Reap,
        }
    }
}

// ---------------------------------------------------------------------------
// Standard error

/// How many characters of the sampler's standard error are kept.
pub const MAX_LINE: usize = 200;

/// The first of these lines that is not blank, trimmed.
pub open spec fn first_black(lines: Seq<Seq<char>>) -> Seq<char>
    decreases lines.len(),
{
    if lines.len() == 0 {
        Seq::empty()
    } else if trimmed(lines[0]).len() > 0 {
        trimmed(lines[0])
    } else {
        first_black(lines.skip(1))
    }
}

/// A line, cut behind its first characters where it is longer than that.
pub open spec fn clipped(line: Seq<char>) -> Seq<char> {
    if line.len() > MAX_LINE {
        line.take(MAX_LINE as int) + seq!['…']
    } else {
        line
    }
}

/// The first line of a text that is not blank, for the log.
pub fn first_line(text: &str) -> (r: String)
    ensures
        r@ == clipped(first_black(pieces(text@, '\n'))),
{
    let chars = chars_of(text);
    let lines = split(chars.as_slice(), '\n');
    let ghost all = pieces(text@, '\n');
    assert(all.skip(0) =~= all);
    let mut i: usize = 0;
    while i < lines.len()
        invariant
            i <= lines@.len(),
            views(lines@) == all,
            all == pieces(text@, '\n'),
            first_black(all) == first_black(all.skip(i as int)),
        decreases lines@.len() - i,
    {
        let ghost rest = all.skip(i as int);
        assert(rest[0] == lines@[i as int]@);
        assert(rest.skip(1) =~= all.skip(i + 1));
        let line = trim(lines[i].as_slice());
        if line.len() > 0 {
            if line.len() > MAX_LINE {
                let mut r = text_of(slice_subrange(line, 0, MAX_LINE));
                r.push('…');
                assert(line@.subrange(0, MAX_LINE as int) =~= line@.take(MAX_LINE as int));
                assert(r@ =~= clipped(line@));
                return r;
            }
            return text_of(line);
        }
        i += 1;
    }
    assert(all.skip(all.len() as int) =~= Seq::<Seq<char>>::empty());
    String::new()
}

// ---------------------------------------------------------------------------
// Replay

/// A source that replays recorded responses in order, then repeats the last.
/// It measures nothing.
#[derive(Debug)]
pub struct RecordedSource {
    pub responses: Vec<Result<String, SourceError>>,
    pub next: usize,
    pub calls: usize,
}

/// The place of the response to a call.
pub open spec fn replayed(len: int, next: int) -> int {
    if next < len {
        next
    } else {
        len - 1
    }
}

fn copy_response(response: &Result<String, SourceError>) -> (r: Result<String, SourceError>)
    ensures
        r == *response,
{
    match response {
        Ok(text) => Ok(text.clone()),
        Err(error) => Err(error.copy()),
    }
}

impl RecordedSource {
    pub open spec fn wf(&self) -> bool {
        self.next <= self.responses@.len()
    }

    /// A source that replays these responses.
    pub fn new(responses: Vec<Result<String, SourceError>>) -> (r: RecordedSource)
        ensures
            r.wf(),
            r.responses == responses,
            r.next == 0,
            r.calls == 0,
    {
        RecordedSource { responses, next: 0, calls: 0 }
    }

    /// A source that always yields this text.
    pub fn text(text: &str) -> (r: RecordedSource)
        ensures
            r.wf(),
            r.next == 0,
            r.calls == 0,
            r.responses@.len() == 1,
            r.responses@[0] matches Ok(t) && t@ == text@,
    {
        let mut responses: Vec<Result<String, SourceError>> = Vec::new();
        responses.push(Ok(text.to_owned()));
        RecordedSource::new(responses)
    }

    /// A source that always fails as a run without privileges does.
    pub fn not_root() -> (r: RecordedSource)
        ensures
            r.wf(),
            r.next == 0,
            r.calls == 0,
            r.responses@.len() == 1,
            r.responses@[0] matches Err(SourceError::Exit { status, stderr }) && status@
                == "exit status: 1"@ && stderr@ == "powermetrics must be invoked as the superuser"@,
    {
        let mut responses: Vec<Result<String, SourceError>> = Vec::new();
        responses.push(
            Err(
                SourceError::Exit {
                    status: "exit status: 1".to_owned(),
                    stderr: "powermetrics must be invoked as the superuser".to_owned(),
                },
            ),
        );
        RecordedSource::new(responses)
    }

    /// How many samples were taken.
    pub fn calls(&self) -> (r: usize)
        ensures
            r == self.calls,
    {
        self.calls
    }

    /// Takes the next response.
    pub fn sample(&mut self) -> (r: Result<String, SourceError>)
        requires
            old(self).wf(),
        ensures
            final(self).wf(),
            final(self).responses == old(self).responses,
            final(self).next == (if old(self).next < old(self).responses@.len() {
                old(self).next + 1
            } else {
                old(self).next as int
            }),
            old(self).calls < usize::MAX ==> final(self).calls == old(self).calls + 1,
            if old(self).responses@.len() > 0 {
                r == old(self).responses@[replayed(
                    old(self).responses@.len() as int,
                    old(self).next as int,
                )]
            } else {
                r matches Err(SourceError::Spawn(error)) && error@ == "no recorded responses"@
            },
    {
        self.calls = self.calls.wrapping_add(1);
        let len: usize = self.responses.len();
        if self.next < len {
            let at: usize = self.next;
            self.next = at + 1;
            copy_response(&self.responses[at])
        } else if len > 0 {
            copy_response(&self.responses[len - 1])
        } else {
            Err(SourceError::Spawn("no recorded responses".to_owned()))
        }
    }
}

// ---------------------------------------------------------------------------
// Laws

/// What is published of a failure does not depend on anything that was read
/// from the environment.
pub proof fn law_categories_quote_nothing(a: SourceError, b: SourceError)
    requires
        match (a, b) {
            (SourceError::Spawn(_), SourceError::Spawn(_)) => true,
            (SourceError::Io(_), SourceError::Io(_)) => true,
            (SourceError::Exit { .. }, SourceError::Exit { .. }) => true,
            (SourceError::Timeout(_), SourceError::Timeout(_)) => true,
            (SourceError::NonUtf8, SourceError::NonUtf8) => true,
            _ => false,
        },
    ensures
        a.phrase() == b.phrase(),
{
}

/// A frame that was served is not served again: a later scrape waits for a
/// newer one.
pub proof fn law_frames_are_served_once(published: Option<bool>, generation: int, served: int)
    ensures
        wait_for(published, generation, served) == Wait::Serve ==> wait_for(
            published,
            generation,
            generation,
        ) == Wait::Again,
{
}

/// Only a completed frame comes out: what does is the frame in progress, and
/// it does so exactly when the next frame's first line arrives.
pub proof fn law_only_completed_frames_come_out(current: Option<Seq<char>>, line: Seq<char>)
    ensures
        frame_step(current, line).1 matches Ok(Some(frame)) ==> current == Some(frame) && starts(
            line,
            FRAME_HEADER@,
        ),
        starts(line, FRAME_HEADER@) ==> frame_step(current, line) == (
            Some(line + seq!['\n']),
            Ok::<Option<Seq<char>>, Seq<char>>(current),
        ),
{
}

/// What precedes the first frame is dropped.
pub proof fn law_preambles_are_dropped(line: Seq<char>)
    requires
        !starts(line, FRAME_HEADER@),
    ensures
        frame_step(None, line) == (
            None::<Seq<char>>,
            Ok::<Option<Seq<char>>, Seq<char>>(None),
        ),
{
}

proof fn lemma_encode_add(a: Seq<char>, b: Seq<char>)
    ensures
        encode_utf8(a + b) == encode_utf8(a) + encode_utf8(b),
    decreases a.len(),
{
    if a.len() == 0 {
        assert(a + b =~= b);
        assert(encode_utf8(a) + encode_utf8(b) =~= encode_utf8(b));
    } else {
        lemma_encode_add(a.drop_first(), b);
        assert((a + b).drop_first() =~= a.drop_first() + b);
        assert(encode_utf8(a + b) =~= encode_utf8(a) + encode_utf8(b));
    }
}

/// A line is only ever added to a frame that stays within the limit with it,
/// and a line that would outgrow it is refused.
pub proof fn law_frames_are_bounded(frame: Seq<char>, line: Seq<char>)
    requires
        !starts(line, FRAME_HEADER@),
    ensures
        match frame_step(Some(frame), line) {
            (Some(next), Ok(_)) => next == frame + line + seq!['\n'] && encode_utf8(next).len()
                <= MAX_FRAME_BYTES,
            (next, Err(_)) => next == Some(frame) && encode_utf8(frame + line + seq!['\n']).len()
                > MAX_FRAME_BYTES,
            _ => false,
        },
{
    lemma_encode_add(frame, line);
    lemma_encode_add(frame + line, seq!['\n']);
    assert(seq!['\n'].drop_first() =~= Seq::<char>::empty());
    reveal_with_fuel(encode_utf8, 2);
    assert(encode_utf8(seq!['\n']).len() == 1);
}

/// What is logged of standard error is bounded.
pub proof fn law_logged_lines_are_bounded(line: Seq<char>)
    ensures
        clipped(line).len() <= MAX_LINE + 1,
{
}

/// Milliseconds are told as seconds with exactly three places: the whole
/// seconds, a point, and the milliseconds that are left.
pub proof fn law_seconds_have_three_places(millis: nat)
    ensures
        ({
            let text = seconds_text(millis);
            let whole = decimal(millis / 1000);
            let places = text.skip(whole.len() as int + 1);
            &&& text.take(whole.len() as int) == whole
            &&& text[whole.len() as int] == '.'
            &&& places.len() == 3
            &&& all_digits(places)
            &&& digits_value(places) == millis % 1000
        }),
{
    let text = seconds_text(millis);
    let whole = decimal(millis / 1000);
    let (a, b, c) = ((millis / 100) % 10, (millis / 10) % 10, millis % 10);
    let places = text.skip(whole.len() as int + 1);
    assert(text.take(whole.len() as int) =~= whole);
    assert(places =~= seq![digit_char(a), digit_char(b), digit_char(c)]);
    lemma_three_digits(a, b, c);
    lemma_thousandths(millis);
}

proof fn lemma_thousandths(millis: nat)
    ensures
        millis % 1000 == 100 * ((millis / 100) % 10) + 10 * ((millis / 10) % 10) + millis % 10,
{
    let (q, r) = (millis / 10, millis % 10);
    let (p, s) = (q / 10, q % 10);
    assert(millis == 10 * q + r);
    assert(q == 10 * p + s);
    assert(millis / 100 == p);
    let (o, t) = (p / 10, p % 10);
    assert(p == 10 * o + t);
    assert(millis == 1000 * o + 100 * t + 10 * s + r);
}

proof fn lemma_three_digits(a: nat, b: nat, c: nat)
    requires
        a < 10,
        b < 10,
        c < 10,
    ensures
        all_digits(seq![digit_char(a), digit_char(b), digit_char(c)]),
        digits_value(seq![digit_char(a), digit_char(b), digit_char(c)]) == 100 * a + 10 * b + c,
{
    let three = seq![digit_char(a), digit_char(b), digit_char(c)];
    let two = seq![digit_char(a), digit_char(b)];
    let one = seq![digit_char(a)];
    assert(three.drop_last() =~= two);
    assert(two.drop_last() =~= one);
    assert(one.drop_last() =~= Seq::<char>::empty());
    assert(digits_value(Seq::<char>::empty()) == 0);
    assert(one.last() as int == a + 48);
    assert(digits_value(one) == a);
    assert(digits_value(two) == 10 * a + b);
}

/// What is published of each class of failure, and that no two classes are
/// told alike.
pub proof fn law_failures_are_told_by_their_class(
    text: String,
    other: String,
    millis: u64,
)
    ensures
        SourceError::Spawn(text).phrase() == "the powermetrics process could not be started"@,
        SourceError::Io(text).phrase() == "reading the powermetrics output failed"@,
        (SourceError::Exit { status: text, stderr: other }).phrase()
            == "the powermetrics process exited non-zero"@,
        SourceError::Timeout(millis).phrase()
            == "powermetrics did not produce a completed frame in time"@,
        SourceError::NonUtf8.phrase() == "the powermetrics output was not UTF-8"@,
        SourceError::Spawn(text).reason() == "spawn failed: "@ + text@,
        SourceError::Io(text).reason() == "io error: "@ + text@,
        SourceError::Timeout(millis).reason() == "no completed frame within "@ + seconds_text(
            millis as nat,
        ) + " s"@,
        other@.len() == 0 ==> (SourceError::Exit { status: text, stderr: other }).reason() == text@,
        other@.len() > 0 ==> (SourceError::Exit { status: text, stderr: other }).reason() == text@
            + " — "@ + other@,
{
}

/// The sampler is asked for CPU and GPU power, without an end, unbuffered, and
/// for frames of the width that was set.
pub proof fn law_the_sampler_runs_without_end(sample_ms: nat)
    ensures
        sampler_arguments(sample_ms) == seq!["--buffer-size"@, "1"@] + seq![
            "--samplers"@,
            "cpu_power,gpu_power"@,
        ] + seq!["-n"@, "-1"@] + seq!["-i"@, decimal(sample_ms)],
        PROGRAM@ == "/usr/bin/powermetrics"@,
        MAX_BUDGET_MS == 900,
        STALL_ALLOWANCE_MS == 3000,
{
    assert(sampler_arguments(sample_ms) =~= seq!["--buffer-size"@, "1"@] + seq![
        "--samplers"@,
        "cpu_power,gpu_power"@,
    ] + seq!["-n"@, "-1"@] + seq!["-i"@, decimal(sample_ms)]);
}

/// A scrape serves a frame that is newer than the one served last, fails as the
/// sampler did, and waits otherwise.
pub proof fn law_scrapes_wait_for_news(generation: int, served: int)
    ensures
        wait_for(Some(true), generation, served) == Wait::Serve <==> generation > served,
        wait_for(Some(true), generation, served) == Wait::Again <==> generation <= served,
        wait_for(Some(false), generation, served) == Wait::Fail,
        wait_for(None, generation, served) == Wait::Again,
{
}

/// What becomes of the frame in progress as lines come in.
pub open spec fn frame_after(current: Option<Seq<char>>, lines: Seq<Seq<char>>) -> Option<Seq<char>>
    decreases lines.len(),
{
    if lines.len() == 0 {
        current
    } else {
        frame_step(frame_after(current, lines.drop_last()), lines.last()).0
    }
}

/// The text of some lines, each with its line feed.
pub open spec fn lines_text(lines: Seq<Seq<char>>) -> Seq<char>
    decreases lines.len(),
{
    if lines.len() == 0 {
        Seq::empty()
    } else {
        lines_text(lines.drop_last()) + lines.last() + seq!['\n']
    }
}

/// A frame is its header line and every line up to the next header, each with
/// its line feed, and it comes out whole when that header arrives: a header is
/// a line that starts with `*** Sampled system activity (`. This holds as long
/// as the frame stays within a mebibyte.
pub proof fn law_a_frame_comes_out_whole(
    before: Option<Seq<char>>,
    header: Seq<char>,
    lines: Seq<Seq<char>>,
    next: Seq<char>,
)
    requires
        starts(header, "*** Sampled system activity ("@),
        starts(next, "*** Sampled system activity ("@),
        forall|i: int|
            0 <= i < lines.len() ==> !starts(
                #[trigger] lines[i],
                "*** Sampled system activity ("@,
            ),
        encode_utf8(header + seq!['\n'] + lines_text(lines)).len() <= 1_048_576,
    ensures
        frame_after(frame_step(before, header).0, lines) == Some(
            header + seq!['\n'] + lines_text(lines),
        ),
        frame_step(frame_after(frame_step(before, header).0, lines), next).1 == Ok::<
            Option<Seq<char>>,
            Seq<char>,
        >(Some(header + seq!['\n'] + lines_text(lines))),
    decreases lines.len(),
{
    let start = header + seq!['\n'];
    if lines.len() == 0 {
        assert(start + lines_text(lines) =~= start);
    } else {
        let rest = lines.drop_last();
        let line = lines.last();
        let frame = start + lines_text(rest);
        assert forall|i: int| 0 <= i < rest.len() implies !starts(
            #[trigger] rest[i],
            "*** Sampled system activity ("@,
        ) by {
            assert(rest[i] == lines[i]);
        }
        assert(start + lines_text(lines) =~= frame + line + seq!['\n']);
        lemma_encode_add(frame, line);
        lemma_encode_add(frame + line, seq!['\n']);
        law_a_frame_comes_out_whole(before, header, rest, next);
        assert(!starts(lines[lines.len() - 1], "*** Sampled system activity ("@));
        law_frames_are_bounded(frame, line);
        assert(start + lines_text(rest) == frame);
        match frame_step(Some(frame), line) {
            (_, Err(_)) => {
                assert(encode_utf8(frame + line + seq!['\n']).len() > 1_048_576);
            },
            _ => {},
        }
    }
}

/// What is logged of standard error is its first line that is not blank,
/// trimmed: whole up to two hundred characters, and cut there with an ellipsis.
pub proof fn law_the_first_line_is_logged(blank: Seq<Seq<char>>, line: Seq<char>, rest: Seq<Seq<char>>)
    requires
        forall|i: int| 0 <= i < blank.len() ==> trimmed(#[trigger] blank[i]).len() == 0,
        trimmed(line).len() > 0,
    ensures
        first_black(blank + seq![line] + rest) == trimmed(line),
        first_black(blank).len() == 0,
        line.len() <= 200 ==> clipped(line) == line,
        line.len() > 200 ==> clipped(line) == line.take(200) + seq!['…'],
    decreases blank.len(),
{
    let all = blank + seq![line] + rest;
    if blank.len() == 0 {
        assert(all[0] == line);
    } else {
        let t = blank.skip(1);
        assert forall|i: int| 0 <= i < t.len() implies trimmed(#[trigger] t[i]).len() == 0 by {
            assert(t[i] == blank[i + 1]);
        }
        law_the_first_line_is_logged(t, line, rest);
        assert(all[0] == blank[0]);
        assert(all.skip(1) =~= t + seq![line] + rest);
    }
}

/// A replay hands out its frames in order and then the last one again.
pub proof fn law_a_replay_stays_at_its_last_frame(len: int, next: int)
    requires
        len > 0,
        next >= 0,
    ensures
        0 <= replayed(len, next) < len,
        next < len ==> replayed(len, next) == next,
        next >= len ==> replayed(len, next) + 1 == len,
{
}

/// A frame that grows too large is refused and kept as it was; what is not text
/// is said to be none.
pub proof fn law_oversized_frames_are_refused(frame: Seq<char>, line: Seq<char>)
    requires
        !starts(line, "*** Sampled system activity ("@),
    ensures
        encode_utf8(frame).len() + encode_utf8(line).len() + 1 > 1_048_576 ==> frame_step(
            Some(frame),
            line,
        ) == (
            Some(frame),
            Err::<Option<Seq<char>>, Seq<char>>("powermetrics sample exceeded the frame limit"@),
        ),
        encode_utf8(frame).len() + encode_utf8(line).len() + 1 <= 1_048_576 ==> frame_step(
            Some(frame),
            line,
        ) == (
            Some(frame + line + seq!['\n']),
            Ok::<Option<Seq<char>>, Seq<char>>(None),
        ),
        SourceError::NonUtf8.reason() == "output was not UTF-8"@,
{
}

} // verus!
