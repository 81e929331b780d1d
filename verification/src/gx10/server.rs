//! What a scrape of the GPU exporter answers and logs.
use crate::exposition::rendered;
use crate::gx10::expo::{document_lines, render};
use crate::gx10::source::{outcome_view, DeviceSample, ScrapeResult};
use crate::text::{cat2, text_view};
use vstd::prelude::*;

verus! {

/// The memory of whether the source answered, which serves the log alone: it
/// is never a fallback for a reading.
#[derive(Debug)]
pub struct ExporterState {
    pub last_up: Option<bool>,
}

/// What is logged where the state changes.
pub open spec fn state_line(reason: Option<Seq<char>>) -> Seq<char> {
    match reason {
        Some(reason) =>
            "NVML unavailable, publishing muser_agent_up 0 and no device series: "@ + reason,
        None => "NVML answering; device series are publishing"@,
    }
}

/// What is logged of a scrape: a change, and only a change.
pub open spec fn noted(last: Option<bool>, up: bool, reason: Option<Seq<char>>) -> Option<
    Seq<char>,
> {
    if last == Some(up) {
        None
    } else {
        Some(state_line(reason))
    }
}

/// The devices of an outcome, where the source answered.
pub open spec fn answered(outcome: Result<Seq<DeviceSample>, Seq<char>>) -> Option<
    Seq<DeviceSample>,
> {
    match outcome {
        Ok(devices) => Some(devices),
        Err(_) => None,
    }
}

/// Why the source did not answer.
pub open spec fn refused(outcome: Result<Seq<DeviceSample>, Seq<char>>) -> Option<Seq<char>> {
    match outcome {
        Ok(_) => None,
        Err(reason) => Some(reason),
    }
}

impl ExporterState {
    /// The state before any scrape.
    pub fn new() -> (r: ExporterState)
        ensures
            r.last_up is None,
    {
        ExporterState { last_up: None }
    }

    /// Notes whether the source answered, and gives the line to log.
    pub fn note_state(&mut self, up: bool, reason: Option<&str>) -> (r: Option<String>)
        ensures
            final(self).last_up == Some(up),
            text_view(r) == noted(
                old(self).last_up,
                up,
                crate::history::catalog::opt_text(reason),
            ),
    {
        let known = match self.last_up {
            Some(last) => last == up,
            None => false,
        };
        if known {
            return None;
        }
        self.last_up = Some(up);
        Some(
            match reason {
                Some(reason) => cat2(
                    "NVML unavailable, publishing muser_agent_up 0 and no device series: ",
                    reason,
                ),
                None => "NVML answering; device series are publishing".to_owned(),
            },
        )
    }

    /// The document that answers a scrape, and the line to log. What was
    /// answered before has no part in the document.
    pub fn metrics(&mut self, outcome: &ScrapeResult, elapsed: &str) -> (r: (String, Option<
        String,
    >))
        ensures
            r.0@ == rendered(document_lines(answered(outcome_view(*outcome)), elapsed@)),
            text_view(r.1) == noted(
                old(self).last_up,
                *outcome is Ok,
                refused(outcome_view(*outcome)),
            ),
            final(self).last_up == Some(*outcome is Ok),
    {
        match outcome {
            Ok(devices) => {
                let line = self.note_state(true, None);
                (render(Some(devices.as_slice()), elapsed), line)
            },
            Err(reason) => {
                let line = self.note_state(false, Some(reason.as_str()));
                (render(None, elapsed), line)
            },
        }
    }
}

/// One line is logged per change: a second scrape with the same outcome logs
/// nothing, and one with the other outcome logs again.
pub proof fn law_logged_once_per_change(
    last: Option<bool>,
    up: bool,
    reason: Option<Seq<char>>,
    later: Option<Seq<char>>,
)
    ensures
        noted(Some(up), up, later) is None,
        noted(Some(up), !up, later) is Some,
        last != Some(up) ==> noted(last, up, reason) is Some,
{
}

/// What is logged when the source falls silent says why, and what is logged
/// when it answers says that series are published.
pub proof fn law_changes_are_told_apart(last: Option<bool>, reason: Seq<char>)
    ensures
        last != Some(false) ==> noted(last, false, Some(reason)) == Some(
            "NVML unavailable, publishing muser_agent_up 0 and no device series: "@ + reason,
        ),
        last != Some(true) ==> noted(last, true, None) == Some(
            "NVML answering; device series are publishing"@,
        ),
{
}

/// What the source answered is published, and only a refusal is given as the
/// reason.
pub proof fn law_an_outcome_is_an_answer_or_a_reason(
    devices: Seq<DeviceSample>,
    reason: Seq<char>,
)
    ensures
        answered(Ok(devices)) == Some(devices),
        refused(Ok(devices)) is None,
        answered(Err(reason)) is None,
        refused(Err(reason)) == Some(reason),
{
}

} // verus!
