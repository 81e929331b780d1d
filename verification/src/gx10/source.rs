//! What the exporter's data source may say: one sample per device, each
//! reading of it present only where it was measured.
use crate::exposition::{copy_figure, Figure};
use vstd::prelude::*;

verus! {

/// One GPU's readings for one scrape. A reading that is missing was not
/// answered on this scrape, and nothing is published for it; the index is the
/// place at which the device was enumerated.
#[derive(Default, PartialEq, Eq, Debug)]
pub struct DeviceSample {
    pub index: u32,
    pub uuid: Option<String>,
    pub name: Option<String>,
    pub utilization_ratio: Option<Figure>,
    pub power_watts: Option<Figure>,
    pub temperature_celsius: Option<Figure>,
    pub memory_used_bytes: Option<u64>,
    pub memory_total_bytes: Option<u64>,
}

impl DeviceSample {
    /// A device without any reading yet.
    pub fn new(index: u32) -> (r: DeviceSample)
        ensures
            r == (DeviceSample {
                index,
                uuid: None,
                name: None,
                utilization_ratio: None,
                power_watts: None,
                temperature_celsius: None,
                memory_used_bytes: None,
                memory_total_bytes: None,
            }),
    {
        DeviceSample {
            index,
            uuid: None,
            name: None,
            utilization_ratio: None,
            power_watts: None,
            temperature_celsius: None,
            memory_used_bytes: None,
            memory_total_bytes: None,
        }
    }

    /// A copy of the sample.
    pub fn copy(&self) -> (r: DeviceSample)
        ensures
            r == *self,
    {
        DeviceSample {
            index: self.index,
            uuid: copy_text(&self.uuid),
            name: copy_text(&self.name),
            utilization_ratio: copy_figure(&self.utilization_ratio),
            power_watts: copy_figure(&self.power_watts),
            temperature_celsius: copy_figure(&self.temperature_celsius),
            memory_used_bytes: self.memory_used_bytes,
            memory_total_bytes: self.memory_total_bytes,
        }
    }
}

fn copy_text(text: &Option<String>) -> (r: Option<String>)
    ensures
        r == *text,
{
    match text {
        Some(text) => Some(text.clone()),
        None => None,
    }
}

/// The devices that the source reported, or why it did not answer at all.
pub type ScrapeResult = Result<Vec<DeviceSample>, String>;

/// What a scrape said: an empty list is a source that answered and found no
/// device, which is not a source that did not answer.
pub open spec fn outcome_view(outcome: ScrapeResult) -> Result<Seq<DeviceSample>, Seq<char>> {
    match outcome {
        Ok(devices) => Ok(devices@),
        Err(reason) => Err(reason@),
    }
}

/// Where readings come from.
pub trait GpuSource {
    fn scrape(&self) -> ScrapeResult;
}

/// A source that replays a fixed outcome, and measures nothing itself.
pub struct RecordedSource {
    pub outcome: ScrapeResult,
}

impl RecordedSource {
    /// A source that answers with these devices.
    pub fn devices(devices: Vec<DeviceSample>) -> (r: RecordedSource)
        ensures
            outcome_view(r.outcome) == Ok::<Seq<DeviceSample>, Seq<char>>(devices@),
    {
        RecordedSource { outcome: Ok(devices) }
    }

    /// A source that does not answer.
    pub fn failing(reason: &str) -> (r: RecordedSource)
        ensures
            outcome_view(r.outcome) == Err::<Seq<DeviceSample>, Seq<char>>(reason@),
    {
        RecordedSource { outcome: Err(reason.to_owned()) }
    }
}

impl GpuSource for RecordedSource {
    fn scrape(&self) -> (r: ScrapeResult)
        ensures
            outcome_view(r) == outcome_view(self.outcome),
    {
        match &self.outcome {
            Ok(devices) => {
                let mut copies: Vec<DeviceSample> = Vec::new();
                for i in 0..devices.len()
                    invariant
                        copies@ == devices@.take(i as int),
                {
                    copies.push(devices[i].copy());
                    assert(devices@.take(i + 1) =~= devices@.take(i as int).push(
                        devices@[i as int],
                    ));
                }
                assert(devices@.take(devices@.len() as int) =~= devices@);
                Ok(copies)
            },
            Err(reason) => Err(reason.clone()),
        }
    }
}

} // verus!
