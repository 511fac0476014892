//! The log pipeline: lines are extracted from files, timestamped, grouped and turned into
//! dashboard updates.
pub mod parser;
pub mod transform_load;
pub mod extract;

use vstd::prelude::*;
use crate::etl::extract::{line_event, line_event_view};
use crate::etl::transform_load::{EtlState, EtlOutcome, analysis_of};

verus! {

/// One non-blank line read from a log file, trimmed, with the file it came from.
pub struct LogEvent {
    file: String,
    line: String,
}

impl LogEvent {
    /// The path of the file the line came from.
    pub closed spec fn file_view(&self) -> Seq<char> {
        self.file@
    }

    /// The trimmed line.
    pub closed spec fn line_view(&self) -> Seq<char> {
        self.line@
    }

    /// The path of the file the line came from.
    pub fn file(&self) -> (r: &String)
        ensures
            r@ == self.file_view(),
    {
        &self.file
    }

    /// The trimmed line.
    pub fn line(&self) -> (r: &String)
        ensures
            r@ == self.line_view(),
    {
        &self.line
    }
}

/// Runs one line read from `file` through the pipeline: a blank line is dropped, any
/// other line is trimmed into an event and analyzed (see `EtlState::analyze_groups`).
pub fn etl(state: &mut EtlState, file: &str, raw_line: &str) -> (r: EtlOutcome)
    requires
        old(state).wf(),
    ensures
        final(state).wf(),
        final(state).formats() == old(state).formats(),
        final(state).indicators() == old(state).indicators(),
        match line_event_view(file@, raw_line@) {
            None => r is Skip && final(state).groups() == old(state).groups(),
            Some((f, l)) => analysis_of(*old(state), f, l, *final(state), r),
        },
{
    match line_event(file, raw_line) {
        None => EtlOutcome::Skip,
        Some(event) => state.analyze_groups(&event),
    }
}

} // verus!
