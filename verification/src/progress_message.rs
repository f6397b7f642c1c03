//! The events that upload workers report while a run is under way.

use std::time::Duration;
use vstd::prelude::*;

verus! {

/// One report from an upload worker, or the closing report of the run.
#[derive(Debug, PartialEq, Eq)]
pub enum Progress {
    /// The upload of this file begins; the number is its size in bytes.
    Start(String, u64),
    /// One block of the file being uploaded went out; the number is the
    /// count of bytes in that block.
    Part(usize),
    /// The upload of this file is complete.
    Complete(String),
    /// Every upload of the run is done; the value is how long they took.
    Finished(Duration),
}

/// A report as the rules of the display see it: paths as their text, the
/// time taken in whole seconds.
pub enum Report {
    Start(Seq<char>, u64),
    Part(usize),
    Complete(Seq<char>),
    Finished(u64),
}

/// The whole seconds of a duration, as `Duration::as_secs` gives them.
pub uninterp spec fn whole_seconds(d: Duration) -> u64;

/// Trusted: `Duration::as_secs` of the standard library returns the number
/// of whole seconds that the duration holds, which depends on the duration
/// alone.
pub assume_specification[ Duration::as_secs ](d: &Duration) -> (secs: u64)
    ensures
        secs == whole_seconds(*d),
;

impl View for Progress {
    type V = Report;

    open spec fn view(&self) -> Report {
        match self {
            Progress::Start(path, size) => Report::Start(path@, *size),
            Progress::Part(n) => Report::Part(*n),
            Progress::Complete(path) => Report::Complete(path@),
            Progress::Finished(d) => Report::Finished(whole_seconds(*d)),
        }
    }
}

} // verus!
