//! What a run does once the input has been parsed.
use vstd::prelude::*;

verus! {

/// The course of a run after parsing.
#[derive(Debug, Clone, Copy, PartialEq, Eq, Structural)]
pub enum RunAction {
    /// No entry was found: warn and stop, creating nothing.
    WarnNoChannels,
    /// Report the count of each group and write nothing.
    ReportOnly,
    /// Report the counts, create the output directory and write one file per group.
    WriteFiles,
}

/// Decides the course of a run from the number of parsed entries and the
/// dry-run flag.
pub fn plan_run(channel_count: usize, dry_run: bool) -> (r: RunAction)
    ensures
        channel_count == 0 ==> r == RunAction::WarnNoChannels,
        channel_count > 0 && dry_run ==> r == RunAction::ReportOnly,
        channel_count > 0 && !dry_run ==> r == RunAction::WriteFiles,
{
    if channel_count == 0 {
        RunAction::WarnNoChannels
    } else if dry_run {
        RunAction::ReportOnly
    } else {
        RunAction::WriteFiles
    }
}

} // verus!
