//! Logging levels.

use vstd::prelude::*;

verus! {

/// The most detailed level that is still logged.
#[derive(Debug, Clone, Copy, PartialEq, Eq, Structural)]
pub enum LevelFilter {
    Warn,
    Info,
    Debug,
    Trace,
}

/// The level for a verbosity count:
///
/// | `verbosity` | level |
/// |-------------|-------|
/// | `0`         | `Info` |
/// | `1`         | `Debug` |
/// | `>= 2`      | `Trace` |
pub fn level_for(verbosity: u8) -> (level: LevelFilter)
    ensures
        level == (if verbosity == 0 {
            LevelFilter::Info
        } else if verbosity == 1 {
            LevelFilter::Debug
        } else {
            LevelFilter::Trace
        }),
{
    match verbosity {
        0 => LevelFilter::Info,
        1 => LevelFilter::Debug,
        _ => LevelFilter::Trace,
    }
}

/// The level of a run: a quiet one keeps warnings and errors only.
pub fn run_level(verbosity: u8, quiet: bool) -> (level: LevelFilter)
    ensures
        quiet ==> level == LevelFilter::Warn,
        !quiet && verbosity == 0 ==> level == LevelFilter::Info,
        !quiet && verbosity == 1 ==> level == LevelFilter::Debug,
        !quiet && verbosity >= 2 ==> level == LevelFilter::Trace,
{
    if quiet {
        LevelFilter::Warn
    } else {
        level_for(verbosity)
    }
}

} // verus!
