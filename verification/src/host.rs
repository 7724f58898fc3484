//! What only the machine at hand can say: how many cores it has, how it
//! writes a moment in its own time zone, where the user's home is. The
//! functions that ask take whatever answer comes.

use vstd::prelude::*;
use chrono::TimeZone;
use std::fmt::Write;

verus! {

/// Calls `num_cpus::get`, the number of logical cores available to this
/// process. The number depends on the machine and on how the process was
/// started; the contract says of it what the crate documents of every
/// answer, that it is at least 1.
#[verifier::external_body]
pub(crate) fn available_cores() -> (cores: usize)
    ensures
        cores >= 1,
{
    num_cpus::get()
}

/// Calls `chrono::TimeZone::timestamp_opt` on `chrono::Local` and writes the
/// moment with `chrono::DateTime::format`. The text depends on the machine's
/// time zone, so the contract says nothing of it. `None` where chrono cannot
/// represent the moment, or where formatting reports an error, as it does
/// for a pattern it cannot read.
#[verifier::external_body]
pub(crate) fn local_time_text(timestamp: i64, pattern: &str) -> (text: Option<String>) {
    match chrono::Local.timestamp_opt(timestamp, 0).single() {
        Some(moment) => {
            let mut text = String::new();
            match write!(text, "{}", moment.format(pattern)) {
                Ok(_) => Some(text),
                Err(_) => None,
            }
        },
        None => None,
    }
}

/// Calls `dirs::home_dir`, the home directory of the current user as the
/// environment gives it, so the contract says nothing of it. `None` where
/// there is none to be found.
#[verifier::external_body]
pub(crate) fn home_directory() -> (home: Option<String>) {
    dirs::home_dir().map(|p| p.to_string_lossy().into_owned())
}

} // verus!
