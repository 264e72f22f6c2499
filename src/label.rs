//! Cohort labels: a commit time formatted through a strftime-style pattern.
use std::fmt::Write;
use vstd::prelude::*;

verus! {

/// The text chrono's strftime-style formatting makes of the UTC time `secs`
/// seconds after the Unix epoch under the pattern `fmt`; `None` when the time
/// is out of chrono's range or the pattern is invalid.
pub uninterp spec fn strftime_text(secs: int, fmt: Seq<char>) -> Option<Seq<char>>;

pub open spec fn opt_text(r: Option<String>) -> Option<Seq<char>> {
    match r {
        Some(s) => Some(s@),
        None => None,
    }
}

/// Relies on chrono's `DateTime::from_timestamp` (UTC time of `secs`, `None`
/// out of range) and on writing its `format(fmt)`, which fails on an invalid
/// pattern.
#[verifier::external_body]
fn format_time(secs: i64, fmt: &str) -> (r: Option<String>)
    ensures
        opt_text(r) == strftime_text(secs as int, fmt@),
{
    let dt = chrono::DateTime::from_timestamp(secs, 0)?;
    let mut out = String::new();
    match write!(out, "{}", dt.naive_utc().format(fmt)) {
        Ok(()) => Some(out),
        Err(_) => None,
    }
}

/// The cohort label of the commit time `secs` under the pattern `fmt`
/// (for instance `"%Y"` buckets lines by year).
pub fn cohort_label(secs: i64, fmt: &String) -> (r: Option<String>)
    ensures
        opt_text(r) == strftime_text(secs as int, fmt@),
{
    format_time(secs, fmt.as_str())
}

} // verus!
