//! Naming the log file of a run.
use vstd::prelude::*;

use crate::text::{decimal, push_decimal};

verus! {

/// The log file name for a run started at `timestamp` (seconds since the Unix
/// epoch): `lanqr-<timestamp>.log`.
pub open spec fn log_name(timestamp: u64) -> Seq<char> {
    "lanqr-"@ + decimal(timestamp as nat) + ".log"@
}

/// The log file name for a run started at `timestamp`.
pub fn log_file_name(timestamp: u64) -> (res: String)
    ensures
        res@ == log_name(timestamp),
{
    let mut s = String::from_str("lanqr-");
    push_decimal(&mut s, timestamp);
    s.append(".log");
    s
}

} // verus!
