//! TSK core: policy, compression, sandbox, injection, ledger, snapshot.

pub mod assets;
pub mod calendar;
pub mod commands;
pub mod compress;
pub mod config;
pub mod events;
pub mod inject;
pub mod json;
pub mod ledger;
pub mod number;
pub mod path;
pub mod policy;
pub mod report;
pub mod sandbox;
pub mod search;
pub mod settings;
pub mod snapshot;
pub mod storage;
pub mod tally;
pub mod text;

pub use config::{CompressionLevel, Config};

use vstd::prelude::*;

verus! {

/// Token estimate: `ceil(bytes / 4)`.
pub fn est_tokens(s: &str) -> (n: usize)
    ensures
        n == number::tokens(text::byte_count(s@)),
{
    number::est_tok(text::byte_len(s))
}

/// `std::time::SystemTime`, a moment on the machine's clock.
#[verifier::external_type_specification]
#[verifier::external_body]
pub struct ExSystemTime(std::time::SystemTime);

/// `std::time::SystemTimeError`, which says that a moment lies after another.
#[verifier::external_type_specification]
#[verifier::external_body]
pub struct ExSystemTimeError(std::time::SystemTimeError);

/// `SystemTime::now` reads the clock: nothing is known of what it gives.
pub assume_specification[ std::time::SystemTime::now ]() -> (r: std::time::SystemTime);

/// `SystemTime::duration_since` is the time from one moment to another, or an error where the
/// other comes later; with clocks that can be set, nothing more is known of it.
pub assume_specification[ std::time::SystemTime::duration_since ](
    t: &std::time::SystemTime,
    earlier: std::time::SystemTime,
) -> (r: Result<std::time::Duration, std::time::SystemTimeError>);

/// How many whole milliseconds a length of time holds.
pub uninterp spec fn whole_millis(d: std::time::Duration) -> u128;

/// `Duration::as_millis` is the number of whole milliseconds in a length of time.
pub assume_specification[ std::time::Duration::as_millis ](d: &std::time::Duration) -> (r: u128)
    ensures
        r == whole_millis(*d),
;

/// `std::time::UNIX_EPOCH`, the moment from which milliseconds are counted.
#[verifier::external_body]
fn epoch() -> (r: std::time::SystemTime) {
    std::time::UNIX_EPOCH
}

/// A count of milliseconds as the ledger keeps it, 0 where there is none.
pub open spec fn ledger_millis(since_epoch: Option<u128>) -> u64 {
    match since_epoch {
        Some(n) => n as u64,
        None => 0,
    }
}

/// A count of milliseconds as the ledger keeps it, 0 where there is none.
pub fn millis(since_epoch: Option<u128>) -> (r: u64)
    ensures
        r == ledger_millis(since_epoch),
{
    match since_epoch {
        Some(n) => {
            #[verifier::truncate]
            let m: u64 = n as u64;
            m
        },
        None => 0,
    }
}

/// A length of time since the epoch in milliseconds as the ledger keeps them, 0 where the
/// clock stands before the epoch.
pub open spec fn clock_millis(since: Option<std::time::Duration>) -> u64 {
    match since {
        Some(d) => ledger_millis(Some(whole_millis(d))),
        None => 0,
    }
}

/// Milliseconds since the Unix epoch. Used by the ledger (field `ts`). What the clock shows is
/// not known; the result is the milliseconds of some length of time, or 0.
pub fn now_millis() -> (r: u64)
    ensures
        exists|since: Option<std::time::Duration>| r == #[trigger] clock_millis(since),
{
    match std::time::SystemTime::now().duration_since(epoch()) {
        Ok(d) => {
            let r: u64 = millis(Some(d.as_millis()));
            assert(r == clock_millis(Some(d)));
            r
        },
        Err(_) => {
            let r: u64 = millis(None);
            assert(r == clock_millis(None));
            r
        },
    }
}

} // verus!
