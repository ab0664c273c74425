//! The arithmetic and batching behind the query statistics.

use vstd::prelude::*;

verus! {

/// Seconds in a day.
pub const SECS_PER_DAY: i64 = 86400;

/// The most query records written to the database in one batch.
pub const MAX_BATCH: usize = 200;

/// The start of the (UTC) day that holds the Unix time `now`, as Rust's `%`
/// computes it: `now - now % 86400`, where the remainder takes the sign of
/// `now`.
pub open spec fn spec_midnight_ts(now: i64) -> int {
    if now >= 0 {
        now - (now as int) % (SECS_PER_DAY as int)
    } else {
        now + (-(now as int)) % (SECS_PER_DAY as int)
    }
}

/// The Unix time at which the day that holds `now` began.
pub fn midnight_ts(now: i64) -> (ts: i64)
    ensures
        ts == spec_midnight_ts(now),
        now >= 0 ==> 0 <= ts <= now && now - ts < SECS_PER_DAY && ts % SECS_PER_DAY == 0,
{
    let rem = now % SECS_PER_DAY;
    now - rem
}

/// A query, as the statistics table stores it.
#[derive(Debug)]
pub struct QueryRecord {
    /// Unix time of the query, in seconds.
    pub ts: i64,
    pub domain: String,
    /// 1 when the query was blocked, 0 when it was forwarded.
    pub blocked: i32,
}

impl QueryRecord {
    /// The record of a query for `domain` at time `ts`, blocked or not.
    pub fn new(ts: i64, domain: String, blocked: bool) -> (r: Self)
        ensures
            r.ts == ts,
            r.domain == domain,
            r.blocked == if blocked {
                1i32
            } else {
                0i32
            },
    {
        QueryRecord { ts, domain, blocked: if blocked { 1 } else { 0 } }
    }
}

/// Whether a batch of `len` records may take one more before it is written.
pub fn batch_has_room(len: usize) -> (room: bool)
    ensures
        room == (len < MAX_BATCH),
{
    len < MAX_BATCH
}

} // verus!
