//! Decision logic of the upstream API client.
//!
//! Transport itself stays outside the library: a caller issues each HTTP
//! request (after passing the rate throttle) and reports what happened; the
//! functions here decide what follows. A call is retried indefinitely on any
//! connection error, non-success status, or unreadable body — transport and
//! decode failures below the task boundary are never fatal. Auction listings
//! carry a last-modified stamp, and a document no newer than the caller's
//! cutoff is "no update": a normal outcome, not an error, after which the
//! caller must leave the cache untouched.

use vstd::prelude::*;

verus! {

/// The upstream namespace the client talks to. It selects the API host, the
/// request locale and the web app's URL path, and nothing else.
#[derive(Debug, Clone, Copy, PartialEq, Eq, Structural)]
pub enum Region {
    US,
    EU,
}

/// The API host queried for a region.
pub fn api_host(region: Region) -> (r: &'static str)
    ensures
        region == Region::US ==> r@ == "us.api.battle.net"@,
        region == Region::EU ==> r@ == "eu.api.battle.net"@,
{
    match region {
        Region::US => "us.api.battle.net",
        Region::EU => "eu.api.battle.net",
    }
}

/// The request locale used for a region.
pub fn api_locale(region: Region) -> (r: &'static str)
    ensures
        region == Region::US ==> r@ == "en_US"@,
        region == Region::EU ==> r@ == "en_GB"@,
{
    match region {
        Region::US => "en_US",
        Region::EU => "en_GB",
    }
}

/// The first path segment of the web app's URL for a region.
pub fn app_url_for_region(region: &Region) -> (r: &'static str)
    ensures
        *region == Region::US ==> r@ == "blood-money"@,
        *region == Region::EU ==> r@ == "blood-money-eu"@,
{
    match region {
        Region::US => "blood-money",
        Region::EU => "blood-money-eu",
    }
}

/// Item metadata from the item-info endpoint.
#[derive(Debug)]
pub struct ItemInfo {
    pub id: u64,
    pub name: String,
    pub icon: String,
}

/// The indirection record returned by the auction-data status endpoint: where
/// the current listings document lives and when it was last modified, in epoch
/// milliseconds as reported upstream.
#[derive(Debug)]
pub struct AuctionDataPointer {
    pub url: String,
    pub last_modified: u64,
}

/// The freshness rule: the listings document is fetched only when its reported
/// last-modified stamp is strictly newer than the caller's cutoff. Otherwise
/// the call ends as "no update" and no cache slot may change.
pub fn listings_are_fresh(pointer: &AuctionDataPointer, cutoff: u64) -> (r: bool)
    ensures
        r == (pointer.last_modified > cutoff),
{
    pointer.last_modified > cutoff
}

/// What one transport attempt reported back: no connection at all, or a
/// response with its status code and — if reading it succeeded — its body.
#[derive(Debug)]
pub enum AttemptOutcome {
    ConnectionFailed,
    Response(u16, Option<String>),
}

/// The body an attempt yields: only a success status whose body could be read
/// finishes the call.
pub open spec fn attempt_result(outcome: AttemptOutcome) -> Option<Seq<char>> {
    match outcome {
        AttemptOutcome::Response(status, body) => match body {
            Some(b) => if status == 200 {
                Some(b@)
            } else {
                None
            },
            None => None,
        },
        AttemptOutcome::ConnectionFailed => None,
    }
}

/// One logical API call, retried until it succeeds. The task only counts
/// attempts; the caller performs the transport and sleeps in the throttle.
#[derive(Debug)]
pub struct ApiCallTask {
    pub retries: u64,
}

impl ApiCallTask {
    pub fn new() -> (t: ApiCallTask)
        ensures
            t.retries == 0,
    {
        ApiCallTask { retries: 0 }
    }

    /// Judges one attempt. A response with a success status and a readable
    /// body finishes the call with that body. Anything else — connection
    /// error, non-success status, unreadable body — yields `None`: the caller
    /// re-acquires the throttle and tries again, without bound. Every attempt
    /// is counted, for the caller's failure reports.
    pub fn judge_attempt(&mut self, outcome: AttemptOutcome) -> (r: Option<String>)
        ensures
            final(self).retries as int == if old(self).retries < u64::MAX {
                old(self).retries + 1
            } else {
                old(self).retries as int
            },
            match attempt_result(outcome) {
                Some(b) => r matches Some(body) && body@ == b,
                None => r is None,
            },
    {
        if self.retries < u64::MAX {
            self.retries = self.retries + 1;
        }
        match outcome {
            AttemptOutcome::Response(status, body) => match body {
                Some(b) => if status == 200 {
                    Some(b)
                } else {
                    None
                },
                None => None,
            },
            AttemptOutcome::ConnectionFailed => None,
        }
    }
}

} // verus!
