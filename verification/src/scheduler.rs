//! The refresh scheduler's decisions.
//!
//! The scheduler alternates between a refresh cycle and an idle sleep. Per
//! cycle it dispatches one task per connected-realm group onto a bounded
//! worker pool, waits for all of them, and then sleeps for whatever is left of
//! the minimum period. The pool, the barrier and the sleeping are the
//! caller's plumbing; what is decided — how a group's fetch result changes the
//! cache, and how long to sleep — lives here.

use vstd::prelude::*;

use std::sync::Arc;

use crate::cache::{covers_group, in_group, snapshot_of, PriceCache};
use crate::valuation::{
    calculate_auction_values, distinct_ids, quantities_positive, sum_quantities, valuation_ok,
    values_fit, AuctionListing, TradeableItem,
};

verus! {

/// Completes one group's refresh task once its fetch has come back.
///
/// `fetched` is what the API client's listings call produced for the group's
/// lead realm: `None` for "no update since the cutoff" — then every cache
/// slot, member or not, is left exactly as it was — or the listings document
/// with its last-modified stamp, in which case the valuation is computed once
/// and published whole into every member realm's slot, leaving all other
/// slots untouched. One group's task never touches another group's slots.
pub fn run_group_task(
    cache: &mut PriceCache,
    group: &Vec<String>,
    items: &Vec<TradeableItem>,
    fetched: Option<(u64, Vec<AuctionListing>)>,
)
    requires
        old(cache).wf(),
        covers_group(old(cache).slots(), group@),
        fetched matches Some(f) ==> quantities_positive(f.1@) && sum_quantities(f.1@)
            <= u64::MAX as int && values_fit(f.1@, items@) && distinct_ids(items@),
    ensures
        final(cache).wf(),
        (match fetched {
            None => *final(cache) == *old(cache),
            Some(f) => exists|vals: Seq<crate::valuation::ItemValue>|
                {
                    &&& #[trigger] valuation_ok(f.1@, items@, vals)
                    &&& final(cache).published() == old(cache).published().insert((f.0, vals))
                    &&& final(cache).slots().len() == old(cache).slots().len()
                    &&& forall|i: int|
                        0 <= i < old(cache).slots().len() ==> {
                            let before = old(cache).slots()[i];
                            let after = #[trigger] final(cache).slots()[i];
                            &&& after.0 == before.0
                            &&& (in_group(group@, before.0@) ==> snapshot_of(after.1) == (
                            f.0,
                            vals,
                            ))
                            &&& (!in_group(group@, before.0@) ==> after.1 == before.1)
                        }
                },
        }),
{
    match fetched {
        None => {
        },
        Some((last_update, listings)) => {
            let values = calculate_auction_values(&listings, items);
            let shared = Arc::new(values);
            cache.update_group(group, last_update, &shared);
        },
    }
}

/// How long the scheduler stays idle once a cycle has finished: the remainder
/// of the minimum period between cycle starts. A cycle that ran longer than
/// the period yields zero — the next cycle starts immediately; the wait is
/// never negative.
pub fn remaining_sleep(cycle_start: u64, now: u64, period: u64) -> (r: u64)
    requires
        now >= cycle_start,
    ensures
        r as int == if now - cycle_start >= period {
            0int
        } else {
            period - (now - cycle_start)
        },
{
    let elapsed = now - cycle_start;
    if elapsed >= period {
        0
    } else {
        period - elapsed
    }
}

} // verus!
