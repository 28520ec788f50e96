//! The periodic cleanup of everything that the server holds.

use crate::collection::{expired_total, RatelimitCollection};
use crate::ratelimit::{Limiter, Ratelimit};
use vstd::prelude::*;

verus! {

/// `count`, or `usize::MAX` if it is more than that.
pub open spec fn capped(count: nat) -> int {
    if count > usize::MAX {
        usize::MAX as int
    } else {
        count as int
    }
}

/// One tick of maintenance, for a caller that holds both structures: runs
/// cleanup on the default limiter and on every limiter made on demand, all
/// for the one reading `now` of the clock, and returns how many counters
/// were removed in all, or `usize::MAX` if they were more than that.
pub fn cleanup_tick(now: u64, ratelimit: &mut Ratelimit, collection: &mut RatelimitCollection) -> (removed:
    usize)
    requires
        old(ratelimit).wf(),
        old(collection).wf(),
    ensures
        final(ratelimit).wf(),
        final(collection).wf(),
        final(ratelimit)@ == old(ratelimit)@.after_cleanup(now as int),
        final(collection)@ == old(collection)@.map_values(
            |limiter: Limiter| limiter.after_cleanup(now as int),
        ),
        removed == capped(
            old(ratelimit)@.expired_keys(now as int).len() + expired_total(
                old(collection)@,
                now as int,
            ),
        ),
{
    let first: usize = ratelimit.cleanup_at(now);
    let second: usize = collection.cleanup(now);
    first.saturating_add(second)
}

} // verus!
