//! One rate-limit rule, a capacity and a window, with a counter per key.

use crate::counter::{
    clock_readings, lemma_after_hit_wf, lemma_counter_capacity_bound,
    lemma_denied_hit_records_nothing, lemma_in_order, lemma_latest_after_hit,
    lemma_latest_after_hits, Counter, RLEntry, CLEANUP_MARGIN,
};
use vstd::hash_map::StringHashMap;
use vstd::prelude::*;
use vstd::set_lib::{lemma_len_subset, lemma_set_difference_len};
use vstd::string::StringExecFns;

verus! {

/// Longest window that a limiter accepts, in milliseconds: 48 days, so that
/// the age of a recorded hit stays within 32 bits.
pub const MAX_DURATION: u32 = 4_147_200_000;

/// Whether `hits` and `duration` make a rule: both positive, and the
/// window no longer than `MAX_DURATION`.
pub open spec fn valid_bounds(hits: u32, duration: u32) -> bool {
    hits > 0 && 0 < duration <= MAX_DURATION
}

/// A capacity and a window that make no rule.
#[derive(Debug, Clone, Copy)]
pub struct RatelimitInvalidError {
    pub hits: u32,
    pub duration: u32,
}

impl RatelimitInvalidError {
    /// The text of `message`.
    pub open spec fn message_text(self) -> Seq<char> {
        if self.hits == 0 {
            "Invalid ratelimit specification, hits must be greater than 0"@
        } else if self.duration == 0 {
            "Invalid ratelimit specification, duration must be greater than 0"@
        } else {
            "Invalid ratelimit specification, duration must be less than 4147200000"@
        }
    }

    /// Names the first bound that the values break.
    pub fn message(&self) -> (text: String)
        ensures
            text@ == self.message_text(),
    {
        if self.hits == 0 {
            String::from_str("Invalid ratelimit specification, hits must be greater than 0")
        } else if self.duration == 0 {
            String::from_str("Invalid ratelimit specification, duration must be greater than 0")
        } else {
            String::from_str(
                "Invalid ratelimit specification, duration must be less than 4147200000",
            )
        }
    }
}

/// What a limiter is: its rule, and the counter of every key that it
/// follows.
pub struct Limiter {
    /// Hits admitted per key within one window.
    pub hits: int,
    /// The window, in milliseconds.
    pub duration: int,
    /// The counter of each key.
    pub counters: Map<Seq<char>, Counter>,
}

impl Limiter {
    /// The limiter of a rule that follows no key yet.
    pub open spec fn empty(hits: int, duration: int) -> Limiter {
        Limiter { hits, duration, counters: Map::empty() }
    }

    /// What every limiter satisfies: its rule is within bounds, it follows
    /// finitely many keys, and each counter is well formed and has
    /// recorded a hit.
    pub open spec fn wf(self) -> bool {
        &&& 1 <= self.hits <= u32::MAX
        &&& 1 <= self.duration <= MAX_DURATION
        &&& self.counters.dom().finite()
        &&& forall|key: Seq<char>| #[trigger]
            self.counters.contains_key(key) ==> self.counters[key].wf(self.hits)
                && self.counters[key].used()
    }

    /// The counter that a hit on `key` works on when the clock reads `now`:
    /// the one that the key has, or a fresh one.
    pub open spec fn counter(self, key: Seq<char>, now: int) -> Counter {
        if self.counters.contains_key(key) {
            self.counters[key]
        } else {
            Counter::fresh(now, self.hits)
        }
    }

    /// Whether a hit on `key` is admitted when the clock reads `now`.
    pub open spec fn admits(self, key: Seq<char>, now: int) -> bool {
        self.counter(key, now).admits_at(now, self.duration)
    }

    /// The limiter after a hit on `key` when the clock reads `now`: only
    /// the counter of `key` changes.
    pub open spec fn after_hit(self, key: Seq<char>, now: int) -> Limiter {
        Limiter {
            hits: self.hits,
            duration: self.duration,
            counters: self.counters.insert(
                key,
                self.counter(key, now).after_hit(now, self.hits, self.duration),
            ),
        }
    }

    /// The keys whose counters cleanup removes when the clock reads `now`.
    pub open spec fn expired_keys(self, now: int) -> Set<Seq<char>> {
        Set::new(
            |key: Seq<char>|
                self.counters.contains_key(key) && self.counters[key].expired(now, self.duration),
        )
    }

    /// The limiter after cleanup when the clock reads `now`.
    pub open spec fn after_cleanup(self, now: int) -> Limiter {
        Limiter {
            hits: self.hits,
            duration: self.duration,
            counters: self.counters.remove_keys(self.expired_keys(now)),
        }
    }
}

impl Limiter {
    /// The limiter after one hit on `key` at each clock reading of `times`,
    /// in order.
    pub open spec fn after_hits(self, key: Seq<char>, times: Seq<int>) -> Limiter
        decreases times.len(),
    {
        if times.len() == 0 {
            self
        } else {
            self.after_hits(key, times.drop_last()).after_hit(key, times.last())
        }
    }

    /// How many of the hits on `key` at the clock readings of `times`,
    /// made in order, are admitted.
    pub open spec fn admitted_count(self, key: Seq<char>, times: Seq<int>) -> nat
        decreases times.len(),
    {
        if times.len() == 0 {
            0
        } else {
            let front = times.drop_last();
            let last: nat = if self.after_hits(key, front).admits(key, times.last()) {
                1
            } else {
                0
            };
            self.admitted_count(key, front) + last
        }
    }
}

/// No pair with a capacity of zero, a window of zero or a window longer
/// than `MAX_DURATION` makes a rule.
pub proof fn lemma_invalid_bounds(hits: u32, duration: u32)
    ensures
        !valid_bounds(0, duration),
        !valid_bounds(hits, 0),
        duration > MAX_DURATION ==> !valid_bounds(hits, duration),
{
}

/// A hit keeps a limiter well formed.
pub proof fn lemma_limiter_after_hit_wf(limiter: Limiter, key: Seq<char>, now: int)
    requires
        limiter.wf(),
        0 <= now <= u64::MAX,
    ensures
        limiter.after_hit(key, now).wf(),
{
    let after = limiter.after_hit(key, now);
    lemma_after_hit_wf(limiter.counter(key, now), now, limiter.hits, limiter.duration);
    assert(after.counters.dom() =~= limiter.counters.dom().insert(key));
    assert forall|other: Seq<char>| #[trigger] after.counters.contains_key(other) implies after.counters[other].wf(
        after.hits,
    ) && after.counters[other].used() by {
        if other != key {
            assert(limiter.counters.contains_key(other));
        }
    }
}

/// Hits on one key work on that key's counter alone: after at least one
/// hit the limiter follows the key, its counter is the one that the first
/// hit found or made, taken through the same hits, and every other key
/// stands as it did.
pub proof fn lemma_hits_on_one_key(limiter: Limiter, key: Seq<char>, times: Seq<int>)
    requires
        times.len() >= 1,
    ensures
        limiter.after_hits(key, times).hits == limiter.hits,
        limiter.after_hits(key, times).duration == limiter.duration,
        limiter.after_hits(key, times).counters.contains_key(key),
        limiter.after_hits(key, times).counters[key] == limiter.counter(key, times[0]).after_hits(
            times,
            limiter.hits,
            limiter.duration,
        ),
        limiter.admitted_count(key, times) == limiter.counter(key, times[0]).admitted_count(
            times,
            limiter.hits,
            limiter.duration,
        ),
        forall|other: Seq<char>|
            other != key ==> (#[trigger] limiter.after_hits(key, times).counters.contains_key(other)
                <==> limiter.counters.contains_key(other)),
        forall|other: Seq<char>|
            other != key && limiter.counters.contains_key(other) ==> #[trigger] limiter.after_hits(
                key,
                times,
            ).counters[other] == limiter.counters[other],
    decreases times.len(),
{
    let front = times.drop_last();
    let first = limiter.counter(key, times[0]);
    if front.len() == 0 {
        assert(limiter.after_hits(key, front) == limiter);
        assert(first.after_hits(front, limiter.hits, limiter.duration) == first);
        assert(limiter.admitted_count(key, front) == 0);
        assert(first.admitted_count(front, limiter.hits, limiter.duration) == 0);
    } else {
        assert(front[0] == times[0]);
        lemma_hits_on_one_key(limiter, key, front);
    }
}

impl Limiter {
    /// Whether the clock, reading `now`, has not fallen behind `key`: no
    /// hit recorded for the key lies after `now`.
    pub open spec fn not_behind(self, key: Seq<char>, now: int) -> bool {
        self.counters.contains_key(key) ==> self.counters[key].latest() <= now
    }

    /// Whether the hits recorded for `key` stand in the order in which a
    /// clock that never runs backwards leaves them.
    pub open spec fn in_order(self, key: Seq<char>) -> bool {
        self.counters.contains_key(key) ==> self.counters[key].in_order()
    }
}

/// The capacity bound. Once as many hits on one key as the capacity have
/// been admitted, whatever hits on it were denied in between, the next hit
/// on that key is admitted exactly when the window has passed since the
/// first of them: it is denied while they all lie within one window, and
/// admitted again from the moment the first one is a window old.
///
/// The clock does not run backwards: no reading lies before an earlier
/// one, nor before the hit that the key recorded last.
pub proof fn lemma_capacity_bound(limiter: Limiter, key: Seq<char>, times: Seq<int>, now: int)
    requires
        limiter.wf(),
        clock_readings(times),
        times.len() >= 1,
        limiter.not_behind(key, times[0]),
        times.last() <= now <= u64::MAX,
        limiter.admits(key, times[0]),
        limiter.admitted_count(key, times) == limiter.hits,
    ensures
        limiter.after_hits(key, times).admits(key, now) <==> now - times[0] >= limiter.duration,
{
    let first = limiter.counter(key, times[0]);
    assert(first.wf(limiter.hits));
    if limiter.counters.contains_key(key) {
        assert(first.slots[first.last_index()] is Some);
    }
    lemma_hits_on_one_key(limiter, key, times);
    lemma_counter_capacity_bound(first, times, limiter.hits, limiter.duration, now);
}

/// A hit at a reading that is not behind the key keeps the key's hits in
/// order, and the clock is then not behind the key at any later reading.
pub proof fn lemma_hit_keeps_order(limiter: Limiter, key: Seq<char>, now: int, later: int)
    requires
        limiter.wf(),
        0 <= now <= later,
        now <= u64::MAX,
        limiter.in_order(key),
        limiter.not_behind(key, now),
    ensures
        limiter.after_hit(key, now).in_order(key),
        limiter.after_hit(key, now).not_behind(key, later),
{
    let c = limiter.counter(key, now);
    if limiter.counters.contains_key(key) {
        assert(c.slots[c.last_index()] is Some);
        lemma_in_order(c, limiter.hits);
    } else {
        assert(c.settled(now).slots[0] == crate::counter::remembered(c.slots[0], c.moved_epoch(now)));
    }
    lemma_latest_after_hits(c, seq![now], limiter.hits, limiter.duration);
    assert(seq![now].drop_last() =~= Seq::<int>::empty());
    assert(c.after_hits(Seq::<int>::empty(), limiter.hits, limiter.duration) == c);
    assert(c.after_hits(seq![now], limiter.hits, limiter.duration) == c.after_hit(
        now,
        limiter.hits,
        limiter.duration,
    ));
    let after = c.after_hit(now, limiter.hits, limiter.duration);
    lemma_in_order(after, limiter.hits);
    assert(after.slots[after.last_index()] is Some);
}

/// A denied hit leaves what the key has recorded as it was, where the
/// clock has not run backwards.
pub proof fn lemma_denied_hit_keeps_history(limiter: Limiter, key: Seq<char>, now: int)
    requires
        limiter.wf(),
        0 <= now <= u64::MAX,
        limiter.in_order(key),
        limiter.not_behind(key, now),
        !limiter.admits(key, now),
    ensures
        limiter.counters.contains_key(key),
        limiter.after_hit(key, now).counters[key].slots == limiter.counters[key].slots,
        limiter.after_hit(key, now).counters[key].next == limiter.counters[key].next,
{
    if limiter.counters.contains_key(key) {
        let c = limiter.counters[key];
        assert(c.slots[c.last_index()] is Some);
        lemma_denied_hit_records_nothing(c, now, limiter.hits, limiter.duration);
    } else {
        let c = Counter::fresh(now, limiter.hits);
        assert(c.settled(now).slots[0] == crate::counter::remembered(c.slots[0], c.moved_epoch(now)));
    }
}

/// Keys are independent. Whatever hits one key takes, a hit on another key
/// finds the counter, and meets the answer, that it would have met without
/// them.
pub proof fn lemma_keys_independent(
    limiter: Limiter,
    key: Seq<char>,
    times: Seq<int>,
    other: Seq<char>,
    now: int,
)
    requires
        key != other,
    ensures
        limiter.after_hits(key, times).counter(other, now) == limiter.counter(other, now),
        limiter.after_hits(key, times).admits(other, now) == limiter.admits(other, now),
{
    if times.len() > 0 {
        lemma_hits_on_one_key(limiter, key, times);
    }
}

/// Cleanup removes a counter exactly when its most recent hit lies the
/// window and `CLEANUP_MARGIN` milliseconds or more in the past; a counter
/// that stays is unchanged, and no counter is added.
pub proof fn lemma_cleanup_exact(limiter: Limiter, key: Seq<char>, now: int)
    ensures
        limiter.after_cleanup(now).counters.contains_key(key) <==> limiter.counters.contains_key(
            key,
        ) && now - limiter.counters[key].latest() < limiter.duration + CLEANUP_MARGIN,
        limiter.after_cleanup(now).counters.contains_key(key) ==> limiter.after_cleanup(
            now,
        ).counters[key] == limiter.counters[key],
{
}

/// From an admitted hit on, the key's counter stays until the window and
/// `CLEANUP_MARGIN` milliseconds have passed since that hit, and cleanup
/// removes it from then on. The clock has not fallen behind the key.
pub proof fn lemma_cleanup_after_hit(limiter: Limiter, key: Seq<char>, hit: int, now: int)
    requires
        limiter.wf(),
        0 <= hit <= u64::MAX,
        limiter.not_behind(key, hit),
        limiter.admits(key, hit),
    ensures
        limiter.after_hit(key, hit).after_cleanup(now).counters.contains_key(key) <==> now - hit
            < limiter.duration + CLEANUP_MARGIN,
{
    let c = limiter.counter(key, hit);
    if limiter.counters.contains_key(key) {
        assert(c.slots[c.last_index()] is Some);
    }
    lemma_latest_after_hit(c, hit, limiter.hits, limiter.duration);
}

/// Cleanup goes by the last admitted hit. After any hits on a key, at
/// readings of a clock that does not run backwards, cleanup keeps the
/// key's counter while less than the window and `CLEANUP_MARGIN`
/// milliseconds have passed since the last hit that was admitted, and
/// removes it from then on; the next hit on a removed key starts from a
/// fresh counter.
pub proof fn lemma_cleanup_after_hits(
    limiter: Limiter,
    key: Seq<char>,
    times: Seq<int>,
    now: int,
    next: int,
)
    requires
        limiter.wf(),
        clock_readings(times),
        times.len() >= 1,
        limiter.in_order(key),
        limiter.not_behind(key, times[0]),
    ensures
        limiter.after_hits(key, times).after_cleanup(now).counters.contains_key(key) <==> now
            - limiter.counter(key, times[0]).last_admitted(times, limiter.hits, limiter.duration)
            < limiter.duration + CLEANUP_MARGIN,
        !limiter.after_hits(key, times).after_cleanup(now).counters.contains_key(key)
            ==> limiter.after_hits(key, times).after_cleanup(now).counter(key, next)
            == Counter::fresh(next, limiter.hits),
{
    let first = limiter.counter(key, times[0]);
    if limiter.counters.contains_key(key) {
        assert(first.slots[first.last_index()] is Some);
        lemma_in_order(first, limiter.hits);
    } else {
        assert(first.settled(times[0]).slots[0] == crate::counter::remembered(
            first.slots[0],
            first.moved_epoch(times[0]),
        ));
    }
    lemma_hits_on_one_key(limiter, key, times);
    lemma_latest_after_hits(first, times, limiter.hits, limiter.duration);
}

/// A rate-limit rule and the counters of the keys hit under it.
pub struct Ratelimit {
    hits: u32,
    duration: u32,
    /// Where each key's counter stands in `entries`.
    index: StringHashMap<usize>,
    /// The key of each counter.
    names: Vec<String>,
    entries: Vec<RLEntry>,
}

impl View for Ratelimit {
    type V = Limiter;

    closed spec fn view(&self) -> Limiter {
        Limiter {
            hits: self.hits as int,
            duration: self.duration as int,
            counters: Map::new(
                |key: Seq<char>| self.index@.contains_key(key),
                |key: Seq<char>| self.entries@[self.index@[key] as int]@,
            ),
        }
    }
}

impl Ratelimit {
    /// The invariant of the representation: `index` and `names` are
    /// inverse to each other, and every counter fits the rule.
    pub closed spec fn wf(&self) -> bool {
        &&& valid_bounds(self.hits, self.duration)
        &&& self.index@.dom().finite()
        &&& self.names@.len() == self.entries@.len()
        &&& forall|i: int|
            0 <= i < self.names@.len() ==> self.index@.contains_key(#[trigger] self.names@[i]@)
                && self.index@[self.names@[i]@] == i
        &&& forall|key: Seq<char>| #[trigger]
            self.index@.contains_key(key) ==> self.index@[key] < self.names@.len()
                && self.names@[self.index@[key] as int]@ == key
        &&& forall|i: int|
            0 <= i < self.entries@.len() ==> (#[trigger] self.entries@[i])@.wf(self.hits as int)
                && self.entries@[i]@.used()
    }

    /// A well-formed limiter has a well-formed model.
    pub proof fn lemma_view_wf(&self)
        requires
            self.wf(),
        ensures
            self@.wf(),
    {
        assert(self@.counters.dom() =~= self.index@.dom());
    }

    /// Accepts `hits` and `duration` exactly when they make a rule;
    /// otherwise the error carries both.
    pub fn check_bounds(hits: u32, duration: u32) -> (checked: Result<(), RatelimitInvalidError>)
        ensures
            valid_bounds(hits, duration) ==> checked == Ok::<(), RatelimitInvalidError>(()),
            !valid_bounds(hits, duration) ==> checked == Err::<(), RatelimitInvalidError>(
                RatelimitInvalidError { hits, duration },
            ),
    {
        if hits == 0 || duration == 0 || duration > MAX_DURATION {
            Err(RatelimitInvalidError { hits, duration })
        } else {
            Ok(())
        }
    }

    /// A limiter of `hits` hits per `duration` milliseconds that follows no
    /// key yet, for every pair that makes a rule; for any other pair, the
    /// error that carries the pair.
    pub fn new(hits: u32, duration: u32) -> (made: Result<Ratelimit, RatelimitInvalidError>)
        ensures
            valid_bounds(hits, duration) ==> made is Ok && made->Ok_0.wf() && made->Ok_0@
                == Limiter::empty(hits as int, duration as int),
            !valid_bounds(hits, duration) ==> made is Err && made->Err_0 == (RatelimitInvalidError {
                hits,
                duration,
            }),
    {
        match Ratelimit::check_bounds(hits, duration) {
            Err(error) => Err(error),
            Ok(_) => {
                let limiter = Ratelimit {
                    hits,
                    duration,
                    index: StringHashMap::new(),
                    names: Vec::new(),
                    entries: Vec::new(),
                };
                assert(limiter@.counters =~= Map::<Seq<char>, Counter>::empty());
                Ok(limiter)
            },
        }
    }

    /// Hits admitted per key within one window.
    pub fn hits(&self) -> (hits: u32)
        ensures
            hits == self@.hits,
    {
        self.hits
    }

    /// The window, in milliseconds.
    pub fn duration(&self) -> (duration: u32)
        ensures
            duration == self@.duration,
    {
        self.duration
    }

    /// Counts a hit on `name` when the clock reads `now`, and says whether
    /// it is admitted. A key that the limiter does not follow yet gets a
    /// counter, and its first hit is admitted.
    pub fn hit(&mut self, name: &str, now: u64) -> (admitted: bool)
        requires
            old(self).wf(),
        ensures
            final(self).wf(),
            admitted == old(self)@.admits(name@, now as int),
            final(self)@ == old(self)@.after_hit(name@, now as int),
            !old(self)@.counters.contains_key(name@) ==> admitted,
    {
        let ghost before = self@;
        let found: Option<usize> = match self.index.get(name) {
            Some(position) => Some(*position),
            None => None,
        };
        match found {
            Some(position) => {
                let admitted = self.entries[position].hit(now, self.hits, self.duration);
                assert(self@.counters =~= before.after_hit(name@, now as int).counters);
                admitted
            },
            None => {
                let mut entry = RLEntry::new(now, self.hits);
                entry.hit(now, self.hits, self.duration);
                let position: usize = self.entries.len();
                self.index.insert(String::from_str(name), position);
                self.names.push(String::from_str(name));
                self.entries.push(entry);
                assert(self@.counters =~= before.after_hit(name@, now as int).counters);
                true
            },
        }
    }

    /// Removes every counter whose most recent hit lies the window and
    /// `CLEANUP_MARGIN` milliseconds or more before `now`, and returns how
    /// many were removed. The counters that stay are as they were.
    pub fn cleanup_at(&mut self, now: u64) -> (removed: usize)
        requires
            old(self).wf(),
        ensures
            final(self).wf(),
            final(self)@ == old(self)@.after_cleanup(now as int),
            removed == old(self)@.expired_keys(now as int).len(),
            removed == old(self)@.counters.len() - final(self)@.counters.len(),
    {
        let ghost before = self@;
        let ghost window = self.duration as int;
        assert(before.counters.dom() =~= self.index@.dom());
        let total: usize = self.index.len();
        let mut i: usize = 0;
        while i < self.entries.len()
            invariant
                self.wf(),
                self.hits == before.hits,
                self.duration == window == before.duration,
                i <= self.entries@.len(),
                forall|key: Seq<char>| #[trigger]
                    self.index@.contains_key(key) ==> before.counters.contains_key(key)
                        && self.entries@[self.index@[key] as int]@ == before.counters[key],
                forall|key: Seq<char>| #[trigger]
                    before.counters.contains_key(key) && !before.counters[key].expired(
                        now as int,
                        window,
                    ) ==> self.index@.contains_key(key),
                forall|j: int|
                    0 <= j < i ==> !(#[trigger] self.entries@[j])@.expired(now as int, window),
            decreases self.entries@.len() - i,
        {
            if self.entries[i].is_expired(now, self.duration) {
                let ghost names = self.names@;
                let ghost index = self.index@;
                let ghost last = names.len() - 1;
                assert(index.contains_key(names[i as int]@));
                assert(index.contains_key(names[last]@));
                self.index.remove(self.names[i].as_str());
                self.names.swap_remove(i);
                self.entries.swap_remove(i);
                if i < self.entries.len() {
                    self.index.insert(self.names[i].clone(), i);
                }
                assert forall|j: int| 0 <= j < self.names@.len() implies self.index@.contains_key(
                    #[trigger] self.names@[j]@,
                ) && self.index@[self.names@[j]@] == j by {
                    if j != i {
                        assert(index.contains_key(names[j]@));
                    }
                }
            } else {
                i = i + 1;
            }
        }
        proof {
            let expired = before.expired_keys(now as int);
            assert(self@.counters =~= before.counters.remove_keys(expired)) by {
                assert forall|key: Seq<char>| #[trigger]
                    self.index@.contains_key(key) implies !expired.contains(key) by {
                    assert(self.entries@[self.index@[key] as int]@ == before.counters[key]);
                }
            }
            assert(self@.counters.dom() =~= self.index@.dom());
            assert(self.index@.dom() =~= before.counters.dom().difference(expired));
            assert(expired.subset_of(before.counters.dom()));
            lemma_len_subset(expired, before.counters.dom());
            lemma_set_difference_len(before.counters.dom(), expired);
            assert(before.counters.dom().intersect(expired) =~= expired);
        }
        total - self.index.len()
    }

    /// The number of keys that the limiter follows.
    pub fn len(&self) -> (count: usize)
        requires
            self.wf(),
        ensures
            count == self@.counters.len(),
    {
        assert(self@.counters.dom() =~= self.index@.dom());
        self.index.len()
    }
}

} // verus!
