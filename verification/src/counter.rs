//! The per-key hit counter: a circular buffer of timestamps, measured from
//! an epoch that moves forward so that they always fit in 32 bits.

use vstd::prelude::*;

verus! {

/// Number of slots by which a counter's buffer grows.
pub const BLOCK_SIZE: usize = 64;

/// Elapsed milliseconds from which a hit moves the epoch forward: half of
/// what 32 bits can hold.
pub const REBASE_AT: u32 = 2_147_483_647;

/// Milliseconds that a counter outlives its window before cleanup takes it.
pub const CLEANUP_MARGIN: u32 = 1000;

/// The history that one key keeps under one limiter, with every recorded
/// hit given as a reading of the clock in milliseconds.
pub struct Counter {
    /// The reference point: recorded hits lie after it, by at most
    /// `u32::MAX` milliseconds.
    pub epoch: int,
    /// For each allocated slot, the time of the hit that it records.
    pub slots: Seq<Option<int>>,
    /// The slot that the next admitted hit fills.
    pub next: int,
}

/// The smallest of `bound` and the times recorded in `slots`.
pub open spec fn earliest(slots: Seq<Option<int>>, bound: int) -> int
    decreases slots.len(),
{
    if slots.len() == 0 {
        bound
    } else {
        let rest = earliest(slots.drop_last(), bound);
        match slots.last() {
            Some(p) => if p < rest {
                p
            } else {
                rest
            },
            None => rest,
        }
    }
}

/// Whether any slot of `slots` records a hit.
pub open spec fn recorded(slots: Seq<Option<int>>) -> bool {
    exists|i: int| 0 <= i < slots.len() && (#[trigger] slots[i]) is Some
}

/// `earliest` is a lower bound of `bound` and of every recorded time, and
/// it is one of them.
pub proof fn lemma_earliest(slots: Seq<Option<int>>, bound: int)
    ensures
        earliest(slots, bound) <= bound,
        forall|i: int|
            0 <= i < slots.len() ==> (#[trigger] slots[i] matches Some(p) ==> earliest(
                slots,
                bound,
            ) <= p),
        earliest(slots, bound) == bound || exists|i: int|
            0 <= i < slots.len() && #[trigger] slots[i] == Some(earliest(slots, bound)),
    decreases slots.len(),
{
    if slots.len() > 0 {
        let front = slots.drop_last();
        lemma_earliest(front, bound);
        assert forall|i: int| 0 <= i < slots.len() implies (#[trigger] slots[i] matches Some(p)
            ==> earliest(slots, bound) <= p) by {
            if i < front.len() {
                assert(front[i] == slots[i]);
            }
        }
        let low = earliest(slots, bound);
        if low != bound {
            if slots.last() == Some(low) {
                assert(slots[slots.len() - 1] == Some(low));
            } else {
                let i = choose|i: int| 0 <= i < front.len() && #[trigger] front[i] == Some(low);
                assert(slots[i] == Some(low));
            }
        }
    }
}

/// What a slot holds once the epoch stands at `epoch`: a hit at or before
/// the epoch counts as one millisecond after it.
pub open spec fn remembered(slot: Option<int>, epoch: int) -> Option<int> {
    match slot {
        Some(p) => if p <= epoch {
            Some(epoch + 1)
        } else {
            Some(p)
        },
        None => None,
    }
}

impl Counter {
    /// The counter of a key that has not been hit yet, made when the clock
    /// reads `now`, for a limiter of capacity `size`.
    pub open spec fn fresh(now: int, size: int) -> Counter {
        Counter {
            epoch: now - 1,
            slots: Seq::new(
                (if size < BLOCK_SIZE {
                    size
                } else {
                    BLOCK_SIZE as int
                }) as nat,
                |i: int| None,
            ),
            next: 0,
        }
    }

    /// What a counter of a limiter of capacity `size` always satisfies.
    pub open spec fn wf(self, size: int) -> bool {
        &&& 1 <= size <= u32::MAX
        &&& 1 <= self.slots.len() <= size
        &&& 0 <= self.next < size
        &&& self.next <= self.slots.len()
        &&& -1 <= self.epoch < u64::MAX
        &&& forall|i: int|
            0 <= i < self.slots.len() ==> (#[trigger] self.slots[i] matches Some(p) ==> self.epoch
                < p <= self.epoch + u32::MAX && p <= u64::MAX)
    }

    /// The hit recorded in slot `i`; none where the buffer has not grown
    /// that far.
    pub open spec fn slot(self, i: int) -> Option<int> {
        if 0 <= i < self.slots.len() {
            self.slots[i]
        } else {
            None
        }
    }

    /// The time that the counter takes a hit to happen at when the clock
    /// reads `now`: `now` itself, unless the clock has fallen behind the
    /// epoch.
    pub open spec fn reading(self, now: int) -> int {
        if now <= self.epoch {
            self.epoch + 1
        } else {
            now
        }
    }

    /// Whether a hit at time `t` is admitted under a window of `window`
    /// milliseconds: the slot it would fill is empty, or the hit recorded
    /// there is at least `window` old.
    pub open spec fn admits(self, t: int, window: int) -> bool {
        match self.slot(self.next) {
            Some(p) => t - p >= window,
            None => true,
        }
    }

    /// Where the epoch would stand for a hit at time `t` if recorded hits
    /// were all that counted. Once `t` lies `REBASE_AT` or more after the
    /// epoch, it is one millisecond before the earliest of the recorded
    /// times and `t`; a counter without a recorded hit keeps its epoch.
    pub open spec fn rebased_epoch(self, t: int) -> int {
        if t - self.epoch >= REBASE_AT && recorded(self.slots) {
            earliest(self.slots, t) - 1
        } else {
            self.epoch
        }
    }

    /// The epoch from which a hit at time `t` is read: the rebased one, or
    /// `u32::MAX` milliseconds before `t` if that is later, so that `t`
    /// always lies within reach of it.
    pub open spec fn moved_epoch(self, t: int) -> int {
        if t - self.rebased_epoch(t) > u32::MAX {
            t - u32::MAX
        } else {
            self.rebased_epoch(t)
        }
    }

    /// The counter as a hit at time `t` finds it: the epoch has moved, and
    /// a hit that the epoch has passed is remembered one millisecond after
    /// the epoch. Such a hit is `u32::MAX` milliseconds old or more.
    pub open spec fn settled(self, t: int) -> Counter {
        Counter {
            epoch: self.moved_epoch(t),
            slots: Seq::new(
                self.slots.len(),
                |i: int| remembered(self.slots[i], self.moved_epoch(t)),
            ),
            next: self.next,
        }
    }

    /// Whether a hit is admitted when the clock reads `now`.
    pub open spec fn admits_at(self, now: int, window: int) -> bool {
        self.settled(self.reading(now)).admits(self.reading(now), window)
    }

    /// The slots once the buffer has room for slot `next`: one block more,
    /// as far as `size` allows, when `next` lies just past the end.
    pub open spec fn grown(self, size: int) -> Seq<Option<int>> {
        if self.next == self.slots.len() {
            let room = size - self.slots.len();
            self.slots + Seq::new(
                (if room < BLOCK_SIZE {
                    room
                } else {
                    BLOCK_SIZE as int
                }) as nat,
                |i: int| None,
            )
        } else {
            self.slots
        }
    }

    /// The slot after `next`, going round a buffer of `size` slots.
    pub open spec fn advanced(self, size: int) -> int {
        if self.next == size - 1 {
            0
        } else {
            self.next + 1
        }
    }

    /// The counter after a hit when the clock reads `now`, under a limiter
    /// of capacity `size` and window `window`. The epoch moves first. An
    /// admitted hit is then recorded in slot `next`, at the very time that
    /// the clock reads unless the clock has fallen behind the epoch; a
    /// denied hit is recorded nowhere.
    pub open spec fn after_hit(self, now: int, size: int, window: int) -> Counter {
        let t = self.reading(now);
        let found = self.settled(t);
        if found.admits(t, window) {
            Counter {
                epoch: found.epoch,
                slots: found.grown(size).update(found.next, Some(t)),
                next: found.advanced(size),
            }
        } else {
            found
        }
    }

    /// The slot that was filled last.
    pub open spec fn last_index(self) -> int {
        if self.next == 0 {
            self.slots.len() - 1
        } else {
            self.next - 1
        }
    }

    /// The time of the most recent recorded hit; the epoch if the slot that
    /// would hold it is empty.
    pub open spec fn latest(self) -> int {
        match self.slot(self.last_index()) {
            Some(p) => p,
            None => self.epoch,
        }
    }

    /// Whether at least one hit has been recorded since the counter was
    /// made.
    pub open spec fn used(self) -> bool {
        self.slot(self.last_index()) is Some
    }

    /// Whether cleanup removes the counter when the clock reads `now`: the
    /// most recent hit lies `window + CLEANUP_MARGIN` milliseconds or more
    /// in the past.
    pub open spec fn expired(self, now: int, window: int) -> bool {
        now - self.latest() >= window + CLEANUP_MARGIN
    }
}

/// What moving the epoch for a hit at time `t` does: the epoch goes forward
/// and stays before `t`, with `t` within reach; a recorded hit either stays
/// as it is or, being `u32::MAX` milliseconds old or more, is remembered
/// `u32::MAX - 1` milliseconds before `t`.
pub proof fn lemma_settled(c: Counter, t: int, size: int)
    requires
        c.wf(size),
        c.epoch < t <= u64::MAX,
    ensures
        c.settled(t).wf(size),
        c.epoch <= c.settled(t).epoch < t <= c.settled(t).epoch + u32::MAX,
        c.settled(t).slots.len() == c.slots.len(),
        forall|i: int|
            0 <= i < c.slots.len() ==> match #[trigger] c.slots[i] {
                Some(p) => c.settled(t).slots[i] == Some(p) || (p <= t - u32::MAX && c.settled(
                    t,
                ).slots[i] == Some(t - u32::MAX + 1)),
                None => c.settled(t).slots[i] is None,
            },
{
    lemma_earliest(c.slots, t);
    let moved = c.moved_epoch(t);
    assert forall|i: int| 0 <= i < c.slots.len() implies match #[trigger] c.slots[i] {
        Some(p) => c.settled(t).slots[i] == Some(p) || (p <= t - u32::MAX && c.settled(t).slots[i]
            == Some(t - u32::MAX + 1)),
        None => c.settled(t).slots[i] is None,
    } by {
        assert(c.settled(t).slots[i] == remembered(c.slots[i], moved));
    }
    assert forall|i: int| 0 <= i < c.settled(t).slots.len() implies (#[trigger] c.settled(
        t,
    ).slots[i] matches Some(p) ==> moved < p <= moved + u32::MAX && p <= u64::MAX) by {
        assert(c.settled(t).slots[i] == remembered(c.slots[i], moved));
    }
}

/// A hit keeps a counter well formed, and marks it as used once it is
/// admitted.
pub proof fn lemma_after_hit_wf(c: Counter, now: int, size: int, window: int)
    requires
        c.wf(size),
        0 <= now <= u64::MAX,
    ensures
        c.after_hit(now, size, window).wf(size),
        c.after_hit(now, size, window).epoch < c.reading(now),
        c.admits_at(now, window) || c.used() ==> c.after_hit(now, size, window).used(),
{
    let t = c.reading(now);
    let found = c.settled(t);
    let after = c.after_hit(now, size, window);
    lemma_settled(c, t, size);
    if found.admits(t, window) {
        assert forall|i: int| 0 <= i < after.slots.len() implies (#[trigger] after.slots[i] matches Some(
            p,
        ) ==> after.epoch < p <= after.epoch + u32::MAX && p <= u64::MAX) by {
            if i != c.next && i < found.slots.len() {
                assert(after.slots[i] == found.slots[i]);
            }
        }
    } else if c.used() {
        assert(found.slots[c.last_index()] is Some);
    }
}

impl Counter {
    /// The counter after one hit at each clock reading of `times`, in
    /// order.
    pub open spec fn after_hits(self, times: Seq<int>, size: int, window: int) -> Counter
        decreases times.len(),
    {
        if times.len() == 0 {
            self
        } else {
            self.after_hits(times.drop_last(), size, window).after_hit(times.last(), size, window)
        }
    }

    /// How many of the hits at the clock readings of `times`, made in
    /// order, are admitted.
    pub open spec fn admitted_count(self, times: Seq<int>, size: int, window: int) -> nat
        decreases times.len(),
    {
        if times.len() == 0 {
            0
        } else {
            let front = times.drop_last();
            let last: nat = if self.after_hits(front, size, window).admits_at(times.last(), window) {
                1
            } else {
                0
            };
            self.admitted_count(front, size, window) + last
        }
    }

    /// Whether no recorded hit lies after the time `t`.
    pub open spec fn none_after(self, t: int) -> bool {
        forall|i: int|
            0 <= i < self.slots.len() ==> (#[trigger] self.slots[i] matches Some(p) ==> p <= t)
    }

    /// Whether the recorded hits stand in the order in which a clock that
    /// never runs backwards leaves them: going round the buffer from slot
    /// `next`, no hit is earlier than the one before it.
    pub open spec fn in_order(self) -> bool {
        forall|i: int, j: int|
            0 <= i < j < self.slots.len() ==> match (#[trigger] self.slots[i], #[trigger] self.slots[j]) {
                (Some(p), Some(q)) => if i < self.next <= j {
                    q <= p
                } else {
                    p <= q
                },
                _ => true,
            }
    }

    /// The time of the most recent admitted hit once the hits at the clock
    /// readings of `times` have been made, in order; the counter's own most
    /// recent hit if none of them was admitted.
    pub open spec fn last_admitted(self, times: Seq<int>, size: int, window: int) -> int
        decreases times.len(),
    {
        if times.len() == 0 {
            self.latest()
        } else if self.after_hits(times.drop_last(), size, window).admits_at(times.last(), window) {
            times.last()
        } else {
            self.last_admitted(times.drop_last(), size, window)
        }
    }
}

/// Whether the members of `times` are readings of a clock that does not
/// run backwards.
pub open spec fn clock_readings(times: Seq<int>) -> bool {
    &&& forall|i: int| 0 <= i < times.len() ==> 0 <= #[trigger] times[i] <= u64::MAX
    &&& forall|i: int, j: int| 0 <= i <= j < times.len() ==> times[i] <= times[j]
}

/// An admitted hit becomes the most recent one, at the time that the
/// counter read.
pub proof fn lemma_latest_after_hit(c: Counter, now: int, size: int, window: int)
    requires
        c.wf(size),
        0 <= now <= u64::MAX,
        c.admits_at(now, window),
    ensures
        c.after_hit(now, size, window).latest() == c.reading(now),
{
    lemma_settled(c, c.reading(now), size);
}

/// In a counter whose hits stand in order, the slot to fill next holds the
/// earliest of them and the slot filled last the most recent.
pub proof fn lemma_in_order(c: Counter, size: int)
    requires
        c.wf(size),
        c.in_order(),
    ensures
        forall|i: int|
            0 <= i < c.slots.len() ==> (#[trigger] c.slots[i] matches Some(p) ==> (c.used() ==> p
                <= c.latest()) && (c.slot(c.next) matches Some(q) ==> q <= p)),
{
    assert forall|i: int| 0 <= i < c.slots.len() implies (#[trigger] c.slots[i] matches Some(p) ==> (
    c.used() ==> p <= c.latest()) && (c.slot(c.next) matches Some(q) ==> q <= p)) by {
        let last = c.last_index();
        if c.slots[i] is Some {
            if c.used() && i != last {
                if i < last {
                    assert(c.slots[i] is Some && c.slots[last] is Some);
                } else {
                    assert(c.slots[last] is Some && c.slots[i] is Some);
                }
            }
            if c.slot(c.next) is Some && i != c.next {
                if i < c.next {
                    assert(c.slots[i] is Some && c.slots[c.next] is Some);
                } else {
                    assert(c.slots[c.next] is Some && c.slots[i] is Some);
                }
            }
        }
    }
}

/// A denied hit fills no slot. Where the clock has not run backwards, it
/// changes nothing but the epoch: the recorded hits are as they were.
pub proof fn lemma_denied_hit_records_nothing(c: Counter, now: int, size: int, window: int)
    requires
        c.wf(size),
        0 <= window < u32::MAX,
        c.epoch < now <= u64::MAX,
        !c.admits_at(now, window),
    ensures
        c.after_hit(now, size, window).next == c.next,
        c.after_hit(now, size, window).slots.len() == c.slots.len(),
        c.in_order() ==> c.after_hit(now, size, window).slots == c.slots,
{
    let found = c.settled(now);
    lemma_settled(c, now, size);
    if c.in_order() {
        lemma_in_order(c, size);
        assert(c.slots[c.next] is Some);
        assert forall|i: int| 0 <= i < c.slots.len() implies found.slots[i] == c.slots[i] by {
            assert(c.slots[i] is Some ==> c.slots[c.next] is Some);
        }
        assert(found.slots =~= c.slots);
    }
}

/// A hit at a reading of the clock that no recorded hit lies after keeps
/// the recorded hits in order, and none of them lies after that reading.
pub proof fn lemma_after_hit_in_order(c: Counter, now: int, size: int, window: int)
    requires
        c.wf(size),
        c.in_order(),
        c.none_after(now),
        0 <= window < u32::MAX,
        c.epoch < now <= u64::MAX,
    ensures
        c.after_hit(now, size, window).in_order(),
        c.after_hit(now, size, window).none_after(now),
        c.admits_at(now, window) ==> c.after_hit(now, size, window).latest() == now,
        !c.admits_at(now, window) && c.used() ==> c.after_hit(now, size, window).latest()
            == c.latest(),
{
    let found = c.settled(now);
    let after = c.after_hit(now, size, window);
    lemma_settled(c, now, size);
    if found.admits(now, window) {
        assert forall|k: int| 0 <= k < after.slots.len() && k != c.next implies (k
            < c.slots.len() && #[trigger] after.slots[k] == remembered(c.slots[k], found.epoch))
            || after.slots[k] is None by {
            if k < c.slots.len() {
                assert(found.slots[k] == remembered(c.slots[k], found.epoch));
            }
        }
        assert forall|i: int, j: int| 0 <= i < j < after.slots.len() implies match (
            #[trigger] after.slots[i],
            #[trigger] after.slots[j],
        ) {
            (Some(p), Some(q)) => if i < after.next <= j {
                q <= p
            } else {
                p <= q
            },
            _ => true,
        } by {
            if after.slots[i] is Some && after.slots[j] is Some {
                if i != c.next {
                    assert(c.slots[i] is Some);
                }
                if j != c.next {
                    assert(c.slots[j] is Some);
                }
                if i != c.next && j != c.next {
                    assert(match (c.slots[i], c.slots[j]) {
                        (Some(p), Some(q)) => if i < c.next <= j {
                            q <= p
                        } else {
                            p <= q
                        },
                        _ => true,
                    });
                }
            }
        }
        assert forall|k: int| 0 <= k < after.slots.len() implies (#[trigger] after.slots[k] matches Some(
            p,
        ) ==> p <= now) by {
            if k != c.next && after.slots[k] is Some {
                assert(c.slots[k] is Some);
            }
        }
    } else {
        lemma_denied_hit_records_nothing(c, now, size, window);
    }
}

/// After hits at readings of a clock that does not run backwards, the
/// recorded hits stand in order and the most recent of them is the last
/// one that was admitted.
pub proof fn lemma_latest_after_hits(c: Counter, times: Seq<int>, size: int, window: int)
    requires
        c.wf(size),
        c.in_order(),
        0 <= window < u32::MAX,
        clock_readings(times),
        times.len() >= 1,
        c.epoch < times[0],
        c.none_after(times[0]),
        c.used() || c.admits_at(times[0], window),
    ensures
        c.after_hits(times, size, window).wf(size),
        c.after_hits(times, size, window).used(),
        c.after_hits(times, size, window).in_order(),
        c.after_hits(times, size, window).none_after(times.last()),
        c.after_hits(times, size, window).epoch < times.last(),
        c.after_hits(times, size, window).latest() == c.last_admitted(times, size, window),
    decreases times.len(),
{
    let front = times.drop_last();
    let before = c.after_hits(front, size, window);
    if front.len() > 0 {
        assert(front[0] == times[0]);
        assert(front.last() == times[times.len() - 2]);
        lemma_latest_after_hits(c, front, size, window);
    } else {
        assert(before == c);
        assert(c.last_admitted(front, size, window) == c.latest());
    }
    lemma_after_hit_wf(before, times.last(), size, window);
    lemma_after_hit_in_order(before, times.last(), size, window);
}

/// A run of hits that starts with an admitted one counts it.
pub proof fn lemma_admitted_count_first(c: Counter, times: Seq<int>, size: int, window: int)
    requires
        times.len() >= 1,
        c.admits_at(times[0], window),
    ensures
        c.admitted_count(times, size, window) >= 1,
    decreases times.len(),
{
    let front = times.drop_last();
    if front.len() == 0 {
        assert(c.after_hits(front, size, window) == c);
    } else {
        lemma_admitted_count_first(c, front, size, window);
    }
}

/// What is left of a hit at time `first` in a slot by the time `t`: the hit
/// itself, or a later time that is `u32::MAX - 1` milliseconds or more
/// before `t`.
pub open spec fn kept(slot: Option<int>, first: int, t: int) -> bool {
    slot matches Some(p) && (p == first || (first < p && t - p >= u32::MAX - 1))
}

/// From an admitted hit on, and until as many hits as the capacity have
/// been admitted, the slot that this first hit filled keeps it, whatever
/// hits were denied in between; and the next slot to fill lies as many
/// slots further round the buffer as hits were admitted.
pub proof fn lemma_first_hit_stays(c: Counter, times: Seq<int>, size: int, window: int)
    requires
        c.wf(size),
        clock_readings(times),
        times.len() >= 1,
        c.epoch < times[0],
        c.admits_at(times[0], window),
        c.admitted_count(times, size, window) <= size,
    ensures
        c.after_hits(times, size, window).wf(size),
        c.after_hits(times, size, window).epoch < times.last(),
        kept(c.after_hits(times, size, window).slot(c.next), times[0], times.last()),
        c.after_hits(times, size, window).next == (if c.next + c.admitted_count(
            times,
            size,
            window,
        ) < size {
            c.next + c.admitted_count(times, size, window)
        } else {
            c.next + c.admitted_count(times, size, window) - size
        }),
    decreases times.len(),
{
    let front = times.drop_last();
    let before = c.after_hits(front, size, window);
    let t = times.last();
    if front.len() == 0 {
        assert(before == c);
        lemma_settled(c, t, size);
        lemma_after_hit_wf(c, t, size, window);
    } else {
        assert(front[0] == times[0]);
        assert(front.last() == times[times.len() - 2]);
        lemma_admitted_count_first(c, front, size, window);
        lemma_first_hit_stays(c, front, size, window);
        lemma_settled(before, t, size);
        lemma_after_hit_wf(before, t, size, window);
        let found = before.settled(t);
        assert(before.slots[c.next] is Some);
        assert(kept(found.slots[c.next], times[0], t));
    }
}

/// The capacity bound. Once as many hits as the capacity have been
/// admitted, whatever hits were denied in between, the next hit is admitted
/// exactly when the window has passed since the first of them: it is
/// denied while they all lie within one window, and admitted again from
/// the moment the first one is a window old.
///
/// The clock does not run backwards, and its first reading lies after the
/// counter's epoch.
pub proof fn lemma_counter_capacity_bound(
    c: Counter,
    times: Seq<int>,
    size: int,
    window: int,
    now: int,
)
    requires
        c.wf(size),
        0 <= window < u32::MAX,
        clock_readings(times),
        times.len() >= 1,
        c.epoch < times[0],
        times.last() <= now <= u64::MAX,
        c.admits_at(times[0], window),
        c.admitted_count(times, size, window) == size,
    ensures
        c.after_hits(times, size, window).admits_at(now, window) <==> now - times[0] >= window,
{
    lemma_first_hit_stays(c, times, size, window);
    let after = c.after_hits(times, size, window);
    lemma_settled(after, now, size);
    assert(after.slots[c.next] is Some);
}

/// The time that stamp `stamp` stands for in a counter whose stamp 1 is the
/// clock time `origin`; none for the stamp 0, which marks an empty slot.
pub open spec fn stamp_time(origin: u64, stamp: u32) -> Option<int> {
    if stamp == 0 {
        None
    } else {
        Some(origin + stamp - 1)
    }
}

/// One key's counter: a buffer of 32-bit timestamps, written in a circle.
pub struct RLEntry {
    /// The clock time that reads as stamp 1, one millisecond after the
    /// epoch.
    origin: u64,
    /// The slot that the next admitted hit fills.
    index: u32,
    /// Milliseconds since the epoch of the hit in each slot; 0 for none.
    timestamps: Vec<u32>,
}

impl View for RLEntry {
    type V = Counter;

    closed spec fn view(&self) -> Counter {
        Counter {
            epoch: self.origin - 1,
            slots: Seq::new(
                self.timestamps@.len(),
                |i: int| stamp_time(self.origin, self.timestamps@[i]),
            ),
            next: self.index as int,
        }
    }
}

impl RLEntry {
    /// A counter without hits for a limiter of capacity `size`, made when
    /// the clock reads `now`.
    pub fn new(now: u64, size: u32) -> (entry: RLEntry)
        requires
            size >= 1,
        ensures
            entry@ == Counter::fresh(now as int, size as int),
            entry@.wf(size as int),
    {
        let max: usize = size as usize;
        let length: usize = if max < BLOCK_SIZE {
            max
        } else {
            BLOCK_SIZE
        };
        let entry = RLEntry { origin: now, index: 0, timestamps: vec![0u32; length] };
        assert(entry@.slots =~= Counter::fresh(now as int, size as int).slots);
        entry
    }

    /// Moves the epoch for a hit that comes `elapsed` milliseconds after
    /// stamp 1, and returns the stamp of that hit under the new epoch.
    fn rebase(&mut self, elapsed: u64) -> (read: u32)
        requires
            old(self).origin + elapsed <= u64::MAX,
        ensures
            final(self)@ == old(self)@.settled(old(self).origin + elapsed),
            final(self)@.epoch + read == old(self).origin + elapsed,
            final(self).timestamps@.len() == old(self).timestamps@.len(),
            read >= 1,
    {
        let ghost before = self@;
        let ghost t = self.origin + elapsed;
        let length: usize = self.timestamps.len();
        let mut shift: u64 = 0;
        if elapsed >= (REBASE_AT - 1) as u64 {
            let mut low: u64 = elapsed;
            let mut seen: bool = false;
            let mut i: usize = 0;
            while i < length
                invariant
                    i <= length,
                    length == self.timestamps@.len(),
                    self@ == before,
                    t == self.origin + elapsed,
                    low <= elapsed,
                    self.origin + low == earliest(before.slots.take(i as int), t),
                    seen == recorded(before.slots.take(i as int)),
                decreases length - i,
            {
                let stamp: u32 = self.timestamps[i];
                proof {
                    let front = before.slots.take(i as int);
                    let more = before.slots.take(i + 1);
                    assert(more.drop_last() =~= front);
                    assert(more.last() == stamp_time(self.origin, stamp));
                    if stamp > 0 || seen {
                        if stamp > 0 {
                            assert(more[i as int] is Some);
                        } else {
                            let j = choose|j: int|
                                0 <= j < front.len() && (#[trigger] front[j]) is Some;
                            assert(more[j] is Some);
                        }
                    } else {
                        assert forall|j: int| 0 <= j < more.len() implies !((#[trigger] more[j]) is Some) by {
                            if j < i {
                                assert(front[j] == more[j]);
                            }
                        }
                    }
                }
                if stamp > 0 {
                    seen = true;
                    if ((stamp - 1) as u64) < low {
                        low = (stamp - 1) as u64;
                    }
                }
                i = i + 1;
            }
            assert(before.slots.take(length as int) =~= before.slots);
            if seen {
                shift = low;
            }
        }
        assert(before.epoch + shift == before.rebased_epoch(t));
        if elapsed - shift > (u32::MAX - 1) as u64 {
            shift = elapsed - (u32::MAX - 1) as u64;
        }
        assert(before.epoch + shift == before.moved_epoch(t));
        if shift > 0 {
            let mut j: usize = 0;
            while j < length
                invariant
                    j <= length,
                    length == self.timestamps@.len(),
                    length == before.slots.len(),
                    self.origin - 1 == before.epoch,
                    self.index == before.next,
                    shift <= elapsed,
                    self.origin + elapsed <= u64::MAX,
                    forall|k: int|
                        0 <= k < j ==> stamp_time(
                            (self.origin + shift) as u64,
                            #[trigger] self.timestamps@[k],
                        ) == remembered(before.slots[k], before.epoch + shift),
                    forall|k: int|
                        j <= k < length ==> stamp_time(self.origin, #[trigger] self.timestamps@[k])
                            == before.slots[k],
                decreases length - j,
            {
                let stamp: u32 = self.timestamps[j];
                if stamp > 0 {
                    if stamp as u64 > shift {
                        self.timestamps[j] = (stamp as u64 - shift) as u32;
                    } else {
                        self.timestamps[j] = 1;
                    }
                }
                j = j + 1;
            }
            self.origin = self.origin + shift;
        }
        assert(self@.slots =~= before.settled(t).slots);
        (elapsed - shift + 1) as u32
    }

    /// Records a hit when the clock reads `now`, under a limiter of
    /// capacity `size` and a window of `duration` milliseconds, unless the
    /// slot that it would fill holds a hit younger than the window. Says
    /// whether the hit was admitted.
    pub fn hit(&mut self, now: u64, size: u32, duration: u32) -> (admitted: bool)
        requires
            old(self)@.wf(size as int),
        ensures
            admitted == old(self)@.admits_at(now as int, duration as int),
            final(self)@ == old(self)@.after_hit(now as int, size as int, duration as int),
            final(self)@.wf(size as int),
            admitted || old(self)@.used() ==> final(self)@.used(),
    {
        let ghost before = self@;
        let ghost t = before.reading(now as int);
        proof {
            lemma_settled(before, t, size as int);
            lemma_after_hit_wf(before, now as int, size as int, duration as int);
        }
        let elapsed: u64 = if now > self.origin {
            now - self.origin
        } else {
            0
        };
        let read: u32 = self.rebase(elapsed);
        let ghost found = self@;

        let index: usize = self.index as usize;
        if index == self.timestamps.len() {
            let room: usize = size as usize - index;
            let increment: usize = if room < BLOCK_SIZE {
                room
            } else {
                BLOCK_SIZE
            };
            self.timestamps.resize(index + increment, 0u32);
        }
        assert(self@.slots =~= found.grown(size as int));

        let previous: u32 = self.timestamps[index];
        assert(stamp_time(self.origin, previous) == found.slot(found.next)) by {
            assert(self@.slots[index as int] == stamp_time(self.origin, previous));
        }
        if previous > 0 && (read < previous || read - previous < duration) {
            assert(self@.slots =~= found.slots);
            false
        } else {
            self.timestamps[index] = read;
            if self.index == size - 1 {
                self.index = 0;
            } else {
                self.index = self.index + 1;
            }
            assert(self@.slots =~= found.grown(size as int).update(found.next, Some(t)));
            true
        }
    }

    /// Whether cleanup removes the counter when the clock reads `now`, under
    /// a window of `duration` milliseconds.
    pub fn is_expired(&self, now: u64, duration: u32) -> (expired: bool)
        requires
            1 <= self@.slots.len(),
            0 <= self@.next <= self@.slots.len(),
        ensures
            expired == self@.expired(now as int, duration as int),
    {
        let index: usize = self.index as usize;
        let last: usize = if index == 0 {
            self.timestamps.len() - 1
        } else {
            index - 1
        };
        let stamp: u32 = self.timestamps[last];
        assert(self@.slot(self@.last_index()) == stamp_time(self.origin, stamp));
        now as u128 + 1 >= self.origin as u128 + stamp as u128 + duration as u128
            + CLEANUP_MARGIN as u128
    }
}

} // verus!
