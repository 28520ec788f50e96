//! The limiters made on demand, one for each rule that a key has asked
//! for.

use crate::ratelimit::{valid_bounds, Limiter, Ratelimit, RatelimitInvalidError};
use std::collections::HashMap;
use vstd::prelude::*;

verus! {

broadcast use vstd::std_specs::hash::group_hash_axioms;

/// The number under which the limiter of a rule is filed.
pub open spec fn rule_key(hits: u32, duration: u32) -> u64 {
    (hits * 0x1_0000_0000 + duration) as u64
}

/// Two rules are filed under one number only if they are the same rule.
pub proof fn lemma_rule_key_injective(h1: u32, d1: u32, h2: u32, d2: u32)
    requires
        rule_key(h1, d1) == rule_key(h2, d2),
    ensures
        h1 == h2,
        d1 == d2,
{
}

/// The number under which the limiter of a rule is filed.
fn key_of(hits: u32, duration: u32) -> (key: u64)
    ensures
        key == rule_key(hits, duration),
{
    hits as u64 * 0x1_0000_0000 + duration as u64
}

/// The limiter that asking for the rule `hits` per `duration` gives: the
/// one held under the rule, or else a new one without counters.
pub open spec fn instance_of(limiters: Map<(u32, u32), Limiter>, hits: u32, duration: u32) -> Limiter {
    if limiters.contains_key((hits, duration)) {
        limiters[(hits, duration)]
    } else {
        Limiter::empty(hits as int, duration as int)
    }
}

/// The limiters held once the rule `hits` per `duration` has been asked
/// for and its limiter left untouched.
pub open spec fn registered(limiters: Map<(u32, u32), Limiter>, hits: u32, duration: u32) -> Map<
    (u32, u32),
    Limiter,
> {
    limiters.insert((hits, duration), instance_of(limiters, hits, duration))
}

/// Asking twice for one rule gives one limiter. The second request finds
/// the limiter as the first one left it, hits included, and makes no other;
/// the limiters of other rules are not touched.
pub proof fn lemma_instance_shared(
    limiters: Map<(u32, u32), Limiter>,
    hits: u32,
    duration: u32,
    left: Limiter,
    other: (u32, u32),
)
    ensures
        instance_of(limiters.insert((hits, duration), left), hits, duration) == left,
        instance_of(registered(limiters, hits, duration), hits, duration) == instance_of(
            limiters,
            hits,
            duration,
        ),
        registered(registered(limiters, hits, duration), hits, duration) == registered(
            limiters,
            hits,
            duration,
        ),
        other != (hits, duration) ==> instance_of(
            limiters.insert((hits, duration), left),
            other.0,
            other.1,
        ) == instance_of(limiters, other.0, other.1),
{
    assert(registered(registered(limiters, hits, duration), hits, duration) =~= registered(
        limiters,
        hits,
        duration,
    ));
}

/// The sum, over the limiters of `limiters`, of the number of counters
/// that cleanup removes from each when the clock reads `now`.
pub open spec fn expired_total(limiters: Map<(u32, u32), Limiter>, now: int) -> nat
    decreases limiters.dom().len(),
    when limiters.dom().finite()
{
    if limiters.dom().len() == 0 {
        0
    } else {
        let rule = limiters.dom().choose();
        limiters[rule].expired_keys(now).len() + expired_total(limiters.remove(rule), now)
    }
}

/// The sum does not depend on which limiter is counted first.
pub proof fn lemma_expired_total_remove(
    limiters: Map<(u32, u32), Limiter>,
    rule: (u32, u32),
    now: int,
)
    requires
        limiters.dom().finite(),
        limiters.contains_key(rule),
    ensures
        expired_total(limiters, now) == limiters[rule].expired_keys(now).len() + expired_total(
            limiters.remove(rule),
            now,
        ),
    decreases limiters.dom().len(),
{
    let first = limiters.dom().choose();
    if first != rule {
        lemma_expired_total_remove(limiters.remove(first), rule, now);
        lemma_expired_total_remove(limiters.remove(rule), first, now);
        assert(limiters.remove(first).remove(rule) =~= limiters.remove(rule).remove(first));
    }
}

/// Limiters by rule, each made when its rule is first asked for.
pub struct RatelimitCollection {
    /// Where each rule's limiter stands in `entries`.
    index: HashMap<u64, usize>,
    entries: Vec<Ratelimit>,
}

impl View for RatelimitCollection {
    type V = Map<(u32, u32), Limiter>;

    closed spec fn view(&self) -> Map<(u32, u32), Limiter> {
        Map::new(
            |rule: (u32, u32)| self.index@.contains_key(rule_key(rule.0, rule.1)),
            |rule: (u32, u32)| self.entries@[self.index@[rule_key(rule.0, rule.1)] as int]@,
        )
    }
}

impl Default for RatelimitCollection {
    /// A collection without limiters.
    fn default() -> (made: RatelimitCollection)
        ensures
            made.wf(),
            made@ == Map::<(u32, u32), Limiter>::empty(),
    {
        RatelimitCollection::new()
    }
}

impl RatelimitCollection {
    /// The invariant of the representation: every limiter is well formed
    /// and filed under the number of its own rule.
    pub closed spec fn wf(&self) -> bool {
        &&& forall|i: int|
            0 <= i < self.entries@.len() ==> {
                let limiter = #[trigger] self.entries@[i];
                let key = rule_key(limiter@.hits as u32, limiter@.duration as u32);
                &&& limiter.wf()
                &&& 0 <= limiter@.hits <= u32::MAX
                &&& 0 <= limiter@.duration <= u32::MAX
                &&& self.index@.contains_key(key)
                &&& self.index@[key] == i
            }
        &&& forall|key: u64| #[trigger]
            self.index@.contains_key(key) ==> {
                let i = self.index@[key];
                &&& i < self.entries@.len()
                &&& rule_key(self.entries@[i as int]@.hits as u32, self.entries@[i as int]@.duration as u32)
                    == key
            }
    }

    /// In a well-formed collection every limiter is well formed and has
    /// the rule that it is found under, and there are finitely many.
    pub proof fn lemma_view_wf(&self)
        requires
            self.wf(),
        ensures
            self@.dom().finite(),
            forall|rule: (u32, u32)| #[trigger]
                self@.contains_key(rule) ==> self@[rule].wf() && self@[rule].hits == rule.0
                    && self@[rule].duration == rule.1,
    {
        assert forall|rule: (u32, u32)| #[trigger] self@.contains_key(rule) implies self@[rule].wf()
            && self@[rule].hits == rule.0 && self@[rule].duration == rule.1 by {
            let i = self.index@[rule_key(rule.0, rule.1)];
            let limiter = self.entries@[i as int];
            limiter.lemma_view_wf();
            lemma_rule_key_injective(
                limiter@.hits as u32,
                limiter@.duration as u32,
                rule.0,
                rule.1,
            );
        }
        let keys = self.index@.dom();
        let rules = keys.map(|key: u64| ((key / 0x1_0000_0000) as u32, (key % 0x1_0000_0000) as u32));
        keys.lemma_map_finite(|key: u64| ((key / 0x1_0000_0000) as u32, (key % 0x1_0000_0000) as u32));
        assert(self@.dom().subset_of(rules)) by {
            assert forall|rule: (u32, u32)| self@.dom().contains(rule) implies rules.contains(
                rule,
            ) by {
                let key = rule_key(rule.0, rule.1);
                assert(keys.contains(key));
                assert(((key / 0x1_0000_0000) as u32, (key % 0x1_0000_0000) as u32) == rule);
            }
        }
        vstd::set_lib::lemma_len_subset(self@.dom(), rules);
    }

    /// A collection without limiters.
    pub fn new() -> (made: RatelimitCollection)
        ensures
            made.wf(),
            made@ == Map::<(u32, u32), Limiter>::empty(),
    {
        let made = RatelimitCollection { index: HashMap::new(), entries: Vec::new() };
        assert(made@ =~= Map::<(u32, u32), Limiter>::empty());
        made
    }

    /// The limiter of the rule `hits` per `duration` milliseconds: the one
    /// that the collection holds, or a new one without counters, which it
    /// holds from now on. A pair that makes no rule gives the error that
    /// carries the pair, and changes nothing.
    ///
    /// What the caller does to the limiter is what the collection holds
    /// afterwards; the collection stays well formed as long as the limiter
    /// does and keeps its rule.
    pub fn get_instance(&mut self, hits: u32, duration: u32) -> (found: Result<
        &mut Ratelimit,
        RatelimitInvalidError,
    >)
        requires
            old(self).wf(),
        ensures
            valid_bounds(hits, duration) <==> found is Ok,
            found matches Err(error) ==> error == (RatelimitInvalidError { hits, duration })
                && *final(self) == *old(self),
            found matches Ok(limiter) ==> {
                &&& limiter.wf()
                &&& limiter@ == instance_of(old(self)@, hits, duration)
                &&& limiter@.hits == hits
                &&& limiter@.duration == duration
                &&& final(self)@ == old(self)@.insert((hits, duration), final(limiter)@)
                &&& final(limiter).wf() && final(limiter)@.hits == hits && final(limiter)@.duration
                    == duration ==> final(self).wf()
            },
    {
        let key: u64 = key_of(hits, duration);
        let known: Option<usize> = match self.index.get(&key) {
            Some(position) => Some(*position),
            None => None,
        };
        let position: usize = match known {
            Some(position) => {
                proof {
                    let limiter = self.entries@[position as int];
                    limiter.lemma_view_wf();
                    lemma_rule_key_injective(
                        limiter@.hits as u32,
                        limiter@.duration as u32,
                        hits,
                        duration,
                    );
                }
                position
            },
            None => {
                match Ratelimit::new(hits, duration) {
                    Err(error) => {
                        return Err(error);
                    },
                    Ok(limiter) => {
                        let position: usize = self.entries.len();
                        self.index.insert(key, position);
                        self.entries.push(limiter);
                        position
                    },
                }
            },
        };
        Ok(&mut self.entries[position])
    }

    /// Runs cleanup on every limiter for the clock reading `now`, and
    /// returns how many counters were removed in all, or `usize::MAX` if
    /// they were more than that. No limiter is removed.
    pub fn cleanup(&mut self, now: u64) -> (removed: usize)
        requires
            old(self).wf(),
        ensures
            final(self).wf(),
            final(self)@ == old(self)@.map_values(|limiter: Limiter| limiter.after_cleanup(now as int)),
            removed == if expired_total(old(self)@, now as int) > usize::MAX {
                usize::MAX as int
            } else {
                expired_total(old(self)@, now as int) as int
            },
    {
        let ghost before = *self;
        let ghost mut rest = self@;
        let ghost mut exact: nat = 0;
        proof {
            self.lemma_view_wf();
        }
        let mut removed: usize = 0;
        let mut i: usize = 0;
        while i < self.entries.len()
            invariant
                before.wf(),
                self.wf(),
                self.index@ == before.index@,
                self.entries@.len() == before.entries@.len(),
                i <= self.entries@.len(),
                forall|j: int|
                    0 <= j < i ==> (#[trigger] self.entries@[j])@ == before.entries@[j]@.after_cleanup(
                        now as int,
                    ),
                forall|j: int|
                    i <= j < self.entries@.len() ==> (#[trigger] self.entries@[j])@
                        == before.entries@[j]@,
                rest.dom().finite(),
                forall|rule: (u32, u32)| #[trigger]
                    rest.contains_key(rule) <==> before@.contains_key(rule) && before.index@[rule_key(
                        rule.0,
                        rule.1,
                    )] >= i,
                forall|rule: (u32, u32)| #[trigger]
                    rest.contains_key(rule) ==> rest[rule] == before@[rule],
                exact + expired_total(rest, now as int) == expired_total(before@, now as int),
                removed == if exact > usize::MAX {
                    usize::MAX as int
                } else {
                    exact as int
                },
            decreases self.entries@.len() - i,
        {
            let ghost limiter = before.entries@[i as int]@;
            let ghost rule = (limiter.hits as u32, limiter.duration as u32);
            let count: usize = self.entries[i].cleanup_at(now);
            removed = removed.saturating_add(count);
            proof {
                assert(rest.contains_key(rule));
                lemma_expired_total_remove(rest, rule, now as int);
                exact = exact + limiter.expired_keys(now as int).len();
                rest = rest.remove(rule);
                assert forall|other: (u32, u32)| #[trigger]
                    rest.contains_key(other) <==> before@.contains_key(other)
                        && before.index@[rule_key(other.0, other.1)] >= i + 1 by {
                    if before@.contains_key(other) && before.index@[rule_key(other.0, other.1)] == i {
                        lemma_rule_key_injective(other.0, other.1, rule.0, rule.1);
                    }
                }
            }
            i = i + 1;
        }
        proof {
            assert(rest.dom() =~= Set::<(u32, u32)>::empty());
            assert(self@ =~= before@.map_values(|limiter: Limiter| limiter.after_cleanup(now as int)));
        }
        removed
    }
}

} // verus!
