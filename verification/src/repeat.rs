//! Smooth key repeat: after the initial press, repeats are allowed only
//! after a start delay and then once per step time.

use std::time::Instant;

use vstd::map::*;
use vstd::prelude::*;

verus! {

#[verifier::external_type_specification]
#[verifier::external_body]
pub struct ExInstant(Instant);

/// The current instant, from `std::time::Instant::now`.
#[verifier::external_body]
fn instant_now() -> Instant {
    Instant::now()
}

/// Milliseconds elapsed since `start`, from `Instant::elapsed` and
/// `Duration::as_millis`. Nothing is said of the value: it is the clock.
#[verifier::external_body]
fn elapsed_millis(start: &Instant) -> u128 {
    start.elapsed().as_millis()
}

/// The repeat actions due `elapsed` ms after the press.
pub open spec fn total_actions(elapsed: u128, start_delay: u32, step_time: u32) -> u32 {
    if elapsed < start_delay as u128 {
        0
    } else {
        ((elapsed as int - start_delay as int) / step_time as int) as u32
    }
}

/// Repeat bookkeeping for one held key.
pub struct RepeatingKeyTimer {
    start: Instant,
    actions: u32,
}

impl RepeatingKeyTimer {
    /// The repeat actions already handed out.
    pub closed spec fn spec_actions(&self) -> u32 {
        self.actions
    }

    pub fn new() -> (r: Self)
        ensures
            r.spec_actions() == 0,
    {
        Self { start: instant_now(), actions: 0 }
    }

    /// The repeat actions to perform now, reading the clock.
    pub fn update(&mut self, start_delay: u32, step_time: u32) -> (n: u32)
        requires
            step_time > 0,
        ensures
            exists|elapsed: u128| #[trigger] total_actions(elapsed, start_delay, step_time) >= 0 && {
                ||| (elapsed < start_delay || total_actions(elapsed, start_delay, step_time) < old(
                    self,
                ).spec_actions()) && n == 0 && final(self).spec_actions() == old(self).spec_actions()
                ||| elapsed >= start_delay && total_actions(elapsed, start_delay, step_time) >= old(
                    self,
                ).spec_actions() && n == total_actions(elapsed, start_delay, step_time) - old(
                    self,
                ).spec_actions() && final(self).spec_actions() == total_actions(
                    elapsed,
                    start_delay,
                    step_time,
                )
            },
    {
        let elapsed = elapsed_millis(&self.start);
        if elapsed >= start_delay as u128 {
            let q = (elapsed - start_delay as u128) / step_time as u128;
            let total = #[verifier::truncate] (q as u32);
            assert(total == total_actions(elapsed, start_delay, step_time));
            if total < self.actions {
                // The clock never goes back; a total below the actions
                // already given only comes from a wrapped count.
                return 0;
            }
        }
        let n = self.update_at(elapsed, start_delay, step_time);
        assert(total_actions(elapsed, start_delay, step_time) >= 0);
        n
    }

    /// The repeat actions to perform `elapsed` ms after the press: none
    /// before the start delay, then those of the steps since the last
    /// update.
    pub fn update_at(&mut self, elapsed: u128, start_delay: u32, step_time: u32) -> (n: u32)
        requires
            step_time > 0,
            elapsed >= start_delay ==> total_actions(elapsed, start_delay, step_time)
                >= old(self).spec_actions(),
        ensures
            elapsed < start_delay ==> n == 0 && final(self).spec_actions() == old(self).spec_actions(),
            elapsed >= start_delay ==> n == total_actions(elapsed, start_delay, step_time) - old(
                self,
            ).spec_actions() && final(self).spec_actions() == total_actions(
                elapsed,
                start_delay,
                step_time,
            ),
    {
        if elapsed < start_delay as u128 {
            return 0;
        }
        let q = (elapsed - start_delay as u128) / step_time as u128;
        let total_actions = #[verifier::truncate] (q as u32);
        let remaining_actions = total_actions - self.actions;
        self.actions = total_actions;
        remaining_actions
    }
}

/// A held key: a typed character, or a key of the platform by its code.
#[derive(Debug, Clone, Copy, PartialEq, Eq, Structural)]
pub enum PressedKey {
    Char(char),
    Key(u32),
}

/// Smooth repeat over all held keys. An initial press always goes
/// through at once; a repeat goes through at most once per call, and only
/// when the key's timer has a step due.
pub struct PressedKeysSmoothRepeat {
    /// The held keys with their timers; no key occurs twice.
    pressed_keys: Vec<(PressedKey, RepeatingKeyTimer)>,
    /// Initial delay before repeats are allowed, in ms.
    start_delay: u32,
    /// Minimum time between repeats, in ms.
    step_time: u32,
}

impl PressedKeysSmoothRepeat {
    /// No key is held twice.
    pub closed spec fn wf(&self) -> bool {
        forall|i: int, j: int|
            0 <= i < j < self.pressed_keys@.len() ==> #[trigger] self.pressed_keys@[i].0
                != #[trigger] self.pressed_keys@[j].0
    }

    closed spec fn holds_at(&self, k: PressedKey, i: int) -> bool {
        0 <= i < self.pressed_keys@.len() && self.pressed_keys@[i].0 == k
    }

    /// Each held key with the repeat actions already handed out for it.
    pub closed spec fn view(&self) -> Map<PressedKey, u32> {
        Map::new(
            |k: PressedKey| exists|i: int| self.holds_at(k, i),
            |k: PressedKey| self.pressed_keys@[choose|i: int| self.holds_at(k, i)].1.spec_actions(),
        )
    }

    pub closed spec fn spec_start_delay(&self) -> u32 {
        self.start_delay
    }

    pub closed spec fn spec_step_time(&self) -> u32 {
        self.step_time
    }

    proof fn lemma_entry(&self, i: int)
        requires
            self.wf(),
            0 <= i < self.pressed_keys@.len(),
        ensures
            self@.contains_key(self.pressed_keys@[i].0),
            self@[self.pressed_keys@[i].0] == self.pressed_keys@[i].1.spec_actions(),
    {
        let k = self.pressed_keys@[i].0;
        assert(self.holds_at(k, i));
        let j = choose|j: int| self.holds_at(k, j);
        if j != i {
            if j < i {
                assert(self.pressed_keys@[j].0 != self.pressed_keys@[i].0);
            } else {
                assert(self.pressed_keys@[i].0 != self.pressed_keys@[j].0);
            }
        }
    }

    pub fn new(start_delay: u32, step_time: u32) -> (r: Self)
        ensures
            r.wf(),
            r@ == Map::<PressedKey, u32>::empty(),
            r.spec_start_delay() == start_delay,
            r.spec_step_time() == step_time,
    {
        let r = Self { pressed_keys: Vec::new(), start_delay, step_time };
        assert(r@ =~= Map::<PressedKey, u32>::empty());
        r
    }

    /// Forget every held key.
    pub fn clear(&mut self)
        ensures
            final(self).wf(),
            final(self)@ == Map::<PressedKey, u32>::empty(),
            final(self).spec_start_delay() == old(self).spec_start_delay(),
            final(self).spec_step_time() == old(self).spec_step_time(),
    {
        self.pressed_keys.clear();
        assert(self@ =~= Map::<PressedKey, u32>::empty());
    }

    /// Where `key` is held.
    fn find(&self, key: &PressedKey) -> (r: Option<usize>)
        ensures
            match r {
                Some(i) => self.holds_at(*key, i as int),
                None => !self@.contains_key(*key),
            },
    {
        let mut i: usize = 0;
        while i < self.pressed_keys.len()
            invariant
                i <= self.pressed_keys@.len(),
                forall|j: int| 0 <= j < i ==> self.pressed_keys@[j].0 != *key,
            decreases self.pressed_keys@.len() - i,
        {
            if self.pressed_keys[i].0 == *key {
                return Some(i);
            }
            i += 1;
        }
        None
    }

    /// Take the entry at `i` out of the held keys.
    fn take_at(&mut self, i: usize) -> (e: (PressedKey, RepeatingKeyTimer))
        requires
            old(self).wf(),
            i < old(self).pressed_keys@.len(),
        ensures
            final(self).wf(),
            e == old(self).pressed_keys@[i as int],
            final(self)@ == old(self)@.remove(e.0),
            final(self).spec_start_delay() == old(self).spec_start_delay(),
            final(self).spec_step_time() == old(self).spec_step_time(),
    {
        let ghost pre = *self;
        let e = self.pressed_keys.remove(i);
        assert(self.pressed_keys@ =~= pre.pressed_keys@.remove(i as int));
        assert forall|a: int, b: int| 0 <= a < b < self.pressed_keys@.len() implies #[trigger] self.pressed_keys@[a].0
            != #[trigger] self.pressed_keys@[b].0 by {
            let a0 = if a < i { a } else { a + 1 };
            let b0 = if b < i { b } else { b + 1 };
            assert(pre.pressed_keys@[a0].0 != pre.pressed_keys@[b0].0);
        }
        assert forall|k: PressedKey| #[trigger] self@.contains_key(k) implies pre@.contains_key(k) && k != e.0
            && self@[k] == pre@[k] by {
            let j = choose|j: int| self.holds_at(k, j);
            let j0 = if j < i { j } else { j + 1 };
            self.lemma_entry(j);
            pre.lemma_entry(j0);
            if k == e.0 {
                if j0 < i {
                    assert(pre.pressed_keys@[j0].0 != pre.pressed_keys@[i as int].0);
                } else {
                    assert(pre.pressed_keys@[i as int].0 != pre.pressed_keys@[j0].0);
                }
            }
        }
        assert forall|k: PressedKey| pre@.contains_key(k) && k != e.0 implies #[trigger] self@.contains_key(k) by {
            let j0 = choose|j: int| pre.holds_at(k, j);
            let j = if j0 < i { j0 } else { j0 - 1 };
            assert(self.holds_at(k, j));
        }
        assert(self@ =~= pre@.remove(e.0));
        e
    }

    /// Put `e` into the held keys, where its key is not held.
    fn put(&mut self, e: (PressedKey, RepeatingKeyTimer))
        requires
            old(self).wf(),
            !old(self)@.contains_key(e.0),
        ensures
            final(self).wf(),
            final(self)@ == old(self)@.insert(e.0, e.1.spec_actions()),
            final(self).spec_start_delay() == old(self).spec_start_delay(),
            final(self).spec_step_time() == old(self).spec_step_time(),
    {
        let ghost pre = *self;
        let ghost n = pre.pressed_keys@.len() as int;
        self.pressed_keys.push(e);
        assert(self.pressed_keys@ =~= pre.pressed_keys@.push(e));
        assert forall|a: int, b: int| 0 <= a < b < self.pressed_keys@.len() implies #[trigger] self.pressed_keys@[a].0
            != #[trigger] self.pressed_keys@[b].0 by {
            if b == n {
                assert(!pre.holds_at(e.0, a));
            } else {
                assert(pre.pressed_keys@[a].0 != pre.pressed_keys@[b].0);
            }
        }
        assert forall|k: PressedKey| #[trigger] pre@.contains_key(k) implies self@.contains_key(k) && self@[k]
            == pre@[k] by {
            let j = choose|j: int| pre.holds_at(k, j);
            pre.lemma_entry(j);
            self.lemma_entry(j);
        }
        assert forall|k: PressedKey| #[trigger] self@.contains_key(k) implies pre@.contains_key(k) || k == e.0 by {
            let j = choose|j: int| self.holds_at(k, j);
            if j < n {
                assert(pre.holds_at(k, j));
            }
        }
        proof {
            self.lemma_entry(n);
        }
        assert(self@ =~= pre@.insert(e.0, e.1.spec_actions()));
    }

    /// Whether a key event goes through now. An initial press (`repeat`
    /// false) always does and starts the key afresh; a repeat goes through
    /// when its timer hands out at least one action since the last call.
    pub fn key_down(&mut self, key: PressedKey, repeat: bool) -> (r: u32)
        requires
            old(self).wf(),
            repeat ==> old(self).spec_step_time() > 0,
        ensures
            final(self).wf(),
            final(self).spec_start_delay() == old(self).spec_start_delay(),
            final(self).spec_step_time() == old(self).spec_step_time(),
            !repeat ==> r == 1 && final(self)@ == old(self)@.remove(key),
            repeat ==> {
                let prior: u32 = if old(self)@.contains_key(key) { old(self)@[key] } else { 0 };
                &&& final(self)@.contains_key(key)
                &&& final(self)@.remove(key) == old(self)@.remove(key)
                &&& final(self)@[key] >= prior
                &&& r == if final(self)@[key] > prior { 1u32 } else { 0u32 }
            },
    {
        let found = self.find(&key);
        if !repeat {
            match found {
                Some(i) => {
                    self.take_at(i);
                },
                None => {
                    assert(self@ =~= self@.remove(key));
                },
            }
            return 1;
        }
        let ghost pre = *self;
        let (k, mut timer) = match found {
            Some(i) => {
                proof {
                    self.lemma_entry(i as int);
                }
                self.take_at(i)
            },
            None => {
                assert(self@ =~= self@.remove(key));
                (key, RepeatingKeyTimer::new())
            },
        };
        let ghost prior = timer.spec_actions();
        assert(prior == if pre@.contains_key(key) { pre@[key] } else { 0 });
        let actions = timer.update(self.start_delay, self.step_time);
        assert(timer.spec_actions() >= prior && actions == timer.spec_actions() - prior);
        self.put((k, timer));
        assert(self@.remove(key) =~= pre@.remove(key));
        if actions < 1 {
            actions
        } else {
            1
        }
    }
}

} // verus!
