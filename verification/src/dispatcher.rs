//! The timers the application set, waiting for their time.
//!
//! A timer thread sleeps until the earliest timer is due, hands every due
//! timer to the frame loop in the order of their times, and sleeps again.
//! Times are milliseconds of a clock that does not go back; each timer is
//! known by the id of the work it runs.

use vstd::prelude::*;

verus! {

/// Whether the times never decrease along the queue.
pub open spec fn sorted_by_time(timers: Seq<(u64, u64)>) -> bool {
    forall|i: int, j: int| 0 <= i <= j < timers.len() ==> (#[trigger] timers[i]).0 <= (#[trigger] timers[j]).0
}

/// How many timers are due by `now`.
pub open spec fn due_count(timers: Seq<(u64, u64)>, now: u64) -> int
    decreases timers.len(),
{
    if timers.len() == 0 || timers[0].0 > now {
        0
    } else {
        1 + due_count(timers.drop_first(), now)
    }
}

/// How many timers are due by `when` or earlier, the place a new timer for
/// `when` takes: after every timer of the same time, so timers of one time
/// run in the order they were set.
pub open spec fn place_for(timers: Seq<(u64, u64)>, when: u64) -> int {
    due_count(timers, when)
}

/// The timers waiting, earliest first.
pub struct TimerQueue {
    timers: Vec<(u64, u64)>,
}

impl View for TimerQueue {
    type V = Seq<(u64, u64)>;

    closed spec fn view(&self) -> Seq<(u64, u64)> {
        self.timers@
    }
}

pub proof fn lemma_due_count(timers: Seq<(u64, u64)>, now: u64)
    requires
        sorted_by_time(timers),
    ensures
        0 <= due_count(timers, now) <= timers.len(),
        forall|i: int| 0 <= i < due_count(timers, now) ==> (#[trigger] timers[i]).0 <= now,
        forall|i: int| due_count(timers, now) <= i < timers.len() ==> (#[trigger] timers[i]).0 > now,
    decreases timers.len(),
{
    if timers.len() > 0 && timers[0].0 <= now {
        let rest = timers.drop_first();
        assert forall|i: int, j: int| 0 <= i <= j < rest.len() implies (#[trigger] rest[i]).0 <= (#[trigger] rest[j]).0 by {
            assert(rest[i] == timers[i + 1] && rest[j] == timers[j + 1]);
        }
        lemma_due_count(rest, now);
        assert forall|i: int| 0 <= i < due_count(timers, now) implies (#[trigger] timers[i]).0 <= now by {
            if i > 0 {
                assert(timers[i] == rest[i - 1]);
            }
        }
        assert forall|i: int| due_count(timers, now) <= i < timers.len() implies (#[trigger] timers[i]).0 > now by {
            assert(timers[i] == rest[i - 1]);
        }
    } else if timers.len() > 0 {
        assert forall|i: int| 0 <= i < timers.len() implies (#[trigger] timers[i]).0 > now by {
            assert(timers[0].0 <= timers[i].0);
        }
    }
}

impl TimerQueue {
    /// The queue's invariant: earliest first.
    pub closed spec fn wf(&self) -> bool {
        sorted_by_time(self.timers@)
    }

    /// No timer.
    pub fn new() -> (queue: Self)
        ensures
            queue.wf(),
            queue@ == Seq::<(u64, u64)>::empty(),
    {
        TimerQueue { timers: Vec::new() }
    }

    /// Set timer `id` for `when`; it runs after the timers set before it for
    /// the same time or earlier.
    pub fn push(&mut self, when: u64, id: u64)
        requires
            old(self).wf(),
        ensures
            final(self).wf(),
            final(self)@ == old(self)@.insert(place_for(old(self)@, when), (when, id)),
    {
        let ghost before = self.timers@;
        proof {
            lemma_due_count(before, when);
        }
        let mut i: usize = 0;
        while i < self.timers.len() && self.timers[i].0 <= when
            invariant
                i <= self.timers@.len(),
                self.timers@ == before,
                sorted_by_time(before),
                forall|j: int| 0 <= j < i ==> (#[trigger] before[j]).0 <= when,
                0 <= due_count(before, when) <= before.len(),
                forall|j: int| 0 <= j < due_count(before, when) ==> (#[trigger] before[j]).0 <= when,
                forall|j: int| due_count(before, when) <= j < before.len() ==> (#[trigger] before[j]).0 > when,
            decreases self.timers@.len() - i,
        {
            i = i + 1;
        }
        assert(i as int == due_count(before, when)) by {
            if (i as int) < due_count(before, when) {
                assert(before[i as int].0 <= when);
            }
            if (i as int) > due_count(before, when) {
                assert(before[due_count(before, when)].0 > when);
            }
        }
        self.timers.insert(i, (when, id));
        proof {
            let after = self.timers@;
            assert(after =~= before.insert(i as int, (when, id)));
            assert forall|a: int, b: int| 0 <= a <= b < after.len() implies (#[trigger] after[a]).0 <= (#[trigger] after[b]).0 by {
                if a < i && b < i {
                    assert(after[a] == before[a] && after[b] == before[b]);
                } else if a < i && b == i {
                    assert(after[a] == before[a]);
                } else if a < i {
                    assert(after[a] == before[a] && after[b] == before[b - 1]);
                } else if a == i && b > i {
                    assert(after[b] == before[b - 1]);
                } else if a > i {
                    assert(after[a] == before[a - 1] && after[b] == before[b - 1]);
                }
            }
        }
    }

    /// When the earliest timer is due, if any: the timer thread sleeps until
    /// then.
    pub fn next_deadline(&self) -> (deadline: Option<u64>)
        ensures
            match deadline {
                Some(d) => self@.len() > 0 && d == self@[0].0,
                None => self@.len() == 0,
            },
    {
        if self.timers.len() == 0 {
            None
        } else {
            Some(self.timers[0].0)
        }
    }

    /// Take every timer due by `now`, earliest first.
    pub fn take_due(&mut self, now: u64) -> (due: Vec<u64>)
        requires
            old(self).wf(),
        ensures
            final(self).wf(),
            due@ == Seq::new(due_count(old(self)@, now) as nat, |i: int| old(self)@[i].1),
            final(self)@ == old(self)@.skip(due_count(old(self)@, now)),
    {
        let ghost before = self.timers@;
        proof {
            lemma_due_count(before, now);
        }
        let mut n: usize = 0;
        while n < self.timers.len() && self.timers[n].0 <= now
            invariant
                n <= self.timers@.len(),
                self.timers@ == before,
                forall|j: int| 0 <= j < n ==> (#[trigger] before[j]).0 <= now,
                0 <= due_count(before, now) <= before.len(),
                forall|j: int| 0 <= j < due_count(before, now) ==> (#[trigger] before[j]).0 <= now,
                forall|j: int| due_count(before, now) <= j < before.len() ==> (#[trigger] before[j]).0 > now,
            decreases self.timers@.len() - n,
        {
            n = n + 1;
        }
        assert(n as int == due_count(before, now)) by {
            if (n as int) < due_count(before, now) {
                assert(before[n as int].0 <= now);
            }
            if (n as int) > due_count(before, now) {
                assert(before[due_count(before, now)].0 > now);
            }
        }
        let mut due: Vec<u64> = Vec::new();
        let mut i: usize = 0;
        while i < n
            invariant
                i <= n <= before.len(),
                self.timers@ == before,
                due@ == Seq::new(i as nat, |k: int| before[k].1),
            decreases n - i,
        {
            due.push(self.timers[i].1);
            proof {
                assert(due@ =~= Seq::new((i + 1) as nat, |k: int| before[k].1));
            }
            i = i + 1;
        }
        let rest = self.timers.split_off(n);
        self.timers = rest;
        proof {
            let after = self.timers@;
            assert(after =~= before.skip(n as int));
            assert forall|a: int, b: int| 0 <= a <= b < after.len() implies (#[trigger] after[a]).0 <= (#[trigger] after[b]).0 by {
                assert(after[a] == before[a + n] && after[b] == before[b + n]);
            }
        }
        due
    }
}

/// Timers are taken in the order of their times, and the ones left are not
/// due yet: after `take_due(now)`, every taken timer was due, no later one
/// was, and no timer is lost.
pub proof fn due_timers_come_first(timers: Seq<(u64, u64)>, now: u64)
    requires
        sorted_by_time(timers),
    ensures
        forall|i: int| 0 <= i < due_count(timers, now) ==> (#[trigger] timers[i]).0 <= now,
        forall|i: int| 0 <= i < timers.skip(due_count(timers, now)).len() ==> (#[trigger] timers.skip(due_count(timers, now))[i]).0 > now,
        timers.take(due_count(timers, now)) + timers.skip(due_count(timers, now)) == timers,
{
    lemma_due_count(timers, now);
    let n = due_count(timers, now);
    assert forall|i: int| 0 <= i < timers.skip(n).len() implies (#[trigger] timers.skip(n)[i]).0 > now by {
        assert(timers.skip(n)[i] == timers[i + n]);
    }
    assert(timers.take(n) + timers.skip(n) =~= timers);
}

} // verus!
