//! Timers: one-shot and periodic deadlines kept in deadline order, with lazy
//! cancellation. Time is a count of milliseconds on the caller's clock. The
//! callbacks are the caller's: `run` hands each fired id to a closure that
//! runs its callback and reads the clock when it is done.

use vstd::prelude::*;

verus! {

/// Unique timer identifier.
#[derive(Debug, Clone, Copy, PartialEq, Eq, Hash, Structural)]
pub struct TimerId(pub usize);

/// Context handed to timer callbacks.
pub struct TimerCtx;

/// A scheduled timer.
#[derive(Clone, Copy)]
pub struct TimerEntry {
    pub id: usize,
    pub deadline: u64,
    pub period: Option<u64>,
}

/// Deadline order, ties broken by id.
pub open spec fn before(a: TimerEntry, b: TimerEntry) -> bool {
    a.deadline < b.deadline || (a.deadline == b.deadline && a.id < b.id)
}

pub open spec fn sorted(s: Seq<TimerEntry>) -> bool {
    forall|i: int, j: int| 0 <= i < j < s.len() ==> before(#[trigger] s[i], #[trigger] s[j])
}

pub open spec fn ids_below(s: Seq<TimerEntry>, n: int) -> bool {
    forall|i: int| 0 <= i < s.len() ==> #[trigger] s[i].id < n
}

pub open spec fn ids_unique(s: Seq<TimerEntry>) -> bool {
    forall|i: int, j: int| 0 <= i < j < s.len() ==> #[trigger] s[i].id != #[trigger] s[j].id
}

/// Where an entry goes in a sorted sequence: after every entry before it.
pub open spec fn insert_pos(s: Seq<TimerEntry>, e: TimerEntry) -> int
    decreases s.len(),
{
    if s.len() == 0 || before(e, s[0]) {
        0
    } else {
        1 + insert_pos(s.drop_first(), e)
    }
}

/// A sorted sequence with one more entry in its place.
pub open spec fn insert_sorted(s: Seq<TimerEntry>, e: TimerEntry) -> Seq<TimerEntry> {
    s.insert(insert_pos(s, e), e)
}

/// Several entries inserted one after the other.
pub open spec fn insert_all(s: Seq<TimerEntry>, es: Seq<TimerEntry>) -> Seq<TimerEntry>
    decreases es.len(),
{
    if es.len() == 0 {
        s
    } else {
        insert_all(insert_sorted(s, es[0]), es.drop_first())
    }
}

/// `a + b`, stopping at the end of the clock.
pub open spec fn sat_add(a: u64, b: u64) -> u64 {
    if a + b > u64::MAX { u64::MAX } else { (a + b) as u64 }
}

/// A fired timer put back: a periodic one comes back `period` after
/// `after`, the time its callback finished, under the same id, unless it
/// was cancelled meanwhile; a one-shot one is gone.
pub open spec fn rearmed(es: Seq<TimerEntry>, canc: Set<usize>, e: TimerEntry, after: u64) -> Seq<TimerEntry> {
    match e.period {
        Some(p) => if canc.contains(e.id) {
            es
        } else {
            insert_sorted(es, TimerEntry { id: e.id, deadline: sat_add(after, p), period: e.period })
        },
        None => es,
    }
}

/// The next timer to fire at `now`: cancelled entries met at the front are
/// dropped with their cancel marks, and the front entry is taken if it is
/// due. The result: the timer taken, the entries left, the marks left.
pub open spec fn take_due(es: Seq<TimerEntry>, canc: Set<usize>, now: u64) -> (Option<TimerEntry>, Seq<TimerEntry>, Set<usize>)
    decreases es.len(),
{
    if es.len() == 0 {
        (None, es, canc)
    } else if canc.contains(es[0].id) {
        take_due(es.drop_first(), canc.remove(es[0].id), now)
    } else if es[0].deadline <= now {
        (Some(es[0]), es.drop_first(), canc)
    } else {
        (None, es, canc)
    }
}

/// A run at `now`: timers are taken one by one while the front live timer
/// is due; the callback of the k-th one finishes at `times[k]`, and the
/// timer is put back right after it. The result: the fired ids in order,
/// the entries left, the cancel marks left. `fuel` bounds the steps.
pub open spec fn run_steps(es: Seq<TimerEntry>, canc: Set<usize>, now: u64, times: Seq<u64>, fuel: nat) -> (Seq<usize>, Seq<TimerEntry>, Set<usize>)
    decreases fuel,
{
    if fuel == 0 {
        (Seq::empty(), es, canc)
    } else {
        let t = take_due(es, canc, now);
        match t.0 {
            None => (Seq::empty(), t.1, t.2),
            Some(e) => {
                let r = run_steps(rearmed(t.1, t.2, e, times[0]), t.2, now, times.drop_first(), (fuel - 1) as nat);
                (seq![e.id] + r.0, r.1, r.2)
            },
        }
    }
}

/// How many entries a run at `now` still has to deal with: the due ones
/// and the cancelled ones.
pub open spec fn pending(es: Seq<TimerEntry>, canc: Set<usize>, now: u64) -> nat
    decreases es.len(),
{
    if es.len() == 0 {
        0
    } else {
        (if es[0].deadline <= now || canc.contains(es[0].id) { 1nat } else { 0nat }) + pending(
            es.drop_first(),
            canc,
            now,
        )
    }
}

/// No periodic entry has a period of zero.
pub open spec fn periods_positive(es: Seq<TimerEntry>) -> bool {
    forall|i: int| 0 <= i < es.len() ==> #[trigger] es[i].period != Some(0u64)
}

/// A timer that no run fires: its id is marked cancelled, or no entry
/// carries it.
pub open spec fn silent(es: Seq<TimerEntry>, canc: Set<usize>, id: usize) -> bool {
    canc.contains(id) || forall|i: int| 0 <= i < es.len() ==> #[trigger] es[i].id != id
}


/// The earliest deadline among live entries of a sorted sequence.
pub open spec fn first_live(es: Seq<TimerEntry>, canc: Set<usize>) -> Option<u64>
    decreases es.len(),
{
    if es.len() == 0 {
        None
    } else if canc.contains(es[0].id) {
        first_live(es.drop_first(), canc)
    } else {
        Some(es[0].deadline)
    }
}

/// The period of the entry with an id, if one is scheduled.
pub open spec fn period_of(es: Seq<TimerEntry>, id: usize) -> Option<u64>
    decreases es.len(),
{
    if es.len() == 0 {
        None
    } else if es[0].id == id {
        es[0].period
    } else {
        period_of(es.drop_first(), id)
    }
}

/// Timers in deadline order.
pub struct TimerWheel {
    entries: Vec<TimerEntry>,
    next_id: usize,
    cancelled: Vec<usize>,
}

impl TimerWheel {
    /// The scheduled entries, cancelled ones included, in deadline order.
    pub closed spec fn entries(&self) -> Seq<TimerEntry> {
        self.entries@
    }

    /// The ids marked cancelled.
    pub closed spec fn cancelled(&self) -> Set<usize> {
        self.cancelled@.to_set()
    }

    /// The id the next timer gets.
    pub closed spec fn next_id(&self) -> usize {
        self.next_id
    }

    pub closed spec fn wf(&self) -> bool {
        &&& sorted(self.entries@)
        &&& ids_unique(self.entries@)
        &&& ids_below(self.entries@, self.next_id as int)
        &&& self.cancelled@.no_duplicates()
    }

    /// An empty wheel.
    pub fn new() -> (w: Self)
        ensures
            w.wf(),
            w.entries() == Seq::<TimerEntry>::empty(),
            w.cancelled() == Set::<usize>::empty(),
            w.next_id() == 0,
    {
        let w = TimerWheel { entries: Vec::new(), next_id: 0, cancelled: Vec::new() };
        assert(w.cancelled@.to_set() =~= Set::<usize>::empty());
        w
    }

    fn is_cancelled(&self, id: usize) -> (r: bool)
        ensures
            r == self.cancelled().contains(id),
    {
        let mut i: usize = 0;
        while i < self.cancelled.len()
            invariant
                i <= self.cancelled@.len(),
                forall|j: int| 0 <= j < i ==> self.cancelled@[j] != id,
            decreases self.cancelled@.len() - i,
        {
            if self.cancelled[i] == id {
                assert(self.cancelled@.contains(id));
                return true;
            }
            i += 1;
        }
        false
    }

    fn uncancel(&mut self, id: usize)
        requires
            old(self).wf(),
        ensures
            final(self).wf(),
            final(self).entries() == old(self).entries(),
            final(self).next_id() == old(self).next_id(),
            final(self).cancelled() == old(self).cancelled().remove(id),
    {
        let mut i: usize = 0;
        while i < self.cancelled.len()
            invariant
                i <= self.cancelled@.len(),
                forall|j: int| 0 <= j < i ==> self.cancelled@[j] != id,
                *self == *old(self),
                old(self).wf(),
            decreases self.cancelled@.len() - i,
        {
            if self.cancelled[i] == id {
                let ghost before = self.cancelled@;
                self.cancelled.remove(i);
                proof {
                    assert(self.cancelled@ =~= before.remove(i as int));
                    assert forall|x: usize| #[trigger] self.cancelled@.to_set().contains(x) <==> before.to_set().remove(id).contains(x) by {
                        if x == id {
                            if self.cancelled@.contains(x) {
                                let k = choose|k: int| 0 <= k < self.cancelled@.len() && self.cancelled@[k] == x;
                                if k < i {
                                    assert(before[k] == x);
                                } else {
                                    assert(before[k + 1] == x);
                                }
                            }
                        } else if before.contains(x) {
                            let k = choose|k: int| 0 <= k < before.len() && before[k] == x;
                            if k < i {
                                assert(self.cancelled@[k] == x);
                            } else {
                                assert(self.cancelled@[k - 1] == x);
                            }
                        } else if self.cancelled@.contains(x) {
                            let k = choose|k: int| 0 <= k < self.cancelled@.len() && self.cancelled@[k] == x;
                            if k < i {
                                assert(before[k] == x);
                            } else {
                                assert(before[k + 1] == x);
                            }
                        }
                    }
                    assert(self.cancelled@.to_set() =~= before.to_set().remove(id));
                }
                return;
            }
            i += 1;
        }
        assert(self.cancelled@.to_set() =~= self.cancelled@.to_set().remove(id));
    }

    fn insert_entry(&mut self, e: TimerEntry)
        requires
            old(self).wf(),
            e.id < old(self).next_id(),
            forall|i: int| 0 <= i < old(self).entries().len() ==> #[trigger] old(self).entries()[i].id != e.id,
        ensures
            final(self).wf(),
            final(self).entries() == insert_sorted(old(self).entries(), e),
            final(self).next_id() == old(self).next_id(),
            final(self).cancelled() == old(self).cancelled(),
    {
        let ghost s = self.entries@;
        let mut p: usize = 0;
        assert(s.skip(0) =~= s);
        assert forall|i: int| 0 <= i < s.len() implies #[trigger] s[i].id != e.id by {
            assert(old(self).entries()[i] == s[i]);
        }
        while p < self.entries.len() && !(e.deadline < self.entries[p].deadline || (e.deadline
            == self.entries[p].deadline && e.id < self.entries[p].id))
            invariant
                p <= s.len(),
                self.entries@ == s,
                insert_pos(s, e) == p + insert_pos(s.skip(p as int), e),
                forall|j: int| 0 <= j < p ==> before(#[trigger] s[j], e),
                forall|i: int| 0 <= i < s.len() ==> #[trigger] s[i].id != e.id,
            decreases s.len() - p,
        {
            assert(s.skip(p as int)[0] == s[p as int]);
            assert(s.skip(p as int).drop_first() =~= s.skip(p + 1));
            p += 1;
        }
        proof {
            if p < s.len() {
                assert(s.skip(p as int)[0] == s[p as int]);
            }
        }
        self.entries.insert(p, e);
        proof {
            let r = self.entries@;
            assert(r =~= s.insert(p as int, e));
            assert forall|i: int, j: int| 0 <= i < j < r.len() implies before(#[trigger] r[i], #[trigger] r[j]) by {
                if j < p {
                } else if j == p {
                } else if i < p {
                    assert(r[j] == s[j - 1]);
                    if p < s.len() {
                        assert(before(e, s[p as int]));
                    }
                } else if i == p {
                    assert(r[j] == s[j - 1]);
                    assert(p < s.len());
                    assert(before(e, s[p as int]));
                } else {
                    assert(r[i] == s[i - 1] && r[j] == s[j - 1]);
                }
            }
            assert forall|i: int, j: int| 0 <= i < j < r.len() implies #[trigger] r[i].id != #[trigger] r[j].id by {
                if i < p && j > p {
                    assert(r[j] == s[j - 1]);
                } else if i > p {
                    assert(r[i] == s[i - 1] && r[j] == s[j - 1]);
                } else if i == p {
                    assert(r[j] == s[j - 1]);
                } else if j == p {
                } else {
                }
            }
            assert forall|i: int| 0 <= i < r.len() implies #[trigger] r[i].id < self.next_id by {
                if i < p {
                } else if i > p {
                    assert(r[i] == s[i - 1]);
                }
            }
        }
    }

    fn schedule(&mut self, deadline: u64, period: Option<u64>) -> (id: TimerId)
        requires
            old(self).wf(),
            old(self).next_id() < usize::MAX,
        ensures
            final(self).wf(),
            id.0 == old(self).next_id(),
            final(self).next_id() == old(self).next_id() + 1,
            final(self).entries() == insert_sorted(
                old(self).entries(),
                TimerEntry { id: id.0, deadline, period },
            ),
            final(self).cancelled() == old(self).cancelled(),
    {
        let id = self.next_id;
        let e = TimerEntry { id, deadline, period };
        self.next_id = id + 1;
        assert(ids_below(self.entries@, self.next_id as int));
        self.insert_entry(e);
        TimerId(id)
    }

    /// A one-shot timer due `delay` after `now`.
    pub fn create(&mut self, delay: u64, now: u64) -> (id: TimerId)
        requires
            old(self).wf(),
            old(self).next_id() < usize::MAX,
        ensures
            final(self).wf(),
            id.0 == old(self).next_id(),
            final(self).next_id() == old(self).next_id() + 1,
            final(self).entries() == insert_sorted(
                old(self).entries(),
                TimerEntry { id: id.0, deadline: sat_add(now, delay), period: None },
            ),
            final(self).cancelled() == old(self).cancelled(),
    {
        self.schedule(now.saturating_add(delay), None)
    }

    /// A periodic timer, first due `period` after `now`.
    pub fn create_periodic(&mut self, period: u64, now: u64) -> (id: TimerId)
        requires
            old(self).wf(),
            old(self).next_id() < usize::MAX,
        ensures
            final(self).wf(),
            id.0 == old(self).next_id(),
            final(self).next_id() == old(self).next_id() + 1,
            final(self).entries() == insert_sorted(
                old(self).entries(),
                TimerEntry { id: id.0, deadline: sat_add(now, period), period: Some(period) },
            ),
            final(self).cancelled() == old(self).cancelled(),
    {
        self.schedule(now.saturating_add(period), Some(period))
    }

    /// Cancels a timer: it is marked, and dropped when it reaches the front.
    pub fn cancel(&mut self, id: TimerId)
        requires
            old(self).wf(),
        ensures
            final(self).wf(),
            final(self).entries() == old(self).entries(),
            final(self).next_id() == old(self).next_id(),
            final(self).cancelled() == old(self).cancelled().insert(id.0),
    {
        if self.is_cancelled(id.0) {
            assert(self.cancelled@.to_set() =~= self.cancelled@.to_set().insert(id.0));
            return;
        }
        let ghost before = self.cancelled@;
        self.cancelled.push(id.0);
        proof {
            assert forall|i: int, j: int| 0 <= i < j < self.cancelled@.len() implies self.cancelled@[i] != self.cancelled@[j] by {
                if j == before.len() {
                    assert(!before.contains(id.0));
                    assert(before[i] == self.cancelled@[i]);
                }
            }
            assert forall|x: usize| #[trigger] self.cancelled@.contains(x) <==> (before.contains(x) || x == id.0) by {
                if before.contains(x) {
                    let k = choose|k: int| 0 <= k < before.len() && before[k] == x;
                    assert(self.cancelled@[k] == x);
                }
                if x == id.0 {
                    assert(self.cancelled@[before.len() as int] == x);
                }
                if self.cancelled@.contains(x) {
                    let k = choose|k: int| 0 <= k < self.cancelled@.len() && self.cancelled@[k] == x;
                    if k < before.len() {
                        assert(before[k] == x);
                    }
                }
            }
            assert(self.cancelled@.to_set() =~= before.to_set().insert(id.0));
        }
    }

    fn find_period(&self, id: usize) -> (r: Option<u64>)
        ensures
            r == period_of(self.entries(), id),
    {
        let mut i: usize = 0;
        assert(self.entries@.skip(0) =~= self.entries@);
        while i < self.entries.len()
            invariant
                i <= self.entries@.len(),
                period_of(self.entries@, id) == period_of(self.entries@.skip(i as int), id),
            decreases self.entries@.len() - i,
        {
            assert(self.entries@.skip(i as int)[0] == self.entries@[i as int]);
            assert(self.entries@.skip(i as int).drop_first() =~= self.entries@.skip(i + 1));
            if self.entries[i].id == id {
                return self.entries[i].period;
            }
            i += 1;
        }
        None
    }

    /// Moves a timer: the old one is cancelled and a new one, with the old
    /// one's period, is due `delay` after `now`.
    pub fn reset(&mut self, id: TimerId, delay: u64, now: u64) -> (r: Option<TimerId>)
        requires
            old(self).wf(),
            old(self).next_id() < usize::MAX,
        ensures
            final(self).wf(),
            r == Some(TimerId(old(self).next_id())),
            final(self).next_id() == old(self).next_id() + 1,
            final(self).entries() == insert_sorted(
                old(self).entries(),
                TimerEntry {
                    id: old(self).next_id(),
                    deadline: sat_add(now, delay),
                    period: period_of(old(self).entries(), id.0),
                },
            ),
            final(self).cancelled() == old(self).cancelled().insert(id.0),
    {
        let period = self.find_period(id.0);
        self.cancel(id);
        let new_id = self.schedule(now.saturating_add(delay), period);
        Some(new_id)
    }

    /// Takes the next timer to fire at `now`: cancelled entries at the front
    /// are dropped with their marks, and the front entry is removed and
    /// handed back if it is due.
    pub fn fire_next(&mut self, now: u64) -> (r: Option<TimerEntry>)
        requires
            old(self).wf(),
        ensures
            final(self).wf(),
            final(self).next_id() == old(self).next_id(),
            ({
                let t = take_due(old(self).entries(), old(self).cancelled(), now);
                &&& r == t.0
                &&& final(self).entries() == t.1
                &&& final(self).cancelled() == t.2
            }),
            r matches Some(e) ==> e.id < final(self).next_id() && forall|i: int|
                0 <= i < final(self).entries().len() ==> #[trigger] final(self).entries()[i].id != e.id,
    {
        loop
            invariant
                self.wf(),
                self.next_id == old(self).next_id(),
                take_due(self.entries@, self.cancelled@.to_set(), now) == take_due(
                    old(self).entries(),
                    old(self).cancelled(),
                    now,
                ),
            decreases self.entries@.len(),
        {
            if self.entries.len() == 0 {
                return None;
            }
            let ghost es = self.entries@;
            let top = self.entries[0];
            if self.is_cancelled(top.id) {
                self.entries.remove(0);
                assert(self.entries@ =~= es.drop_first());
                self.uncancel(top.id);
            } else if top.deadline <= now {
                self.entries.remove(0);
                assert(self.entries@ =~= es.drop_first());
                assert forall|i: int| 0 <= i < self.entries@.len() implies #[trigger] self.entries@[i].id != top.id by {
                    assert(self.entries@[i] == es[i + 1]);
                }
                return Some(top);
            } else {
                return None;
            }
        }
    }

    /// Puts a fired timer back: a periodic one is due `period` after
    /// `after`, the time its callback finished, unless it was cancelled
    /// meanwhile.
    pub fn rearm(&mut self, e: TimerEntry, after: u64)
        requires
            old(self).wf(),
            e.id < old(self).next_id(),
            forall|i: int| 0 <= i < old(self).entries().len() ==> #[trigger] old(self).entries()[i].id != e.id,
        ensures
            final(self).wf(),
            final(self).next_id() == old(self).next_id(),
            final(self).entries() == rearmed(old(self).entries(), old(self).cancelled(), e, after),
            final(self).cancelled() == old(self).cancelled(),
    {
        if let Some(p) = e.period {
            if !self.is_cancelled(e.id) {
                self.insert_entry(TimerEntry { id: e.id, deadline: after.saturating_add(p), period: e.period });
            }
        }
    }

    /// Fires the due timers at `now` in deadline order: for each one taken,
    /// `fire` runs its callback and gives the time when the callback
    /// finished, and a periodic timer is put back `period` after that time.
    /// Returns how many fired.
    pub fn run<F: Fn(TimerId) -> u64>(&mut self, now: u64, fire: F) -> (fired: usize)
        requires
            old(self).wf(),
            periods_positive(old(self).entries()),
            now < u64::MAX,
            forall|id: TimerId| call_requires(fire, (id,)),
            forall|id: TimerId, t: u64| call_ensures(fire, (id,), t) ==> now <= t,
        ensures
            final(self).wf(),
            final(self).next_id() == old(self).next_id(),
            periods_positive(final(self).entries()),
            exists|ids: Seq<usize>, times: Seq<u64>|
                #![trigger ids.len(), times.len()]
                {
                    &&& ids.len() == fired
                    &&& times.len() == fired
                    &&& forall|k: int| 0 <= k < fired ==> call_ensures(fire, (TimerId(ids[k]),), #[trigger] times[k])
                    &&& run_steps(old(self).entries(), old(self).cancelled(), now, times, (old(self).entries().len() + 1) as nat)
                        == (ids, final(self).entries(), final(self).cancelled())
                },
    {
        let ghost e0 = self.entries@;
        let ghost c0 = self.cancelled@.to_set();
        let ghost fuel0: nat = (e0.len() + 1) as nat;
        let ghost mut ids: Seq<usize> = Seq::empty();
        let ghost mut times: Seq<u64> = Seq::empty();
        let mut fired: usize = 0;
        let n: usize = self.entries.len();
        proof {
            lemma_pending_bound(e0, c0, now);
            assert forall|fut: Seq<u64>| #[trigger] run_steps(e0, c0, now, times + fut, fuel0) == ({
                let r = run_steps(e0, c0, now, fut, fuel0);
                (ids + r.0, r.1, r.2)
            }) by {
                assert(times + fut =~= fut);
                let r = run_steps(e0, c0, now, fut, fuel0);
                assert(ids + r.0 =~= r.0);
            }
        }
        loop
            invariant
                self.wf(),
                self.next_id == old(self).next_id(),
                periods_positive(self.entries@),
                e0 == old(self).entries(),
                c0 == old(self).cancelled(),
                fuel0 == e0.len() + 1,
                e0.len() == n,
                now < u64::MAX,
                forall|id: TimerId| call_requires(fire, (id,)),
                forall|id: TimerId, t: u64| call_ensures(fire, (id,), t) ==> now <= t,
                fired == ids.len(),
                ids.len() == times.len(),
                pending(self.entries@, self.cancelled@.to_set(), now) + fired < fuel0,
                forall|k: int| 0 <= k < ids.len() ==> call_ensures(fire, (TimerId(ids[k]),), #[trigger] times[k]),
                forall|fut: Seq<u64>| #[trigger] run_steps(e0, c0, now, times + fut, fuel0) == ({
                    let r = run_steps(self.entries@, self.cancelled@.to_set(), now, fut, (fuel0 - fired) as nat);
                    (ids + r.0, r.1, r.2)
                }),
            decreases pending(self.entries@, self.cancelled@.to_set(), now),
        {
            let ghost es = self.entries@;
            let ghost cs = self.cancelled@.to_set();
            let ghost f: nat = (fuel0 - fired) as nat;
            proof {
                lemma_take_due_suffix(es, cs, now);
                lemma_take_due_pending(es, cs, now);
            }
            let got = self.fire_next(now);
            let ghost cs2 = self.cancelled@.to_set();
            match got {
                None => {
                    proof {
                        assert forall|fut: Seq<u64>| #[trigger] run_steps(es, cs, now, fut, f) == (
                            Seq::<usize>::empty(),
                            self.entries@,
                            self.cancelled@.to_set(),
                        ) by {}
                        assert(times + Seq::<u64>::empty() =~= times);
                        assert(ids + Seq::<usize>::empty() =~= ids);
                        assert(run_steps(e0, c0, now, times + Seq::<u64>::empty(), fuel0) == (
                            ids,
                            self.entries@,
                            self.cancelled@.to_set(),
                        ));
                        assert(ids.len() == fired && times.len() == fired);
                    }
                    return fired;
                },
                Some(e) => {
                    let ghost mid = self.entries@;
                    let t = fire(TimerId(e.id));
                    self.rearm(e, t);
                    proof {
                        let k = choose|k: int| #[trigger] taken_at(es, cs, now, k);
                        assert(e == es[k - 1]);
                        assert(e.period != Some(0u64));
                        assert forall|i: int| 0 <= i < mid.len() implies #[trigger] mid[i].period != Some(0u64) by {
                            assert(mid[i] == es[i + k]);
                        }
                        lemma_rearmed_facts(mid, cs2, e, t, now);
                        assert forall|fut: Seq<u64>| #[trigger] run_steps(e0, c0, now, times.push(t) + fut, fuel0) == ({
                            let r = run_steps(self.entries@, self.cancelled@.to_set(), now, fut, (fuel0 - fired - 1) as nat);
                            (ids.push(e.id) + r.0, r.1, r.2)
                        }) by {
                            let fut2 = seq![t] + fut;
                            assert(times + fut2 =~= times.push(t) + fut);
                            assert(fut2.drop_first() =~= fut);
                            assert(fut2[0] == t);
                            let r = run_steps(self.entries@, self.cancelled@.to_set(), now, fut, (f - 1) as nat);
                            assert(run_steps(es, cs, now, fut2, f) == (seq![e.id] + r.0, r.1, r.2));
                            assert(ids + (seq![e.id] + r.0) =~= ids.push(e.id) + r.0);
                        }
                        ids = ids.push(e.id);
                        times = times.push(t);
                    }
                    fired += 1;
                },
            }
        }
    }


    /// Time until the earliest live timer is due (zero when it is overdue),
    /// or `None` when no live timer is scheduled.
    pub fn next_deadline(&self, now: u64) -> (r: Option<u64>)
        requires
            self.wf(),
        ensures
            r == match first_live(self.entries(), self.cancelled()) {
                Some(d) => Some(if d <= now { 0 } else { (d - now) as u64 }),
                None => None::<u64>,
            },
    {
        let mut i: usize = 0;
        assert(self.entries@.skip(0) =~= self.entries@);
        while i < self.entries.len()
            invariant
                i <= self.entries@.len(),
                first_live(self.entries@, self.cancelled@.to_set()) == first_live(
                    self.entries@.skip(i as int),
                    self.cancelled@.to_set(),
                ),
            decreases self.entries@.len() - i,
        {
            assert(self.entries@.skip(i as int)[0] == self.entries@[i as int]);
            assert(self.entries@.skip(i as int).drop_first() =~= self.entries@.skip(i + 1));
            let e = self.entries[i];
            if !self.is_cancelled(e.id) {
                return Some(if e.deadline <= now { 0 } else { e.deadline - now });
            }
            i += 1;
        }
        None
    }
}

proof fn lemma_insert_pos_bounds(s: Seq<TimerEntry>, e: TimerEntry)
    ensures
        0 <= insert_pos(s, e) <= s.len(),
    decreases s.len(),
{
    if s.len() > 0 && !before(e, s[0]) {
        lemma_insert_pos_bounds(s.drop_first(), e);
    }
}

proof fn lemma_insert_sorted_ids(s: Seq<TimerEntry>, e: TimerEntry)
    ensures
        0 <= insert_pos(s, e) <= s.len(),
        insert_sorted(s, e).len() == s.len() + 1,
        insert_sorted(s, e)[insert_pos(s, e)] == e,
        forall|j: int| 0 <= j < insert_pos(s, e) ==> #[trigger] insert_sorted(s, e)[j] == s[j],
        forall|j: int| insert_pos(s, e) < j <= s.len() ==> #[trigger] insert_sorted(s, e)[j] == s[j - 1],
{
    lemma_insert_pos_bounds(s, e);
}


/// After a step of a run, the entries left are those from `k` on, and the
/// timer taken, if any, is the one just before.
pub open spec fn taken_at(es: Seq<TimerEntry>, canc: Set<usize>, now: u64, k: int) -> bool {
    &&& 0 <= k <= es.len()
    &&& take_due(es, canc, now).1 == es.skip(k)
    &&& take_due(es, canc, now).0 matches Some(x) ==> k >= 1 && x == es[k - 1]
}

proof fn lemma_take_due_suffix(es: Seq<TimerEntry>, canc: Set<usize>, now: u64)
    ensures
        exists|k: int| #[trigger] taken_at(es, canc, now, k),
    decreases es.len(),
{
    if es.len() == 0 {
        assert(es.skip(0) =~= es);
        assert(taken_at(es, canc, now, 0));
    } else if canc.contains(es[0].id) {
        let d = es.drop_first();
        lemma_take_due_suffix(d, canc.remove(es[0].id), now);
        let k = choose|k: int| #[trigger] taken_at(d, canc.remove(es[0].id), now, k);
        assert(d.skip(k) =~= es.skip(k + 1));
        if k >= 1 {
            assert(d[k - 1] == es[k]);
        }
        assert(taken_at(es, canc, now, k + 1));
    } else if es[0].deadline <= now {
        assert(es.drop_first() =~= es.skip(1));
        assert(taken_at(es, canc, now, 1));
    } else {
        assert(es.skip(0) =~= es);
        assert(taken_at(es, canc, now, 0));
    }
}

proof fn lemma_pending_bound(es: Seq<TimerEntry>, canc: Set<usize>, now: u64)
    ensures
        pending(es, canc, now) <= es.len(),
    decreases es.len(),
{
    if es.len() > 0 {
        lemma_pending_bound(es.drop_first(), canc, now);
    }
}

proof fn lemma_pending_unmark(es: Seq<TimerEntry>, canc: Set<usize>, id: usize, now: u64)
    requires
        forall|i: int| 0 <= i < es.len() ==> #[trigger] es[i].id != id,
    ensures
        pending(es, canc.remove(id), now) == pending(es, canc, now),
    decreases es.len(),
{
    if es.len() > 0 {
        assert forall|i: int| 0 <= i < es.drop_first().len() implies #[trigger] es.drop_first()[i].id != id by {
            assert(es.drop_first()[i] == es[i + 1]);
        }
        assert(es[0].id != id);
        lemma_pending_unmark(es.drop_first(), canc, id, now);
    }
}

proof fn lemma_pending_insert(s: Seq<TimerEntry>, p: int, e: TimerEntry, canc: Set<usize>, now: u64)
    requires
        0 <= p <= s.len(),
    ensures
        pending(s.insert(p, e), canc, now) == pending(s, canc, now) + (if e.deadline <= now || canc.contains(
            e.id,
        ) {
            1nat
        } else {
            0nat
        }),
    decreases p,
{
    if p == 0 {
        assert(s.insert(p, e)[0] == e);
        assert(s.insert(p, e).drop_first() =~= s);
    } else {
        assert(s.insert(p, e)[0] == s[0]);
        assert(s.insert(p, e).drop_first() =~= s.drop_first().insert(p - 1, e));
        lemma_pending_insert(s.drop_first(), p - 1, e, canc, now);
    }
}

proof fn lemma_unique_drop_first(es: Seq<TimerEntry>)
    requires
        ids_unique(es),
        es.len() > 0,
    ensures
        ids_unique(es.drop_first()),
        forall|i: int| 0 <= i < es.drop_first().len() ==> #[trigger] es.drop_first()[i].id != es[0].id,
{
    assert forall|i: int, j: int| 0 <= i < j < es.drop_first().len() implies #[trigger] es.drop_first()[i].id
        != #[trigger] es.drop_first()[j].id by {
        assert(es.drop_first()[i] == es[i + 1] && es.drop_first()[j] == es[j + 1]);
    }
    assert forall|i: int| 0 <= i < es.drop_first().len() implies #[trigger] es.drop_first()[i].id != es[0].id by {
        assert(es.drop_first()[i] == es[i + 1]);
    }
}

proof fn lemma_take_due_pending(es: Seq<TimerEntry>, canc: Set<usize>, now: u64)
    requires
        ids_unique(es),
    ensures
        take_due(es, canc, now).0 is Some ==> pending(take_due(es, canc, now).1, take_due(es, canc, now).2, now)
            + 1 <= pending(es, canc, now),
    decreases es.len(),
{
    if es.len() > 0 {
        lemma_unique_drop_first(es);
        if canc.contains(es[0].id) {
            lemma_pending_unmark(es.drop_first(), canc, es[0].id, now);
            lemma_take_due_pending(es.drop_first(), canc.remove(es[0].id), now);
        }
    }
}

proof fn lemma_rearmed_facts(es: Seq<TimerEntry>, canc: Set<usize>, e: TimerEntry, after: u64, now: u64)
    requires
        periods_positive(es),
        e.period != Some(0u64),
        now <= after,
        now < u64::MAX,
    ensures
        periods_positive(rearmed(es, canc, e, after)),
        pending(rearmed(es, canc, e, after), canc, now) == pending(es, canc, now),
{
    if let Some(p) = e.period {
        if !canc.contains(e.id) {
            let ne = TimerEntry { id: e.id, deadline: sat_add(after, p), period: e.period };
            lemma_insert_sorted_ids(es, ne);
            lemma_pending_insert(es, insert_pos(es, ne), ne, canc, now);
            let r = insert_sorted(es, ne);
            assert forall|i: int| 0 <= i < r.len() implies #[trigger] r[i].period != Some(0u64) by {
                let q = insert_pos(es, ne);
                if i < q {
                    assert(r[i] == es[i]);
                } else if i > q {
                    assert(r[i] == es[i - 1]);
                }
            }
        }
    }
}

proof fn lemma_take_due_silent(es: Seq<TimerEntry>, canc: Set<usize>, now: u64, id: usize)
    requires
        ids_unique(es),
        silent(es, canc, id),
    ensures
        silent(take_due(es, canc, now).1, take_due(es, canc, now).2, id),
        take_due(es, canc, now).0 matches Some(x) ==> x.id != id,
        ids_unique(take_due(es, canc, now).1),
        take_due(es, canc, now).0 matches Some(x) ==> forall|i: int|
            0 <= i < take_due(es, canc, now).1.len() ==> #[trigger] take_due(es, canc, now).1[i].id != x.id,
    decreases es.len(),
{
    if es.len() > 0 {
        lemma_unique_drop_first(es);
        let d = es.drop_first();
        if canc.contains(es[0].id) {
            if es[0].id != id {
                if !canc.contains(id) {
                    assert forall|i: int| 0 <= i < d.len() implies #[trigger] d[i].id != id by {
                        assert(d[i] == es[i + 1]);
                    }
                }
            }
            lemma_take_due_silent(d, canc.remove(es[0].id), now, id);
        } else if es[0].deadline <= now {
            if !canc.contains(id) {
                assert(es[0].id != id);
                assert forall|i: int| 0 <= i < d.len() implies #[trigger] d[i].id != id by {
                    assert(d[i] == es[i + 1]);
                }
            }
        }
    }
}

proof fn lemma_rearmed_silent(es: Seq<TimerEntry>, canc: Set<usize>, e: TimerEntry, after: u64, id: usize)
    requires
        ids_unique(es),
        silent(es, canc, id),
        e.id != id,
        forall|i: int| 0 <= i < es.len() ==> #[trigger] es[i].id != e.id,
    ensures
        silent(rearmed(es, canc, e, after), canc, id),
        ids_unique(rearmed(es, canc, e, after)),
{
    if let Some(p) = e.period {
        if !canc.contains(e.id) {
            let ne = TimerEntry { id: e.id, deadline: sat_add(after, p), period: e.period };
            lemma_insert_sorted_ids(es, ne);
            let r = insert_sorted(es, ne);
            let q = insert_pos(es, ne);
            if !canc.contains(id) {
                assert forall|i: int| 0 <= i < r.len() implies #[trigger] r[i].id != id by {
                    if i < q {
                        assert(r[i] == es[i]);
                    } else if i > q {
                        assert(r[i] == es[i - 1]);
                    }
                }
            }
            assert forall|i: int, j: int| 0 <= i < j < r.len() implies #[trigger] r[i].id != #[trigger] r[j].id by {
                if i < q && j > q {
                    assert(r[i] == es[i] && r[j] == es[j - 1]);
                } else if i > q {
                    assert(r[i] == es[i - 1] && r[j] == es[j - 1]);
                } else if i == q {
                    assert(r[j] == es[j - 1]);
                } else if j == q {
                    assert(r[i] == es[i]);
                } else {
                    assert(r[i] == es[i] && r[j] == es[j]);
                }
            }
        }
    }
}

/// A cancelled timer never fires again: while its id is marked cancelled,
/// or once no entry carries it, a run does not fire it, and after the run
/// its id is still marked or no entry carries it, so no later run fires it
/// either.
pub proof fn law_cancelled_timer_never_fires(
    es: Seq<TimerEntry>,
    canc: Set<usize>,
    now: u64,
    times: Seq<u64>,
    fuel: nat,
    id: usize,
)
    requires
        ids_unique(es),
        silent(es, canc, id),
    ensures
        !run_steps(es, canc, now, times, fuel).0.contains(id),
        silent(run_steps(es, canc, now, times, fuel).1, run_steps(es, canc, now, times, fuel).2, id),
        ids_unique(run_steps(es, canc, now, times, fuel).1),
    decreases fuel,
{
    if fuel > 0 {
        let t = take_due(es, canc, now);
        lemma_take_due_silent(es, canc, now, id);
        if let Some(e) = t.0 {
            lemma_rearmed_silent(t.1, t.2, e, times[0], id);
            let next = rearmed(t.1, t.2, e, times[0]);
            law_cancelled_timer_never_fires(next, t.2, now, times.drop_first(), (fuel - 1) as nat, id);
            let r = run_steps(next, t.2, now, times.drop_first(), (fuel - 1) as nat);
            assert(run_steps(es, canc, now, times, fuel).0 == seq![e.id] + r.0);
            if (seq![e.id] + r.0).contains(id) {
                let q = choose|q: int| 0 <= q < (seq![e.id] + r.0).len() && (seq![e.id] + r.0)[q] == id;
                assert(r.0[q - 1] == id);
            }
        }
    }
}

/// A wheel's entries and marks, as the law on cancelled timers reads them.
pub proof fn law_wheel_cancel_silences(w: TimerWheel, id: TimerId)
    requires
        w.wf(),
    ensures
        silent(w.entries(), w.cancelled().insert(id.0), id.0),
        ids_unique(w.entries()),
{
}

proof fn lemma_insert_pos_props(s: Seq<TimerEntry>, e: TimerEntry)
    ensures
        0 <= insert_pos(s, e) <= s.len(),
        forall|j: int| 0 <= j < insert_pos(s, e) ==> !before(e, #[trigger] s[j]),
        insert_pos(s, e) < s.len() ==> before(e, s[insert_pos(s, e)]),
    decreases s.len(),
{
    if s.len() > 0 && !before(e, s[0]) {
        let d = s.drop_first();
        lemma_insert_pos_props(d, e);
        assert forall|j: int| 0 <= j < insert_pos(s, e) implies !before(e, #[trigger] s[j]) by {
            if j > 0 {
                assert(s[j] == d[j - 1]);
            }
        }
        if insert_pos(s, e) < s.len() {
            assert(s[insert_pos(s, e)] == d[insert_pos(d, e)]);
        }
    }
}

proof fn lemma_insert_sorted_sorted(s: Seq<TimerEntry>, e: TimerEntry)
    requires
        sorted(s),
        forall|i: int| 0 <= i < s.len() ==> #[trigger] s[i].id != e.id,
    ensures
        sorted(insert_sorted(s, e)),
{
    lemma_insert_pos_props(s, e);
    lemma_insert_sorted_ids(s, e);
    let p = insert_pos(s, e);
    let r = insert_sorted(s, e);
    assert forall|j: int| 0 <= j < p implies before(#[trigger] s[j], e) by {
        assert(!before(e, s[j]));
        assert(s[j].id != e.id);
    }
    assert forall|j: int| p <= j < s.len() implies before(e, #[trigger] s[j]) by {
        if j > p {
            assert(before(s[p], s[j]));
        }
    }
    assert forall|i: int, j: int| 0 <= i < j < r.len() implies before(#[trigger] r[i], #[trigger] r[j]) by {
        if j < p {
            assert(r[i] == s[i] && r[j] == s[j]);
        } else if j == p {
            assert(r[i] == s[i]);
        } else if i < p {
            assert(r[i] == s[i] && r[j] == s[j - 1]);
            assert(before(s[i], e) && before(e, s[j - 1]));
        } else if i == p {
            assert(r[j] == s[j - 1]);
        } else {
            assert(r[i] == s[i - 1] && r[j] == s[j - 1]);
        }
    }
}

proof fn lemma_take_due_finds(es: Seq<TimerEntry>, canc: Set<usize>, now: u64, j: int)
    requires
        sorted(es),
        ids_unique(es),
        0 <= j < es.len(),
        es[j].deadline <= now,
        !canc.contains(es[j].id),
    ensures
        take_due(es, canc, now).0 is Some,
        take_due(es, canc, now).0 matches Some(e) ==> e.id == es[j].id || (!take_due(es, canc, now).2.contains(
            es[j].id,
        ) && exists|q: int| 0 <= q < take_due(es, canc, now).1.len() && #[trigger] take_due(es, canc, now).1[q]
            == es[j]),
    decreases es.len(),
{
    let d = es.drop_first();
    lemma_unique_drop_first(es);
    if j > 0 {
        assert(before(es[0], es[j]));
        assert(d[j - 1] == es[j]);
        assert(sorted(d)) by {
            assert forall|a: int, b: int| 0 <= a < b < d.len() implies before(#[trigger] d[a], #[trigger] d[b]) by {
                assert(d[a] == es[a + 1] && d[b] == es[b + 1]);
            }
        }
    }
    if canc.contains(es[0].id) {
        assert(j > 0);
        lemma_take_due_finds(d, canc.remove(es[0].id), now, j - 1);
    } else {
        assert(es[0].deadline <= now);
        if j > 0 {
            assert(take_due(es, canc, now).1[j - 1] == es[j]);
            assert(es[0].id != es[j].id);
        }
    }
}

proof fn lemma_period_of_entry(es: Seq<TimerEntry>, id: usize)
    requires
        periods_positive(es),
    ensures
        period_of(es, id) != Some(0u64),
    decreases es.len(),
{
    if es.len() > 0 && es[0].id != id {
        assert forall|i: int| 0 <= i < es.drop_first().len() implies #[trigger] es.drop_first()[i].period != Some(0u64) by {
            assert(es.drop_first()[i] == es[i + 1]);
        }
        lemma_period_of_entry(es.drop_first(), id);
    }
}

/// A run at `now` fires every live timer whose deadline has come, when no
/// timer has a zero period, the clock does not go back during the run and
/// `fuel` is more than the work the run has to do.
proof fn lemma_due_timer_fires(es: Seq<TimerEntry>, canc: Set<usize>, now: u64, times: Seq<u64>, fuel: nat, j: int)
    requires
        sorted(es),
        ids_unique(es),
        periods_positive(es),
        now < u64::MAX,
        forall|k: int| 0 <= k < times.len() ==> now <= #[trigger] times[k],
        times.len() >= fuel,
        fuel > pending(es, canc, now),
        0 <= j < es.len(),
        es[j].deadline <= now,
        !canc.contains(es[j].id),
    ensures
        run_steps(es, canc, now, times, fuel).0.contains(es[j].id),
    decreases fuel,
{
    let x = es[j];
    let t = take_due(es, canc, now);
    lemma_take_due_finds(es, canc, now, j);
    lemma_take_due_suffix(es, canc, now);
    lemma_take_due_pending(es, canc, now);
    let e = t.0->0;
    let r = run_steps(rearmed(t.1, t.2, e, times[0]), t.2, now, times.drop_first(), (fuel - 1) as nat);
    assert(run_steps(es, canc, now, times, fuel).0 == seq![e.id] + r.0);
    if e.id == x.id {
        assert((seq![e.id] + r.0)[0] == x.id);
    } else {
        let k = choose|k: int| #[trigger] taken_at(es, canc, now, k);
        let q = choose|q: int| 0 <= q < t.1.len() && #[trigger] t.1[q] == x;
        assert(t.1 == es.skip(k));
        assert(e == es[k - 1]);
        assert forall|i: int| 0 <= i < t.1.len() implies #[trigger] t.1[i].id != e.id by {
            assert(t.1[i] == es[i + k]);
        }
        assert forall|a: int, b: int| 0 <= a < b < t.1.len() implies before(#[trigger] t.1[a], #[trigger] t.1[b]) by {
            assert(t.1[a] == es[a + k] && t.1[b] == es[b + k]);
        }
        assert forall|a: int, b: int| 0 <= a < b < t.1.len() implies #[trigger] t.1[a].id != #[trigger] t.1[b].id by {
            assert(t.1[a] == es[a + k] && t.1[b] == es[b + k]);
        }
        assert forall|i: int| 0 <= i < t.1.len() implies #[trigger] t.1[i].period != Some(0u64) by {
            assert(t.1[i] == es[i + k]);
        }
        assert(e.period != Some(0u64));
        assert(now <= times[0]);
        lemma_rearmed_facts(t.1, t.2, e, times[0], now);
        let next = rearmed(t.1, t.2, e, times[0]);
        let mut q2: int = q;
        match e.period {
            Some(p) => {
                if !t.2.contains(e.id) {
                    let ne = TimerEntry { id: e.id, deadline: sat_add(times[0], p), period: e.period };
                    lemma_insert_sorted_sorted(t.1, ne);
                    lemma_insert_sorted_ids(t.1, ne);
                    let ip = insert_pos(t.1, ne);
                    if q >= ip {
                        q2 = q + 1;
                    }
                    assert(next[q2] == x);
                    assert forall|a: int, b: int| 0 <= a < b < next.len() implies #[trigger] next[a].id
                        != #[trigger] next[b].id by {
                        if a < ip && b > ip {
                            assert(next[a] == t.1[a] && next[b] == t.1[b - 1]);
                        } else if a > ip {
                            assert(next[a] == t.1[a - 1] && next[b] == t.1[b - 1]);
                        } else if a == ip {
                            assert(next[b] == t.1[b - 1]);
                        } else if b == ip {
                            assert(next[a] == t.1[a]);
                        } else {
                            assert(next[a] == t.1[a] && next[b] == t.1[b]);
                        }
                    }
                }
            },
            None => {},
        }
        assert(next[q2] == x);
        assert forall|i: int| 0 <= i < times.drop_first().len() implies now <= #[trigger] times.drop_first()[i] by {
            assert(times.drop_first()[i] == times[i + 1]);
        }
        lemma_due_timer_fires(next, t.2, now, times.drop_first(), (fuel - 1) as nat, q2);
        assert((seq![e.id] + r.0)[1 + r.0.index_of(x.id)] == x.id);
    }
}

/// Law: resetting a pending timer moves it. The new timer gets a new id
/// and the old one's period, and is due `d` after `now`; the old id never
/// fires again; and a run after the reset, at or after the new deadline,
/// fires the new id (when no timer has a zero period, the new id carries no
/// cancel mark, and the clock does not go back during the run).
pub proof fn law_reset_moves_the_timer(w: TimerWheel, id: usize, d: u64, now: u64, later: u64, times: Seq<u64>)
    requires
        w.wf(),
        periods_positive(w.entries()),
        exists|i: int| 0 <= i < w.entries().len() && #[trigger] w.entries()[i].id == id,
        !w.cancelled().contains(w.next_id()),
        sat_add(now, d) <= later < u64::MAX,
        forall|k: int| 0 <= k < times.len() ==> later <= #[trigger] times[k],
        times.len() >= w.entries().len() + 2,
    ensures
        ({
            let e2 = TimerEntry { id: w.next_id(), deadline: sat_add(now, d), period: period_of(w.entries(), id) };
            let es2 = insert_sorted(w.entries(), e2);
            let c2 = w.cancelled().insert(id);
            &&& e2.id != id
            &&& silent(es2, c2, id)
            &&& ids_unique(es2)
            &&& run_steps(es2, c2, later, times, (es2.len() + 1) as nat).0.contains(e2.id)
        }),
{
    let es = w.entries();
    let e2 = TimerEntry { id: w.next_id(), deadline: sat_add(now, d), period: period_of(es, id) };
    let es2 = insert_sorted(es, e2);
    let c2 = w.cancelled().insert(id);
    let i0 = choose|i: int| 0 <= i < es.len() && #[trigger] es[i].id == id;
    assert(es[i0].id < w.next_id());
    assert forall|i: int| 0 <= i < es.len() implies #[trigger] es[i].id != e2.id by {
        assert(es[i].id < w.next_id());
    }
    lemma_insert_sorted_sorted(es, e2);
    lemma_insert_sorted_ids(es, e2);
    let ip = insert_pos(es, e2);
    assert forall|a: int, b: int| 0 <= a < b < es2.len() implies #[trigger] es2[a].id != #[trigger] es2[b].id by {
        if a < ip && b > ip {
            assert(es2[a] == es[a] && es2[b] == es[b - 1]);
        } else if a > ip {
            assert(es2[a] == es[a - 1] && es2[b] == es[b - 1]);
        } else if a == ip {
            assert(es2[b] == es[b - 1]);
        } else if b == ip {
            assert(es2[a] == es[a]);
        } else {
            assert(es2[a] == es[a] && es2[b] == es[b]);
        }
    }
    lemma_period_of_entry(es, id);
    assert forall|i: int| 0 <= i < es2.len() implies #[trigger] es2[i].period != Some(0u64) by {
        if i < ip {
            assert(es2[i] == es[i]);
        } else if i > ip {
            assert(es2[i] == es[i - 1]);
        }
    }
    lemma_pending_bound(es2, c2, later);
    lemma_due_timer_fires(es2, c2, later, times, (es2.len() + 1) as nat, ip);
}

} // verus!
