//! Circuit breaker: a per-backend window of request outcomes. The breaker
//! opens when, with enough requests in the window, the error rate is over
//! the threshold; after a cool-off it lets a single probe through
//! (half-open), and the probe's outcome closes or re-opens it.
//!
//! Time is milliseconds on the caller's clock. The error-rate threshold is
//! a fraction that the caller compares: `record` says when the window holds
//! enough requests for the comparison, and `settle` acts on its result.

use vstd::prelude::*;
use crate::migrate::State;

verus! {

/// Cool-off, in milliseconds, before an open breaker allows a probe.
pub const COOL_OFF: u64 = 5000;

/// The breaker's state as values.
pub struct BreakerView {
    pub state: State,
    pub opened_at: Option<u64>,
    pub probe_in_flight: bool,
    pub errors: u32,
    pub total: u32,
    pub started: u64,
    pub window: u64,
    pub min_requests: u32,
}

pub struct Breaker {
    state: State,
    opened_at: Option<u64>,
    probe_in_flight: bool,
    errors: u32,
    total: u32,
    started: u64,
    window: u64,
    min_requests: u32,
}

impl View for Breaker {
    type V = BreakerView;

    closed spec fn view(&self) -> BreakerView {
        BreakerView {
            state: self.state,
            opened_at: self.opened_at,
            probe_in_flight: self.probe_in_flight,
            errors: self.errors,
            total: self.total,
            started: self.started,
            window: self.window,
            min_requests: self.min_requests,
        }
    }
}

/// `n + 1`, stopping at the top of the type.
pub open spec fn bump(n: u32) -> u32 {
    if n == u32::MAX { n } else { (n + 1) as u32 }
}

/// Whether the cool-off since the breaker opened is over.
pub open spec fn cooled(b: BreakerView, now: u64) -> bool {
    match b.opened_at {
        Some(t) => now >= t && now - t >= COOL_OFF,
        None => false,
    }
}

/// The breaker opened at `now`, with a fresh window and no probe claimed.
pub open spec fn tripped(b: BreakerView, now: u64) -> BreakerView {
    BreakerView {
        state: State::Open,
        opened_at: Some(now),
        probe_in_flight: false,
        errors: 0,
        total: 0,
        started: now,
        ..b
    }
}

/// The breaker closed at `now`, with a fresh window and no probe claimed.
pub open spec fn closed(b: BreakerView, now: u64) -> BreakerView {
    BreakerView {
        state: State::Closed,
        opened_at: None,
        probe_in_flight: false,
        errors: 0,
        total: 0,
        started: now,
        ..b
    }
}

/// A probe is claimed exactly while the breaker is half-open.
pub open spec fn probe_consistent(b: BreakerView) -> bool {
    b.probe_in_flight <==> b.state == State::HalfOpen
}

/// Whether a backend may be considered for routing: closed, or open with
/// the cool-off over and no probe in flight.
pub open spec fn routable(b: BreakerView, now: u64) -> bool {
    match b.state {
        State::Closed => true,
        State::Open => cooled(b, now) && !b.probe_in_flight,
        State::HalfOpen => false,
    }
}

/// Admission of a request: closed admits; open after the cool-off claims
/// the single probe and becomes half-open; otherwise rejected.
pub open spec fn admitted(b: BreakerView, now: u64) -> (BreakerView, bool) {
    match b.state {
        State::Closed => (b, true),
        State::Open => if cooled(b, now) && !b.probe_in_flight {
            (BreakerView { state: State::HalfOpen, probe_in_flight: true, ..b }, true)
        } else {
            (b, false)
        },
        State::HalfOpen => (b, false),
    }
}

/// Recording an outcome. In half-open the probe's outcome releases the
/// probe and closes (success) or re-opens (failure) the breaker. Otherwise
/// the outcome is counted in the window, which starts afresh once it is
/// older than its length; the second part is whether the window now holds
/// enough requests for the error rate to be compared.
pub open spec fn recorded(b: BreakerView, success: bool, now: u64) -> (BreakerView, bool) {
    if b.state == State::HalfOpen {
        let r = BreakerView { probe_in_flight: false, ..b };
        (if success { closed(r, now) } else { tripped(r, now) }, false)
    } else {
        let stale = now >= b.started && now - b.started > b.window;
        let w = if stale { BreakerView { errors: 0, total: 0, started: now, ..b } } else { b };
        let w2 = BreakerView {
            total: bump(w.total),
            errors: if success { w.errors } else { bump(w.errors) },
            ..w
        };
        (w2, w2.total >= w2.min_requests)
    }
}

impl Breaker {
    /// A closed breaker whose window (in seconds) starts at `now`.
    pub fn new(window_secs: u64, min_requests: u32, now: u64) -> (b: Self)
        ensures
            b@ == (BreakerView {
                state: State::Closed,
                opened_at: None,
                probe_in_flight: false,
                errors: 0,
                total: 0,
                started: now,
                window: if window_secs * 1000 > u64::MAX { u64::MAX } else { (window_secs * 1000) as u64 },
                min_requests,
            }),
    {
        Breaker {
            state: State::Closed,
            opened_at: None,
            probe_in_flight: false,
            errors: 0,
            total: 0,
            started: now,
            window: if window_secs <= u64::MAX / 1000 { window_secs * 1000 } else { u64::MAX },
            min_requests,
        }
    }

    /// A probe is claimed exactly while the breaker is half-open.
    #[verifier::type_invariant]
    spec fn probe_matches_state(self) -> bool {
        self.probe_in_flight <==> self.state == State::HalfOpen
    }

    /// The state; a probe is claimed exactly while it is half-open.
    pub fn state(&self) -> (r: State)
        ensures
            r == self@.state,
            probe_consistent(self@),
    {
        proof {
            use_type_invariant(self);
        }
        self.state
    }

    /// Errors counted in the current window.
    pub fn errors(&self) -> (r: u32)
        ensures
            r == self@.errors,
    {
        self.errors
    }

    /// Requests counted in the current window.
    pub fn total(&self) -> (r: u32)
        ensures
            r == self@.total,
    {
        self.total
    }

    /// Whether the half-open probe is claimed.
    pub fn probe_claimed(&self) -> (r: bool)
        ensures
            r == self@.probe_in_flight,
            probe_consistent(self@),
    {
        proof {
            use_type_invariant(self);
        }
        self.probe_in_flight
    }

    fn cooled_off(&self, now: u64) -> (r: bool)
        ensures
            r == cooled(self@, now),
    {
        match self.opened_at {
            Some(t) => now >= t && now - t >= COOL_OFF,
            None => false,
        }
    }

    /// Opens the breaker, releasing a claimed probe, and starts a fresh
    /// window.
    pub fn trip(&mut self, now: u64)
        ensures
            final(self)@ == tripped(old(self)@, now),
    {
        *self = Breaker {
            state: State::Open,
            opened_at: Some(now),
            probe_in_flight: false,
            errors: 0,
            total: 0,
            started: now,
            window: self.window,
            min_requests: self.min_requests,
        };
    }

    /// Closes the breaker, releasing a claimed probe, and starts a fresh
    /// window.
    pub fn close(&mut self, now: u64)
        ensures
            final(self)@ == closed(old(self)@, now),
    {
        *self = Breaker {
            state: State::Closed,
            opened_at: None,
            probe_in_flight: false,
            errors: 0,
            total: 0,
            started: now,
            window: self.window,
            min_requests: self.min_requests,
        };
    }

    /// Records a request outcome and updates the state. In half-open the
    /// probe's outcome closes (success) or re-opens (failure) the breaker.
    /// Otherwise the outcome is counted in the window; once the window holds
    /// enough requests, `over(errors, total)` says whether the error rate is
    /// over the threshold, and if it is the breaker opens.
    pub fn record<F: Fn(u32, u32) -> bool>(&mut self, success: bool, now: u64, over: F)
        requires
            forall|e: u32, t: u32| call_requires(over, (e, t)),
        ensures
            ({
                let r = recorded(old(self)@, success, now);
                &&& !r.1 ==> final(self)@ == r.0
                &&& r.1 ==> exists|o: bool| #[trigger] call_ensures(over, (r.0.errors, r.0.total), o)
                    && final(self)@ == (if o { tripped(r.0, now) } else { r.0 })
            }),
    {
        let compare = self.count(success, now);
        if compare {
            let o = over(self.errors, self.total);
            let ghost counted = self@;
            self.settle(o, now);
            assert(call_ensures(over, (counted.errors, counted.total), o));
        }
    }

    /// Counts an outcome (or resolves the probe); returns whether the
    /// window holds enough requests for its error rate to be compared.
    fn count(&mut self, success: bool, now: u64) -> (compare: bool)
        ensures
            (final(self)@, compare) == recorded(old(self)@, success, now),
    {
        proof {
            use_type_invariant(&*self);
        }
        if self.state == State::HalfOpen {
            if success {
                self.close(now);
            } else {
                self.trip(now);
            }
            return false;
        }
        if now >= self.started && now - self.started > self.window {
            self.errors = 0;
            self.total = 0;
            self.started = now;
        }
        self.total = self.total.saturating_add(1);
        if !success {
            self.errors = self.errors.saturating_add(1);
        }
        self.total >= self.min_requests
    }

    /// Acts on the error-rate comparison: over the threshold opens the
    /// breaker.
    pub fn settle(&mut self, over_threshold: bool, now: u64)
        ensures
            over_threshold ==> final(self)@ == tripped(old(self)@, now),
            !over_threshold ==> final(self)@ == old(self)@,
    {
        if over_threshold {
            self.trip(now);
        }
    }

    /// Whether the backend may be considered for routing. Changes nothing.
    pub fn can_route(&self, now: u64) -> (r: bool)
        ensures
            r == routable(self@, now),
    {
        match self.state {
            State::Closed => true,
            State::Open => self.cooled_off(now) && !self.probe_in_flight,
            State::HalfOpen => false,
        }
    }

    /// Admits a request to the selected backend, claiming the single probe
    /// when the breaker is open and cooled off.
    pub fn try_admit(&mut self, now: u64) -> (r: bool)
        ensures
            (final(self)@, r) == admitted(old(self)@, now),
    {
        match self.state {
            State::Closed => true,
            State::Open => {
                if self.cooled_off(now) && !self.probe_in_flight {
                    *self = Breaker {
                        state: State::HalfOpen,
                        opened_at: self.opened_at,
                        probe_in_flight: true,
                        errors: self.errors,
                        total: self.total,
                        started: self.started,
                        window: self.window,
                        min_requests: self.min_requests,
                    };
                    true
                } else {
                    false
                }
            },
            State::HalfOpen => false,
        }
    }

    /// Same as `try_admit`.
    pub fn allows(&mut self, now: u64) -> (r: bool)
        ensures
            (final(self)@, r) == admitted(old(self)@, now),
    {
        self.try_admit(now)
    }
}

/// Half-open admits a single probe: once an admission has turned an open
/// breaker half-open, every further admission is refused until an outcome
/// is recorded, and that outcome closes (success) or re-opens (failure)
/// the breaker, releasing the probe.
pub proof fn law_half_open_single_probe(b: BreakerView, now1: u64, now2: u64, success: bool, now3: u64)
    requires
        b.state == State::Open,
        admitted(b, now1).1,
    ensures
        admitted(b, now1).0.state == State::HalfOpen,
        !admitted(admitted(b, now1).0, now2).1,
        admitted(admitted(b, now1).0, now2).0 == admitted(b, now1).0,
        !recorded(admitted(b, now1).0, success, now3).0.probe_in_flight,
        recorded(admitted(b, now1).0, success, now3).0.state == (if success {
            State::Closed
        } else {
            State::Open
        }),
{
}

/// Every operation keeps a probe claimed exactly while the breaker is
/// half-open, starting from a new breaker; so an open breaker never holds
/// a probe, and once its cool-off is over the next admission is granted
/// and claims it.
pub proof fn law_probe_claimed_only_while_half_open(
    b: BreakerView,
    window_secs: u64,
    min_requests: u32,
    success: bool,
    over: bool,
    now: u64,
)
    requires
        probe_consistent(b),
    ensures
        probe_consistent(
            BreakerView {
                state: State::Closed,
                opened_at: None,
                probe_in_flight: false,
                errors: 0,
                total: 0,
                started: now,
                window: if window_secs * 1000 > u64::MAX { u64::MAX } else { (window_secs * 1000) as u64 },
                min_requests,
            },
        ),
        probe_consistent(tripped(b, now)),
        probe_consistent(closed(b, now)),
        probe_consistent(recorded(b, success, now).0),
        probe_consistent(if over { tripped(b, now) } else { b }),
        probe_consistent(admitted(b, now).0),
        b.state == State::Open ==> !b.probe_in_flight,
        b.state == State::Open && cooled(b, now) ==> admitted(b, now).1 && admitted(b, now).0.state
            == State::HalfOpen,
{
}

/// Routability is what admission grants: a backend is routable exactly when
/// an admission would be granted at the same time.
pub proof fn law_routable_iff_admitted(b: BreakerView, now: u64)
    ensures
        routable(b, now) == admitted(b, now).1,
{
}

} // verus!
