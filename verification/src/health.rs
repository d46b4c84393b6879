//! Backend health from active probes: consecutive failures mark a backend
//! unhealthy, consecutive successes mark it healthy again.

use vstd::prelude::*;
use crate::migrate::{Health, HealthConfig};

verus! {

/// A backend's health and its runs of probe outcomes.
#[derive(Debug, Clone, Copy)]
pub struct BackendHealth {
    pub health: Health,
    pub consecutive_failures: u32,
    pub consecutive_successes: u32,
}

/// `n + 1` on a 32-bit counter that wraps.
pub open spec fn wrap_inc(n: u32) -> u32 {
    if n == u32::MAX { 0 } else { (n + 1) as u32 }
}

/// The health after one probe outcome. A success clears the failure run
/// and extends the success run; once the run reaches the success threshold
/// the backend is healthy. A failure does the same the other way round.
pub open spec fn after_probe(h: BackendHealth, cfg: HealthConfig, success: bool) -> BackendHealth {
    if success {
        let n = wrap_inc(h.consecutive_successes);
        BackendHealth {
            health: if n >= cfg.success_threshold { Health::Healthy } else { h.health },
            consecutive_failures: 0,
            consecutive_successes: n,
        }
    } else {
        let n = wrap_inc(h.consecutive_failures);
        BackendHealth {
            health: if n >= cfg.failure_threshold { Health::Unhealthy } else { h.health },
            consecutive_failures: n,
            consecutive_successes: 0,
        }
    }
}

impl BackendHealth {
    /// A backend starts healthy, with no runs.
    pub fn new() -> (r: Self)
        ensures
            r.health == Health::Healthy,
            r.consecutive_failures == 0,
            r.consecutive_successes == 0,
    {
        BackendHealth { health: Health::Healthy, consecutive_failures: 0, consecutive_successes: 0 }
    }

    /// Whether the backend may receive traffic: anything but unhealthy.
    pub fn is_routable(&self) -> (r: bool)
        ensures
            r == (self.health != Health::Unhealthy),
    {
        self.health != Health::Unhealthy
    }
}

/// Updates a backend's health from a single probe outcome.
pub fn update_health(backend: &mut BackendHealth, cfg: &HealthConfig, success: bool)
    ensures
        *final(backend) == after_probe(*old(backend), *cfg, success),
{
    if success {
        backend.consecutive_failures = 0;
        let n = if backend.consecutive_successes == u32::MAX { 0 } else { backend.consecutive_successes + 1 };
        backend.consecutive_successes = n;
        if n >= cfg.success_threshold && backend.health != Health::Healthy {
            backend.health = Health::Healthy;
        }
    } else {
        backend.consecutive_successes = 0;
        let n = if backend.consecutive_failures == u32::MAX { 0 } else { backend.consecutive_failures + 1 };
        backend.consecutive_failures = n;
        if n >= cfg.failure_threshold && backend.health != Health::Unhealthy {
            backend.health = Health::Unhealthy;
        }
    }
}

/// The outcomes applied in order.
pub open spec fn after_probes(h: BackendHealth, cfg: HealthConfig, outcomes: Seq<bool>) -> BackendHealth
    decreases outcomes.len(),
{
    if outcomes.len() == 0 {
        h
    } else {
        after_probe(after_probes(h, cfg, outcomes.drop_last()), cfg, outcomes.last())
    }
}

/// Runs decide health: after `failure_threshold` failures in a row the
/// backend is unhealthy, and after `success_threshold` successes in a row it
/// is healthy, whatever came before (as long as the run counters do not
/// wrap).
pub proof fn law_runs_decide_health(h: BackendHealth, cfg: HealthConfig, success: bool, n: nat)
    requires
        1 <= n,
        h.consecutive_failures + n < u32::MAX,
        h.consecutive_successes + n < u32::MAX,
    ensures
        ({
            let run = Seq::new(n, |_i: int| success);
            let r = after_probes(h, cfg, run);
            &&& (success && n >= cfg.success_threshold ==> r.health == Health::Healthy)
            &&& (!success && n >= cfg.failure_threshold ==> r.health == Health::Unhealthy)
            &&& (success ==> r.consecutive_successes == h.consecutive_successes + n
                && r.consecutive_failures == 0)
            &&& (!success ==> r.consecutive_failures == h.consecutive_failures + n
                && r.consecutive_successes == 0)
        }),
    decreases n,
{
    let run = Seq::new(n, |_i: int| success);
    if n > 1 {
        law_runs_decide_health(h, cfg, success, (n - 1) as nat);
        let shorter = Seq::new((n - 1) as nat, |_i: int| success);
        assert(run.drop_last() =~= shorter);
        assert(run.last() == success);
        assert(after_probes(h, cfg, run) == after_probe(after_probes(h, cfg, shorter), cfg, success));
    } else {
        assert(run.drop_last() =~= Seq::<bool>::empty());
        assert(after_probes(h, cfg, Seq::<bool>::empty()) == h);
        assert(run.last() == success);
        assert(after_probes(h, cfg, run) == after_probe(h, cfg, success));
    }
}

} // verus!
