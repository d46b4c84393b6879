use thttpd::circuit::{Breaker, COOL_OFF};
use thttpd::health::BackendHealth;
use thttpd::migrate::{Health, RoutingConfig, RoutingMode, State};
use thttpd::router::{decide, decide_weighted_with, select_weighted, PoolBackend};

fn pool(weights: &[(&str, u32)]) -> Vec<PoolBackend> {
    weights
        .iter()
        .map(|(name, weight)| PoolBackend {
            name: name.to_string(),
            weight: *weight,
            health: BackendHealth::new(),
            breaker: Breaker::new(30, 20, 0),
        })
        .collect()
}

/// A pool whose breakers trip on a single failure.
fn sensitive_pool(weights: &[(&str, u32)]) -> Vec<PoolBackend> {
    let mut p = pool(weights);
    for b in p.iter_mut() {
        b.breaker = Breaker::new(30, 1, 0);
    }
    p
}

fn index(pool: &[PoolBackend], name: &str) -> usize {
    pool.iter().position(|b| b.name == name).unwrap()
}

/// Records a failure the way the proxy does, with threshold 0.5.
fn fail(pool: &mut [PoolBackend], name: &str, now: u64) {
    let i = index(pool, name);
    let b = &mut pool[i].breaker;
    b.record(false, now, |errors, total| errors as f64 / total as f64 > 0.5);
}

const T0: u64 = 1_000;
const COOLED: u64 = T0 + COOL_OFF + 10;

fn trip_and_cool(pool: &mut [PoolBackend], name: &str) {
    fail(pool, name, T0);
    let i = index(pool, name);
    assert_eq!(pool[i].breaker.state(), State::Open, "{name} should be tripped");
    assert!(pool[i].breaker.can_route(COOLED), "cooled + probe-free => candidate");
    assert!(!pool[i].breaker.probe_claimed());
}

fn active_active() -> RoutingConfig {
    RoutingConfig { mode: RoutingMode::ActiveActive, ..Default::default() }
}

fn shadow() -> RoutingConfig {
    RoutingConfig {
        mode: RoutingMode::Shadow,
        primary_backend: Some("a".into()),
        shadow_backend: Some("b".into()),
        exclude_paths: Vec::new(),
    }
}

#[test]
fn weighted_selection_respects_weights() {
    let mut pool = pool(&[("a", 90), ("b", 10)]);
    let routing = active_active();
    let mut a_hits = 0usize;
    let total = 20_000;
    for _ in 0..total {
        let d = decide(&mut pool, &routing, T0).unwrap();
        if pool[d.backend].name == "a" {
            a_hits += 1;
        }
    }
    let ratio = a_hits as f64 / total as f64;
    assert!((0.85..=0.95).contains(&ratio), "expected ~0.90, got {ratio}");
}

#[test]
fn unhealthy_backends_excluded() {
    let mut pool = pool(&[("a", 50), ("b", 50)]);
    pool[1].health.health = Health::Unhealthy;
    let routing = active_active();
    for _ in 0..1000 {
        let d = decide(&mut pool, &routing, T0).unwrap();
        assert_eq!(pool[d.backend].name, "a", "unhealthy backend must never be picked");
    }
}

#[test]
fn zero_weight_excluded() {
    let mut pool = pool(&[("a", 0), ("b", 1)]);
    let routing = active_active();
    for _ in 0..1000 {
        let d = decide(&mut pool, &routing, T0).unwrap();
        assert_eq!(pool[d.backend].name, "b");
    }
}

#[test]
fn no_routable_returns_none() {
    let mut pool = pool(&[("a", 1)]);
    pool[0].health.health = Health::Unhealthy;
    assert!(decide(&mut pool, &active_active(), T0).is_none());
}

#[test]
fn shadow_mode_always_picks_primary() {
    let mut pool = pool(&[("a", 0), ("b", 100)]);
    let routing = shadow();
    for _ in 0..1000 {
        let d = decide(&mut pool, &routing, T0).unwrap();
        assert_eq!(pool[d.backend].name, "a", "shadow mode must serve the primary");
        assert_eq!(pool[d.shadow.unwrap()].name, "b");
    }
}

#[test]
fn shadow_mode_primary_obeys_breaker() {
    let mut pool = sensitive_pool(&[("a", 1), ("b", 1)]);
    fail(&mut pool, "a", T0);
    assert_eq!(pool[0].breaker.state(), State::Open);
    assert!(decide(&mut pool, &shadow(), T0).is_none(), "shadow primary must not bypass an open breaker");
}

#[test]
fn shadow_mode_primary_claims_half_open_probe() {
    let mut pool = sensitive_pool(&[("a", 1), ("b", 1)]);
    trip_and_cool(&mut pool, "a");
    let d = decide(&mut pool, &shadow(), COOLED).expect("cooled primary should get one probe");
    assert_eq!(pool[d.backend].name, "a");
    assert_eq!(pool[0].breaker.state(), State::HalfOpen);
    assert!(pool[0].breaker.probe_claimed());
    assert!(
        decide(&mut pool, &shadow(), COOLED).is_none(),
        "second shadow request must not steal the in-flight probe"
    );
}

#[test]
fn candidate_filtering_does_not_consume_nonselected_probe() {
    let mut pool = sensitive_pool(&[("a", 50), ("b", 50)]);
    trip_and_cool(&mut pool, "a");
    trip_and_cool(&mut pool, "b");
    let d = decide(&mut pool, &active_active(), COOLED).expect("at least one candidate");
    let other = 1 - d.backend;
    assert_eq!(pool[d.backend].breaker.state(), State::HalfOpen, "selected backend admitted");
    assert!(pool[d.backend].breaker.probe_claimed(), "selected backend claimed the probe");
    assert_eq!(pool[other].breaker.state(), State::Open, "non-selected must NOT be promoted to HalfOpen");
    assert!(!pool[other].breaker.probe_claimed(), "non-selected probe must NOT be claimed");
    assert!(pool[other].breaker.can_route(COOLED));
}

#[test]
fn selected_cooled_backend_admits_and_resolves() {
    let mut pool = sensitive_pool(&[("a", 1), ("b", 1)]);
    trip_and_cool(&mut pool, "a");
    trip_and_cool(&mut pool, "b");
    let d = decide(&mut pool, &active_active(), COOLED).expect("candidate");
    let sel = &mut pool[d.backend].breaker;
    assert_eq!(sel.state(), State::HalfOpen);
    assert!(sel.probe_claimed());
    assert!(!sel.try_admit(COOLED), "HalfOpen admits only one probe");
    sel.record(true, COOLED, |errors, total| errors as f64 / total as f64 > 0.5);
    assert_eq!(sel.state(), State::Closed);
    assert!(!sel.probe_claimed());
}

#[test]
fn decide_returns_none_when_all_candidates_open_uncooled() {
    let mut pool = sensitive_pool(&[("a", 1), ("b", 1)]);
    for name in ["a", "b"] {
        fail(&mut pool, name, T0);
        assert_eq!(pool[index(&pool, name)].breaker.state(), State::Open, "{name} tripped");
    }
    assert!(decide(&mut pool, &active_active(), T0).is_none());
}

#[test]
fn weighted_index_is_exact() {
    let w = [3u32, 0, 5, 2];
    assert_eq!(select_weighted(&w, 0), 0);
    assert_eq!(select_weighted(&w, 2), 0);
    assert_eq!(select_weighted(&w, 3), 2);
    assert_eq!(select_weighted(&w, 7), 2);
    assert_eq!(select_weighted(&w, 8), 3);
    assert_eq!(select_weighted(&w, 9), 3);
    assert_eq!(select_weighted(&w, 50), 3);
}

#[test]
fn shadow_mirror_skips_open_breaker_missing_backend_and_primary_itself() {
    // An open shadow breaker: the primary serves, nothing is mirrored.
    let mut p = sensitive_pool(&[("a", 1), ("b", 1)]);
    fail(&mut p, "b", T0);
    let d = decide(&mut p, &shadow(), T0).expect("primary still serves");
    assert_eq!(p[d.backend].name, "a");
    assert!(d.shadow.is_none());
    // A shadow backend that is not in the pool.
    let mut q = pool(&[("a", 1)]);
    let d = decide(&mut q, &shadow(), T0).expect("primary serves");
    assert!(d.shadow.is_none());
    // A shadow backend named like the primary.
    let mut r = pool(&[("a", 1), ("b", 1)]);
    let same = RoutingConfig { shadow_backend: Some("a".into()), ..shadow() };
    let d = decide(&mut r, &same, T0).expect("primary serves");
    assert!(d.shadow.is_none());
    // A cooled shadow breaker gives its probe to the mirror.
    let mut s = sensitive_pool(&[("a", 1), ("b", 1)]);
    trip_and_cool(&mut s, "b");
    let d = decide(&mut s, &shadow(), COOLED).expect("primary serves");
    assert_eq!(d.shadow, Some(1));
    assert!(s[1].breaker.probe_claimed());
}

#[test]
fn weighted_choice_follows_the_draw() {
    // Candidates a (30), c (70); b has no weight.
    let mut p = pool(&[("a", 30), ("b", 0), ("c", 70)]);
    assert_eq!(decide_weighted_with(&mut p, 0, 0).unwrap().backend, 0);
    assert_eq!(decide_weighted_with(&mut p, 0, 29).unwrap().backend, 0);
    assert_eq!(decide_weighted_with(&mut p, 0, 30).unwrap().backend, 2);
    assert_eq!(decide_weighted_with(&mut p, 0, 99).unwrap().backend, 2);
    let mut none = pool(&[("a", 0)]);
    assert!(decide_weighted_with(&mut none, 0, 0).is_none());
}
