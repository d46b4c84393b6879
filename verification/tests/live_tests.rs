use thttpd::circuit::Breaker;
use thttpd::health::BackendHealth;
use thttpd::live::{plan_rollback, plan_set_weights, rollback, rollback_routing, set_weights};
use thttpd::migrate::{BackendConfig, RoutingConfig, RoutingMode};
use thttpd::router::PoolBackend;

fn live_pool() -> Vec<PoolBackend> {
    pool()
        .into_iter()
        .map(|(name, weight)| PoolBackend { name, weight, health: BackendHealth::new(), breaker: Breaker::new(30, 20, 0) })
        .collect()
}

fn configured() -> Vec<(String, BackendConfig)> {
    vec![
        ("c".to_string(), BackendConfig { address: "127.0.0.1:8081".into(), weight: 95, health_path: "/".into() }),
        ("rust".to_string(), BackendConfig { address: "127.0.0.1:8082".into(), weight: 5, health_path: "/".into() }),
    ]
}

fn weights(p: &[PoolBackend]) -> Vec<u32> {
    p.iter().map(|b| b.weight).collect()
}

fn config_weights(c: &[(String, BackendConfig)]) -> Vec<u32> {
    c.iter().map(|b| b.1.weight).collect()
}

fn pool() -> Vec<(String, u32)> {
    vec![("c".to_string(), 95), ("rust".to_string(), 5)]
}

fn names() -> Vec<String> {
    vec!["c".to_string(), "rust".to_string()]
}

#[test]
fn weight_update_visible_to_router() {
    let mut p = live_pool();
    let mut c = configured();
    let w = vec![("rust".to_string(), 100u32), ("c".to_string(), 0u32)];
    set_weights(&mut p, &mut c, &w).unwrap();
    assert_eq!(weights(&p), vec![0, 100]);
    assert_eq!(config_weights(&c), vec![0, 100]);
    assert_eq!(plan_set_weights(&pool(), &w).unwrap(), vec![0, 100]);
}

#[test]
fn rollback_is_semantic_not_u32_max_weight() {
    let mut p = live_pool();
    let mut c = configured();
    let mut routing = RoutingConfig::default();
    rollback(&mut p, &mut c, &mut routing, "c").unwrap();
    assert_eq!(weights(&p), vec![100, 0]);
    rollback(&mut p, &mut c, &mut routing, "rust").unwrap();
    assert_eq!(weights(&p), vec![0, 100]);
    assert_eq!(config_weights(&c), vec![0, 100]);
    assert_eq!(plan_rollback(&names(), "c").unwrap(), vec![100, 0]);
}

#[test]
fn shadow_rollback_updates_live_primary_backend() {
    let mut p = live_pool();
    let mut c = configured();
    let mut routing = RoutingConfig {
        mode: RoutingMode::Shadow,
        primary_backend: Some("c".into()),
        shadow_backend: Some("rust".into()),
        exclude_paths: Vec::new(),
    };
    rollback(&mut p, &mut c, &mut routing, "rust").unwrap();
    assert_eq!(routing.primary_backend.as_deref(), Some("rust"));
    assert_eq!(routing.shadow_backend.as_deref(), Some("c"));
    assert_eq!(weights(&p), vec![0, 100]);
    assert_eq!(config_weights(&c), vec![0, 100]);
}

#[test]
fn rollback_unknown_target_errors() {
    let mut p = live_pool();
    let mut c = configured();
    let mut routing = RoutingConfig::default();
    let err = rollback(&mut p, &mut c, &mut routing, "nope").unwrap_err();
    assert_eq!(err, "unknown backend in rollback target: nope");
    assert_eq!(weights(&p), vec![95, 5]);
    assert_eq!(config_weights(&c), vec![95, 5]);
    assert_eq!(plan_rollback(&names(), "nope").unwrap_err(), "unknown backend in rollback target: nope");
}

#[test]
fn set_weight_rejects_all_zero() {
    let mut p = live_pool();
    let mut c = configured();
    let w = vec![("c".to_string(), 0u32), ("rust".to_string(), 0u32)];
    let err = set_weights(&mut p, &mut c, &w).unwrap_err();
    assert!(err.contains("total weight at 0"), "expected all-zero rejection, got: {err}");
    // Weights are unchanged.
    assert_eq!(weights(&p), vec![95, 5]);
    assert_eq!(config_weights(&c), vec![95, 5]);
}

#[test]
fn rollback_routing_alone_swaps_primary_and_mirror() {
    let mut routing = RoutingConfig {
        mode: RoutingMode::Shadow,
        primary_backend: Some("c".into()),
        shadow_backend: Some("rust".into()),
        exclude_paths: Vec::new(),
    };
    rollback_routing(&mut routing, &names(), "rust");
    assert_eq!(routing.primary_backend.as_deref(), Some("rust"));
    assert_eq!(routing.shadow_backend.as_deref(), Some("c"));
}

#[test]
fn set_weight_partial_update_uses_existing() {
    let w = vec![("c".to_string(), 0u32)];
    assert_eq!(plan_set_weights(&pool(), &w).unwrap(), vec![0, 5]);
}

#[test]
fn set_weight_names_unknown_backend() {
    let w = vec![("c".to_string(), 1u32), ("go".to_string(), 3u32)];
    assert_eq!(plan_set_weights(&pool(), &w).unwrap_err(), "unknown backend in set-weight: go");
}

#[test]
fn rollback_routing_fallbacks() {
    // No primary yet: the previous mirror stays unless it is the target.
    let mut routing = RoutingConfig {
        mode: RoutingMode::Shadow,
        primary_backend: None,
        shadow_backend: Some("rust".into()),
        exclude_paths: Vec::new(),
    };
    rollback_routing(&mut routing, &names(), "rust");
    assert_eq!(routing.primary_backend.as_deref(), Some("rust"));
    assert_eq!(routing.shadow_backend.as_deref(), Some("c"));
    // Already primary: nothing changes.
    rollback_routing(&mut routing, &names(), "rust");
    assert_eq!(routing.primary_backend.as_deref(), Some("rust"));
    assert_eq!(routing.shadow_backend.as_deref(), Some("c"));
    // Outside shadow mode, routing is left alone.
    let mut active = RoutingConfig::default();
    rollback_routing(&mut active, &names(), "c");
    assert_eq!(active.primary_backend, None);
}
