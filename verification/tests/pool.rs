use prefix_proxy::errors::PipelineError;
use prefix_proxy::health::HealthMonitor;
use prefix_proxy::pool::BackendPool;

fn pool_abc() -> BackendPool {
    BackendPool::new(vec![
        "10.0.0.1:80".to_string(),
        "10.0.0.2:80".to_string(),
        "10.0.0.3:80".to_string(),
    ])
}

#[test]
fn test_round_robin_full_rotation() {
    let mut p = pool_abc();
    // Three always-available addresses: three calls return each exactly
    // once, in rotation order; the fourth wraps back to the first.
    assert_eq!(p.select(b"", 256).unwrap(), "10.0.0.1:80");
    assert_eq!(p.select(b"", 256).unwrap(), "10.0.0.2:80");
    assert_eq!(p.select(b"", 256).unwrap(), "10.0.0.3:80");
    assert_eq!(p.select(b"", 256).unwrap(), "10.0.0.1:80");
}

#[test]
fn test_round_robin_ignores_key() {
    let mut p = pool_abc();
    assert_eq!(p.select(b"alpha", 256).unwrap(), "10.0.0.1:80");
    assert_eq!(p.select(b"beta", 256).unwrap(), "10.0.0.2:80");
    assert_eq!(p.select(b"alpha", 256).unwrap(), "10.0.0.3:80");
}

#[test]
fn test_unavailable_address_is_skipped() {
    let mut p = pool_abc();
    p.mark_unavailable(1);
    assert_eq!(p.select(b"", 256).unwrap(), "10.0.0.1:80");
    assert_eq!(p.select(b"", 256).unwrap(), "10.0.0.3:80");
    assert_eq!(p.select(b"", 256).unwrap(), "10.0.0.1:80");
}

#[test]
fn test_recovered_address_is_selectable_again() {
    let mut p = pool_abc();
    p.mark_unavailable(0);
    p.mark_unavailable(1);
    p.mark_unavailable(2);
    assert_eq!(p.select(b"", 256), Err(PipelineError::NoHealthyBackend));
    p.mark_available(1);
    assert_eq!(p.select(b"", 256).unwrap(), "10.0.0.2:80");
}

#[test]
fn test_exhaustion_fails_whatever_the_budget() {
    let mut p = pool_abc();
    p.mark_unavailable(0);
    p.mark_unavailable(1);
    p.mark_unavailable(2);
    assert_eq!(p.select(b"", 1), Err(PipelineError::NoHealthyBackend));
    assert_eq!(p.select(b"", 256), Err(PipelineError::NoHealthyBackend));
    assert_eq!(p.select(b"", 1_000_000), Err(PipelineError::NoHealthyBackend));
}

#[test]
fn test_zero_budget_finds_nothing() {
    let mut p = pool_abc();
    assert_eq!(p.select(b"", 0), Err(PipelineError::NoHealthyBackend));
}

#[test]
fn test_empty_pool_has_no_backend() {
    let mut p = BackendPool::new(Vec::new());
    assert_eq!(p.select(b"", 256), Err(PipelineError::NoHealthyBackend));
}

#[test]
fn test_probe_round_sets_availability() {
    let mut p = pool_abc();
    let monitor = HealthMonitor::new(1000);
    monitor.apply_round(&mut p, &vec![false, false, true]);
    assert_eq!(p.select(b"", 256).unwrap(), "10.0.0.3:80");
    assert_eq!(p.select(b"", 256).unwrap(), "10.0.0.3:80");
    // The next round reports every address healthy again.
    monitor.apply_round(&mut p, &vec![true, true, true]);
    assert_eq!(p.select(b"", 256).unwrap(), "10.0.0.1:80");
}

#[test]
fn test_address_count() {
    assert_eq!(pool_abc().address_count(), 3);
    assert_eq!(BackendPool::new(Vec::new()).address_count(), 0);
}
