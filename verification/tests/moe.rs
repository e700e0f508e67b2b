use auralis::moe::{DeterministicTopKRouter, MoeError, MoeRouterConfig, OverflowPolicy};

fn cfg(experts: usize, top_k: usize, capacity: usize, overflow_policy: OverflowPolicy) -> MoeRouterConfig {
    MoeRouterConfig { experts, top_k, capacity, overflow_policy }
}

#[test]
fn config_validation_is_fail_closed() {
    for bad in [
        cfg(0, 1, 1, OverflowPolicy::Reject),
        cfg(2, 0, 1, OverflowPolicy::Reject),
        cfg(2, 3, 1, OverflowPolicy::Reject),
        cfg(2, 1, 0, OverflowPolicy::Reject),
    ] {
        assert!(bad.validate().is_err());
    }
}

#[test]
fn moe_config_errors_name_the_broken_rule() {
    assert_eq!(cfg(0, 1, 1, OverflowPolicy::Reject).validate(), Err(MoeError::InvalidConfig("experts must be > 0")));
    assert_eq!(cfg(2, 3, 1, OverflowPolicy::Reject).validate(), Err(MoeError::InvalidConfig("top_k must be in 1..=experts")));
    assert_eq!(cfg(2, 1, 0, OverflowPolicy::Reject).validate(), Err(MoeError::InvalidConfig("capacity must be > 0")));
    let ok = cfg(4, 2, 1, OverflowPolicy::DenseFallback);
    assert_eq!(ok.validate(), Ok(ok));
    assert_eq!(OverflowPolicy::DenseFallback.as_str(), "dense-fallback");
    assert_eq!(
        MoeError::CapacityExceeded { token: 1, expert: 0, capacity: 1 }.message(),
        "expert capacity exceeded at token 1, expert 0, capacity 1"
    );
}

#[test]
fn moe_reject_reports_first_full_expert_of_first_overflowing_token() {
    let router = DeterministicTopKRouter;
    let selections = vec![vec![0, 1], vec![0, 1]];
    let err = router.assign_slots(&selections, cfg(4, 2, 1, OverflowPolicy::Reject)).unwrap_err();
    assert_eq!(err, MoeError::CapacityExceeded { token: 1, expert: 0, capacity: 1 });
}

#[test]
fn moe_dense_fallback_keeps_every_token_and_slots_are_contiguous() {
    let router = DeterministicTopKRouter;
    let selections = vec![vec![0, 1], vec![1, 2], vec![0, 1], vec![2, 3]];
    let plan = router.assign_slots(&selections, cfg(4, 2, 1, OverflowPolicy::DenseFallback)).unwrap();
    assert_eq!(plan.routes.len(), 4);
    assert!(!plan.routes[0].dense_fallback);
    assert_eq!(plan.routes[0].experts, vec![0, 1]);
    assert_eq!(plan.routes[0].slots, vec![0, 0]);
    assert!(plan.routes[1].dense_fallback);
    assert!(plan.routes[1].experts.is_empty());
    assert!(plan.routes[2].dense_fallback);
    assert_eq!(plan.routes[3].experts, vec![2, 3]);
    assert_eq!(plan.routes[3].slots, vec![0, 0]);
    assert_eq!(plan.expert_loads, vec![1, 1, 1, 1]);
}

#[test]
fn moe_slots_count_up_per_expert() {
    let router = DeterministicTopKRouter;
    let selections = vec![vec![2], vec![2], vec![0], vec![2]];
    let plan = router.assign_slots(&selections, cfg(3, 1, 4, OverflowPolicy::Reject)).unwrap();
    let slots: Vec<usize> = plan.routes.iter().map(|r| r.slots[0]).collect();
    assert_eq!(slots, vec![0, 1, 0, 2]);
    assert_eq!(plan.expert_loads, vec![1, 0, 3]);
}
