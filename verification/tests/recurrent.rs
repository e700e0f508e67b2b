use auralis::recurrent::{RecurrentConfig, MAX_RECURRENT_STEPS};

#[test]
fn baseline_is_one_reasoning_step() {
    let cfg = RecurrentConfig::default();
    assert_eq!(cfg.reasoning_steps, 1);
    assert_eq!(cfg.block_applications(3).unwrap(), 3);
}

#[test]
fn recurrent_budget_is_bounded_and_parameter_independent() {
    assert!(RecurrentConfig::new(0).is_err());
    assert!(RecurrentConfig::new(MAX_RECURRENT_STEPS + 1).is_err());
    assert_eq!(RecurrentConfig::new(3).unwrap().block_applications(2).unwrap(), 6);
}

#[test]
fn recurrent_block_applications_overflow_is_an_error() {
    assert!(RecurrentConfig::new(2).unwrap().block_applications(usize::MAX).is_err());
}
