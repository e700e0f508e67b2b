use auralis::run_config::{check_batch_settings, effective_batch_size};

#[test]
fn default_batch_settings_are_accepted() {
    assert_eq!(check_batch_settings(4, 1), Ok(()));
    assert_eq!(effective_batch_size(4, 1), Ok(4));
}

#[test]
fn zero_batch_settings_fail_closed_in_order() {
    assert_eq!(check_batch_settings(0, 1), Err("batch_size must be positive"));
    assert_eq!(check_batch_settings(4, 0), Err("gradient_accumulation_steps must be positive"));
    assert_eq!(check_batch_settings(0, 0), Err("batch_size must be positive"));
}

#[test]
fn effective_batch_size_multiplies_and_refuses_overflow() {
    assert_eq!(effective_batch_size(4, 8), Ok(32));
    assert_eq!(effective_batch_size(usize::MAX, 1), Ok(usize::MAX));
    assert_eq!(effective_batch_size(usize::MAX, 2), Err("effective batch size overflow"));
}
