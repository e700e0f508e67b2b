//! The integer side of a run's configuration: the batch settings that a
//! training run refuses before it starts, and the effective batch size.
//! The floating-point settings (learning rate, clip norm, split fractions)
//! are checked by the host.

use vstd::prelude::*;

verus! {

/// What the batch settings are refused with, checked in order.
pub open spec fn batch_settings_refusal(batch_size: usize, gradient_accumulation_steps: usize) -> Option<Seq<char>> {
    if batch_size == 0 {
        Some("batch_size must be positive"@)
    } else if gradient_accumulation_steps == 0 {
        Some("gradient_accumulation_steps must be positive"@)
    } else {
        None
    }
}

/// Refuses a batch size of zero, then zero accumulation steps.
pub fn check_batch_settings(batch_size: usize, gradient_accumulation_steps: usize) -> (r: Result<(), &'static str>)
    ensures
        r is Ok <==> batch_settings_refusal(batch_size, gradient_accumulation_steps) is None,
        r matches Err(m) ==> Some(m@) == batch_settings_refusal(batch_size, gradient_accumulation_steps),
{
    if batch_size == 0 {
        return Err("batch_size must be positive");
    }
    if gradient_accumulation_steps == 0 {
        return Err("gradient_accumulation_steps must be positive");
    }
    Ok(())
}

/// The examples one optimizer step sees: the batch size times the
/// accumulation steps, refused where the product leaves `usize`.
pub fn effective_batch_size(batch_size: usize, gradient_accumulation_steps: usize) -> (r: Result<usize, &'static str>)
    ensures
        r is Ok <==> batch_size * gradient_accumulation_steps <= usize::MAX,
        r matches Ok(n) ==> n == batch_size * gradient_accumulation_steps,
        r matches Err(m) ==> m@ == "effective batch size overflow"@,
{
    match batch_size.checked_mul(gradient_accumulation_steps) {
        Some(n) => Ok(n),
        None => Err("effective batch size overflow"),
    }
}

} // verus!
