//! Fail-closed arithmetic for untrusted sizes.

use vstd::prelude::*;
use crate::text::{dec, push_str, push_u64, string_from};

verus! {

/// `a + b`, or an error naming both operands where it overflows.
pub fn checked_add(a: usize, b: usize) -> (r: Result<usize, String>)
    ensures
        a + b <= usize::MAX ==> r == Ok::<usize, String>((a + b) as usize),
        a + b > usize::MAX ==> (r matches Err(m) && m@ == "overflow: "@ + dec(a as nat) + " + "@ + dec(b as nat)),
{
    match a.checked_add(b) {
        Some(v) => Ok(v),
        None => {
            let mut m = string_from("overflow: ");
            push_u64(&mut m, a as u64);
            push_str(&mut m, " + ");
            push_u64(&mut m, b as u64);
            Err(m)
        },
    }
}

/// `a * b`, or an error naming both operands where it overflows.
pub fn checked_mul(a: usize, b: usize) -> (r: Result<usize, String>)
    ensures
        a * b <= usize::MAX ==> r == Ok::<usize, String>((a * b) as usize),
        a * b > usize::MAX ==> (r matches Err(m) && m@ == "overflow: "@ + dec(a as nat) + " * "@ + dec(b as nat)),
{
    match a.checked_mul(b) {
        Some(v) => Ok(v),
        None => {
            let mut m = string_from("overflow: ");
            push_u64(&mut m, a as u64);
            push_str(&mut m, " * ");
            push_u64(&mut m, b as u64);
            Err(m)
        },
    }
}

/// Product of the first `n` dimensions.
pub open spec fn product(dims: Seq<usize>, n: nat) -> nat
    decreases n,
{
    if n == 0 || n > dims.len() {
        1
    } else {
        product(dims, (n - 1) as nat) * dims[n - 1] as nat
    }
}

/// Product of the dimensions up to and including index `k`.
pub open spec fn prefix_product(dims: Seq<usize>, k: int) -> nat {
    product(dims, (k + 1) as nat)
}

/// Index of the first dimension at which the running product overflows.
pub open spec fn first_overflow(dims: Seq<usize>, i: int) -> bool {
    &&& 0 <= i < dims.len()
    &&& prefix_product(dims, i) > usize::MAX
    &&& forall|k: int| 0 <= k < i ==> #[trigger] prefix_product(dims, k) <= usize::MAX
}

/// Product of dimensions; an empty list gives 0. An overflow names the
/// first dimension at which the running product leaves `usize`.
pub fn checked_product(dims: &[usize]) -> (r: Result<usize, String>)
    ensures
        dims@.len() == 0 ==> r == Ok::<usize, String>(0),
        dims@.len() > 0 && (forall|k: int| 0 <= k < dims@.len() ==> #[trigger] prefix_product(dims@, k) <= usize::MAX)
            ==> r == Ok::<usize, String>(product(dims@, dims@.len()) as usize),
        r is Err ==> exists|i: int| first_overflow(dims@, i) && (r matches Err(m) && m@ == "overflow at dim "@ + dec(i as nat)
            + ": product * "@ + dec(dims@[i] as nat)),
        (exists|i: int| 0 <= i < dims@.len() && #[trigger] prefix_product(dims@, i) > usize::MAX) ==> r is Err,
{
    if dims.len() == 0 {
        return Ok(0);
    }
    let mut acc: usize = 1;
    let mut i: usize = 0;
    while i < dims.len()
        invariant
            i <= dims.len(),
            acc == product(dims@, i as nat),
            forall|k: int| 0 <= k < i ==> #[trigger] prefix_product(dims@, k) <= usize::MAX,
        decreases dims.len() - i,
    {
        let d = dims[i];
        assert(prefix_product(dims@, i as int) == acc * d);
        match acc.checked_mul(d) {
            Some(v) => {
                acc = v;
            },
            None => {
                let mut m = string_from("overflow at dim ");
                push_u64(&mut m, i as u64);
                push_str(&mut m, ": product * ");
                push_u64(&mut m, d as u64);
                assert(first_overflow(dims@, i as int));
                return Err(m);
            },
        }
        i = i + 1;
    }
    Ok(acc)
}

} // verus!
