//! Optimizer identities and the summary line of an optimizer's state.

use vstd::prelude::*;
use crate::text::{dec, join2, push_char, push_str, push_u64, same_text, string_from};

verus! {

pub const OPTIMIZER_CONFIG_SCHEMA_VERSION: u32 = 1;
pub const OPTIMIZER_STATE_SCHEMA_VERSION: u32 = 1;
pub const ADAMW_STATE_SCHEMA_VERSION: u32 = 1;
pub const LION_STATE_SCHEMA_VERSION: u32 = 1;


#[derive(Clone, Copy, Debug, PartialEq, Eq)]
pub enum OptimizerId {
    Adam,
    AdamW,
    Lion,
}

impl OptimizerId {
    pub open spec fn spec_name(self) -> Seq<char> {
        match self {
            OptimizerId::Adam => "adam"@,
            OptimizerId::AdamW => "adamw"@,
            OptimizerId::Lion => "lion"@,
        }
    }

    pub fn as_str(self) -> (r: &'static str)
        ensures
            r@ == self.spec_name(),
    {
        match self {
            OptimizerId::Adam => "adam",
            OptimizerId::AdamW => "adamw",
            OptimizerId::Lion => "lion",
        }
    }

    /// The optimizer named `value` (its `FromStr`).
    pub fn parse(value: &str) -> (r: Result<OptimizerId, String>)
        ensures
            r matches Ok(k) ==> k.spec_name() == value@,
            r is Err ==> value@ != "adam"@ && value@ != "adamw"@ && value@ != "lion"@
                && (r matches Err(m) && m@ == "unknown optimizer id "@ + value@),
    {
        if same_text(value, "adam") {
            Ok(OptimizerId::Adam)
        } else if same_text(value, "adamw") {
            Ok(OptimizerId::AdamW)
        } else if same_text(value, "lion") {
            Ok(OptimizerId::Lion)
        } else {
            Err(join2("unknown optimizer id ", value))
        }
    }
}

/// Lower-case hexadecimal digit.
pub open spec fn hex_char(d: nat) -> char {
    if d < 10 { ((d + 48) as u8) as char } else { ((d - 10 + 97) as u8) as char }
}

/// The 16 lower-case hexadecimal digits of `n` (`{:016x}`).
pub open spec fn hex16(n: nat, k: nat) -> Seq<char>
    decreases k,
{
    if k == 0 {
        Seq::empty()
    } else {
        hex16(n / 16, (k - 1) as nat).push(hex_char(n % 16))
    }
}

pub(crate) fn push_hex16(out: &mut String, n: u64)
    ensures
        final(out)@ == old(out)@ + hex16(n as nat, 16),
{
    let ghost before = out@;
    let mut digits: Vec<char> = Vec::new();
    let mut v = n;
    let mut k: usize = 0;
    assert(pow16(0) == 1);
    assert((n as nat) / 1 == n as nat);
    while k < 16
        invariant
            k <= 16,
            digits@.len() == k,
            forall|i: int| 0 <= i < k ==> #[trigger] digits@[i] == hex_char(((n as nat) / pow16(i as nat)) % 16),
            v as nat == (n as nat) / pow16(k as nat),
        decreases 16 - k,
    {
        let d = v % 16;
        let c = if d < 10 { ((d + 48) as u8) as char } else { ((d - 10 + 97) as u8) as char };
        digits.push(c);
        proof { lemma_pow16_step(n as nat, k as nat); }
        v = v / 16;
        k = k + 1;
    }
    let mut i: usize = 16;
    while i > 0
        invariant
            i <= 16,
            digits@.len() == 16,
            forall|j: int| 0 <= j < 16 ==> #[trigger] digits@[j] == hex_char(((n as nat) / pow16(j as nat)) % 16),
            out@ == before + hex16((n as nat) / pow16(i as nat), (16 - i) as nat),
        decreases i,
    {
        push_char(out, digits[i - 1]);
        proof { lemma_hex16_step(n as nat, (i - 1) as nat); }
        i = i - 1;
    }
    assert(pow16(0) == 1);
}

pub open spec fn pow16(k: nat) -> nat
    decreases k,
{
    if k == 0 { 1 } else { 16 * pow16((k - 1) as nat) }
}

proof fn lemma_pow16_step(n: nat, k: nat)
    ensures
        n / pow16(k + 1) == (n / pow16(k)) / 16,
{
    assert(pow16(k + 1) == 16 * pow16(k));
    lemma_pow16_pos(k);
    vstd::arithmetic::div_mod::lemma_div_denominator(n as int, pow16(k) as int, 16);
    assert(pow16(k) * 16 == 16 * pow16(k)) by (nonlinear_arith);
}

proof fn lemma_pow16_pos(k: nat)
    ensures
        pow16(k) > 0,
    decreases k,
{
    if k > 0 {
        lemma_pow16_pos((k - 1) as nat);
    }
}

proof fn lemma_hex16_unfold(m: nat, k: nat)
    requires
        k > 0,
    ensures
        hex16(m, k) == hex16(m / 16, (k - 1) as nat).push(hex_char(m % 16)),
{
}

proof fn lemma_hex16_step(n: nat, i: nat)
    requires
        i < 16,
    ensures
        hex16(n / pow16(i), (16 - i) as nat)
            == hex16(n / pow16(i + 1), (16 - (i + 1)) as nat).push(hex_char((n / pow16(i)) % 16)),
{
    lemma_pow16_step(n, i);
    let m = n / pow16(i);
    let k = (16 - i) as nat;
    lemma_hex16_unfold(m, k);
    assert((k - 1) as nat == (16 - (i + 1)) as nat);
}

#[derive(Clone, Copy, Debug, PartialEq, Eq)]
pub struct OptimizerStateIdentity {
    pub state_schema: u32,
    pub optimizer: OptimizerId,
    pub config_fingerprint: u64,
    pub global_step: u64,
    pub parameter_count: usize,
    pub state_fingerprint: u64,
}

impl OptimizerStateIdentity {
    /// One summary line; fingerprints in 16 hexadecimal digits.
    pub fn line(self) -> (r: String)
        ensures
            r@ == "optimizer_state | schema="@ + dec(self.state_schema as nat) + " kind="@ + self.optimizer.spec_name()
                + " config_fingerprint="@ + hex16(self.config_fingerprint as nat, 16) + " global_step="@
                + dec(self.global_step as nat) + " parameter_count="@ + dec(self.parameter_count as nat)
                + " state_fingerprint="@ + hex16(self.state_fingerprint as nat, 16),
    {
        let mut out = string_from("optimizer_state | schema=");
        push_u64(&mut out, self.state_schema as u64);
        push_str(&mut out, " kind=");
        push_str(&mut out, self.optimizer.as_str());
        push_str(&mut out, " config_fingerprint=");
        push_hex16(&mut out, self.config_fingerprint);
        push_str(&mut out, " global_step=");
        push_u64(&mut out, self.global_step);
        push_str(&mut out, " parameter_count=");
        push_u64(&mut out, self.parameter_count as u64);
        push_str(&mut out, " state_fingerprint=");
        push_hex16(&mut out, self.state_fingerprint);
        out
    }
}

} // verus!
