//! Recurrent-reasoning policy: a recurrent step re-applies the same
//! physical block stack. Parameters are shared across steps; more reasoning
//! steps cost compute and activation cache, not parameters.

use vstd::prelude::*;
use crate::text::{dec, push_str, push_u64, string_from};

verus! {

pub const RECURRENT_CONFIG_SCHEMA_VERSION: u32 = 1;
pub const MAX_RECURRENT_STEPS: usize = 8;

#[derive(Clone, Copy, Debug, PartialEq, Eq)]
pub struct RecurrentConfig {
    pub reasoning_steps: usize,
}

impl Default for RecurrentConfig {
    fn default() -> (r: RecurrentConfig)
        ensures
            r.reasoning_steps == 1,
    {
        RecurrentConfig { reasoning_steps: 1 }
    }
}

pub open spec fn steps_valid(steps: usize) -> bool {
    1 <= steps <= MAX_RECURRENT_STEPS
}

pub open spec fn steps_error(steps: usize) -> Seq<char> {
    "reasoning_steps must be in 1..=8, got "@ + dec(steps as nat)
}

impl RecurrentConfig {
    /// A configuration with `reasoning_steps` in `1..=8`.
    pub fn new(reasoning_steps: usize) -> (r: Result<RecurrentConfig, String>)
        ensures
            steps_valid(reasoning_steps) ==> r == Ok::<RecurrentConfig, String>(RecurrentConfig { reasoning_steps }),
            !steps_valid(reasoning_steps) ==> (r matches Err(m) && m@ == steps_error(reasoning_steps)),
    {
        let config = RecurrentConfig { reasoning_steps };
        config.validate()?;
        Ok(config)
    }

    pub fn validate(self) -> (r: Result<RecurrentConfig, String>)
        ensures
            steps_valid(self.reasoning_steps) ==> r == Ok::<RecurrentConfig, String>(self),
            !steps_valid(self.reasoning_steps) ==> (r matches Err(m) && m@ == steps_error(self.reasoning_steps)),
    {
        if self.reasoning_steps == 0 || self.reasoning_steps > MAX_RECURRENT_STEPS {
            let mut m = string_from("reasoning_steps must be in 1..=");
            push_u64(&mut m, MAX_RECURRENT_STEPS as u64);
            push_str(&mut m, ", got ");
            push_u64(&mut m, self.reasoning_steps as u64);
            proof {
                crate::text::lemma_dec_digits(8);
                reveal_strlit("reasoning_steps must be in 1..=");
                reveal_strlit(", got ");
                reveal_strlit("reasoning_steps must be in 1..=8, got ");
            }
            assert(m@ =~= steps_error(self.reasoning_steps));
            return Err(m);
        }
        Ok(self)
    }

    /// How many times a block is applied: steps times physical layers.
    /// The parameter count does not depend on the steps.
    pub fn block_applications(self, physical_layers: usize) -> (r: Result<usize, String>)
        ensures
            !steps_valid(self.reasoning_steps) ==> (r matches Err(m) && m@ == steps_error(self.reasoning_steps)),
            steps_valid(self.reasoning_steps) && physical_layers == 0 ==>
                (r matches Err(m) && m@ == "recurrent reasoning requires at least one physical layer"@),
            steps_valid(self.reasoning_steps) && physical_layers > 0 && self.reasoning_steps * physical_layers <= usize::MAX ==>
                r == Ok::<usize, String>((self.reasoning_steps * physical_layers) as usize),
            steps_valid(self.reasoning_steps) && physical_layers > 0 && self.reasoning_steps * physical_layers > usize::MAX ==>
                (r matches Err(m) && m@ == "recurrent block application count overflow"@),
            r matches Ok(n) ==> n == self.reasoning_steps * physical_layers,
    {
        self.validate()?;
        if physical_layers == 0 {
            return Err(string_from("recurrent reasoning requires at least one physical layer"));
        }
        match self.reasoning_steps.checked_mul(physical_layers) {
            Some(n) => Ok(n),
            None => Err(string_from("recurrent block application count overflow")),
        }
    }

    /// One summary line of the configuration.
    pub fn line(self, physical_layers: usize) -> (r: Result<String, String>)
        ensures
            r is Ok <==> steps_valid(self.reasoning_steps) && physical_layers > 0
                && self.reasoning_steps * physical_layers <= usize::MAX,
            r matches Ok(t) ==> t@ == "recurrent_config | schema="@ + dec(1) + " reasoning_steps="@
                + dec(self.reasoning_steps as nat) + " physical_layers="@ + dec(physical_layers as nat)
                + " block_applications="@ + dec((self.reasoning_steps * physical_layers) as nat),
    {
        let n = self.block_applications(physical_layers)?;
        let mut t = string_from("recurrent_config | schema=");
        push_u64(&mut t, RECURRENT_CONFIG_SCHEMA_VERSION as u64);
        push_str(&mut t, " reasoning_steps=");
        push_u64(&mut t, self.reasoning_steps as u64);
        push_str(&mut t, " physical_layers=");
        push_u64(&mut t, physical_layers as u64);
        push_str(&mut t, " block_applications=");
        push_u64(&mut t, n as u64);
        Ok(t)
    }
}

} // verus!
