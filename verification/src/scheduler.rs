//! Learning-rate scheduler kinds and the scheduler file that sits beside a
//! checkpoint.

use vstd::prelude::*;
use crate::text::{join2, same_text};

verus! {

pub const SCHEDULER_CONFIG_SCHEMA_VERSION: u32 = 1;


#[derive(Clone, Copy, Debug, PartialEq, Eq)]
pub enum SchedulerKind {
    Constant,
    LinearWarmup,
    Cosine,
}

impl SchedulerKind {
    pub open spec fn spec_name(self) -> Seq<char> {
        match self {
            SchedulerKind::Constant => "constant"@,
            SchedulerKind::LinearWarmup => "linear_warmup"@,
            SchedulerKind::Cosine => "cosine"@,
        }
    }

    pub fn as_str(self) -> (r: &'static str)
        ensures
            r@ == self.spec_name(),
    {
        match self {
            SchedulerKind::Constant => "constant",
            SchedulerKind::LinearWarmup => "linear_warmup",
            SchedulerKind::Cosine => "cosine",
        }
    }

    /// The scheduler kind named `value` (its `FromStr`).
    pub fn parse(value: &str) -> (r: Result<SchedulerKind, String>)
        ensures
            r matches Ok(k) ==> k.spec_name() == value@,
            r is Err ==> value@ != "constant"@ && value@ != "linear_warmup"@ && value@ != "cosine"@
                && (r matches Err(m) && m@ == "unknown scheduler kind "@ + value@),
    {
        if same_text(value, "constant") {
            Ok(SchedulerKind::Constant)
        } else if same_text(value, "linear_warmup") {
            Ok(SchedulerKind::LinearWarmup)
        } else if same_text(value, "cosine") {
            Ok(SchedulerKind::Cosine)
        } else {
            Err(join2("unknown scheduler kind ", value))
        }
    }
}

/// The scheduler file of a checkpoint: the checkpoint path with
/// `.scheduler` appended to its last component.
pub fn scheduler_path(checkpoint: &str) -> (r: String)
    ensures
        r@ == checkpoint@ + ".scheduler"@,
{
    join2(checkpoint, ".scheduler")
}

} // verus!
