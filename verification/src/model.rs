//! Model configuration, normalization kinds and CPU backend identities.

use vstd::prelude::*;
use crate::text::{join2, same_text};

verus! {

#[derive(Clone, Copy, Debug, PartialEq, Eq)]
pub struct Config {
    pub vocab: usize,
    pub n_embd: usize,
    pub n_head: usize,
    pub n_layer: usize,
    pub block: usize,
    pub n_ff: usize,
}

/// What a model configuration must satisfy before weights are built.
pub open spec fn config_valid(c: Config) -> bool {
    &&& c.vocab > 1
    &&& c.n_embd > 0 && c.n_head > 0 && c.n_layer > 0
    &&& c.block > 0 && c.n_ff > 0
    &&& c.n_embd % c.n_head == 0
}

impl Config {
    /// The small reference configuration for a vocabulary.
    pub fn tiny(vocab: usize) -> (c: Config)
        ensures
            c == (Config { vocab, n_embd: 32, n_head: 4, n_layer: 2, block: 32, n_ff: 96 }),
            vocab > 1 ==> config_valid(c),
    {
        Config { vocab, n_embd: 32, n_head: 4, n_layer: 2, block: 32, n_ff: 96 }
    }

    /// Whether the configuration can build a model.
    pub fn is_valid(&self) -> (r: bool)
        ensures
            r == config_valid(*self),
    {
        self.vocab > 1 && self.n_embd > 0 && self.n_head > 0 && self.n_layer > 0 && self.block > 0 && self.n_ff > 0
            && self.n_embd % self.n_head == 0
    }
}

#[derive(Clone, Copy, Debug, PartialEq, Eq)]
pub enum NormalizationKind {
    LayerNorm,
    RmsNorm,
}

impl NormalizationKind {
    pub open spec fn spec_name(self) -> Seq<char> {
        match self {
            NormalizationKind::LayerNorm => "layernorm"@,
            NormalizationKind::RmsNorm => "rmsnorm"@,
        }
    }

    pub fn as_str(self) -> (r: &'static str)
        ensures
            r@ == self.spec_name(),
    {
        match self {
            NormalizationKind::LayerNorm => "layernorm",
            NormalizationKind::RmsNorm => "rmsnorm",
        }
    }

    /// The kind named `value` (its `FromStr`).
    pub fn parse(value: &str) -> (r: Result<NormalizationKind, String>)
        ensures
            r matches Ok(k) ==> k.spec_name() == value@,
            r is Err ==> value@ != "layernorm"@ && value@ != "rmsnorm"@
                && (r matches Err(m) && m@ == "unknown normalization kind "@ + value@),
    {
        if same_text(value, "layernorm") {
            Ok(NormalizationKind::LayerNorm)
        } else if same_text(value, "rmsnorm") {
            Ok(NormalizationKind::RmsNorm)
        } else {
            Err(join2("unknown normalization kind ", value))
        }
    }
}

/// Identity of a compute backend.
#[derive(Clone, Copy, Debug, PartialEq, Eq)]
pub enum BackendId {
    OptimizedCpu,
    ScalarCpu,
}

#[derive(Clone, Copy, Debug, PartialEq, Eq)]
pub enum CpuBackend {
    Optimized,
    Scalar,
}

impl CpuBackend {
    pub fn id(self) -> (r: BackendId)
        ensures
            self == CpuBackend::Optimized ==> r == BackendId::OptimizedCpu,
            self == CpuBackend::Scalar ==> r == BackendId::ScalarCpu,
    {
        match self {
            CpuBackend::Optimized => BackendId::OptimizedCpu,
            CpuBackend::Scalar => BackendId::ScalarCpu,
        }
    }
}

} // verus!
