//! Choice of the matrix-multiply kernel. The portable kernel is always
//! available; AVX2 is chosen only where the machine has it and, under
//! `Auto`, only for shapes with a measured material win. Whether the machine
//! has AVX2 is found out by the caller and handed in as `SimdCapabilities`.

use vstd::prelude::*;

verus! {

#[derive(Clone, Copy, Debug, PartialEq, Eq)]
pub enum SimdBackend {
    Portable,
    Auto,
    Avx2,
}

#[derive(Clone, Copy, Debug, PartialEq, Eq, Structural)]
pub enum ResolvedSimdBackend {
    Portable,
    Avx2,
}

#[derive(Clone, Copy, Debug, PartialEq, Eq)]
pub struct SimdCapabilities {
    pub avx2: bool,
}

/// The shapes (rows, inner, cols) on which AVX2 showed a repeatable material
/// win; everything else stays portable under `Auto`.
pub open spec fn measured_material_win(rows: usize, inner: usize, cols: usize) -> bool {
    (rows == 32 && inner == 32 && cols == 32) || (rows == 32 && inner == 96 && cols == 32)
}

pub open spec fn spec_resolve(backend: SimdBackend, rows: usize, inner: usize, cols: usize, caps: SimdCapabilities)
    -> Result<ResolvedSimdBackend, Seq<char>>
{
    match backend {
        SimdBackend::Portable => Ok(ResolvedSimdBackend::Portable),
        SimdBackend::Auto => if caps.avx2 && measured_material_win(rows, inner, cols) {
            Ok(ResolvedSimdBackend::Avx2)
        } else {
            Ok(ResolvedSimdBackend::Portable)
        },
        SimdBackend::Avx2 => if caps.avx2 {
            Ok(ResolvedSimdBackend::Avx2)
        } else {
            Err("AVX2 requested but not supported by this CPU"@)
        },
    }
}

/// The kernel that runs a `rows x inner` by `inner x cols` product.
pub fn resolve_backend(backend: SimdBackend, rows: usize, inner: usize, cols: usize, caps: SimdCapabilities)
    -> (r: Result<ResolvedSimdBackend, &'static str>)
    ensures
        match (r, spec_resolve(backend, rows, inner, cols, caps)) {
            (Ok(a), Ok(b)) => a == b,
            (Err(a), Err(b)) => a@ == b,
            _ => false,
        },
{
    match backend {
        SimdBackend::Portable => Ok(ResolvedSimdBackend::Portable),
        SimdBackend::Auto => {
            let win = (rows == 32 && inner == 32 && cols == 32) || (rows == 32 && inner == 96 && cols == 32);
            if caps.avx2 && win {
                Ok(ResolvedSimdBackend::Avx2)
            } else {
                Ok(ResolvedSimdBackend::Portable)
            }
        },
        SimdBackend::Avx2 => {
            if caps.avx2 {
                Ok(ResolvedSimdBackend::Avx2)
            } else {
                Err("AVX2 requested but not supported by this CPU")
            }
        },
    }
}

/// `Portable` never needs the machine's help, and `Auto` never fails.
pub proof fn lemma_portable_and_auto_always_resolve(rows: usize, inner: usize, cols: usize, caps: SimdCapabilities)
    ensures
        spec_resolve(SimdBackend::Portable, rows, inner, cols, caps) == Ok::<ResolvedSimdBackend, Seq<char>>(ResolvedSimdBackend::Portable),
        spec_resolve(SimdBackend::Auto, rows, inner, cols, caps) is Ok,
        !caps.avx2 ==> spec_resolve(SimdBackend::Auto, rows, inner, cols, caps)
            == Ok::<ResolvedSimdBackend, Seq<char>>(ResolvedSimdBackend::Portable),
{
}

} // verus!
