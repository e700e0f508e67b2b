use auralis::simd::{resolve_backend, ResolvedSimdBackend, SimdBackend, SimdCapabilities};

#[test]
fn auto_selects_avx2_only_for_repeatable_material_wins() {
    for avx2 in [true, false] {
        let caps = SimdCapabilities { avx2 };
        let selected = if avx2 { ResolvedSimdBackend::Avx2 } else { ResolvedSimdBackend::Portable };
        for shape in [(32, 32, 32), (32, 96, 32)] {
            assert_eq!(resolve_backend(SimdBackend::Auto, shape.0, shape.1, shape.2, caps).unwrap(), selected);
        }
        for shape in [(32, 32, 96), (32, 32, 100), (128, 128, 128), (7, 8, 3), (16, 24, 71)] {
            assert_eq!(
                resolve_backend(SimdBackend::Auto, shape.0, shape.1, shape.2, caps).unwrap(),
                ResolvedSimdBackend::Portable
            );
        }
    }
}

#[test]
fn simd_explicit_avx2_needs_the_capability() {
    let without = SimdCapabilities { avx2: false };
    let with = SimdCapabilities { avx2: true };
    assert_eq!(
        resolve_backend(SimdBackend::Avx2, 8, 8, 8, without),
        Err("AVX2 requested but not supported by this CPU")
    );
    assert_eq!(resolve_backend(SimdBackend::Avx2, 8, 8, 8, with), Ok(ResolvedSimdBackend::Avx2));
    assert_eq!(resolve_backend(SimdBackend::Portable, 32, 32, 32, with), Ok(ResolvedSimdBackend::Portable));
}
