const SEED: u64 = 0xA11CE_0107;
const TRIALS: usize = 64;

struct Lcg {
    state: u64,
}

impl Lcg {
    fn new(seed: u64) -> Self {
        Self { state: seed | 1 }
    }

    fn next_u32(&mut self) -> u32 {
        self.state = self.state.wrapping_mul(6364136223846793005).wrapping_add(1);
        (self.state >> 32) as u32
    }

    fn below(&mut self, n: usize) -> usize {
        assert!(n > 0);
        (self.next_u32() as usize) % n
    }

    fn inclusive(&mut self, lo: usize, hi: usize) -> usize {
        lo + self.below(hi - lo + 1)
    }
}

fn causal_mask(t: usize) -> Vec<bool> {
    let mut mask = vec![false; t * t];
    for i in 0..t {
        for j in 0..=i {
            mask[i * t + j] = true;
        }
    }
    mask
}

fn mask_is_causal(t: usize, mask: &[bool]) -> bool {
    if mask.len() != t * t {
        return false;
    }
    for i in 0..t {
        for j in 0..t {
            let allowed = mask[i * t + j];
            if j <= i && !allowed {
                return false;
            }
            if j > i && allowed {
                return false;
            }
        }
    }
    true
}

fn corrupt_mask(mask: &mut [bool], t: usize, rng: &mut Lcg) {
    if t < 2 {
        return;
    }
    let i = rng.below(t - 1);
    let j = rng.inclusive(i + 1, t - 1);
    mask[i * t + j] = true;
}

#[test]
fn causal_masks_are_lower_triangular_and_corruption_is_detected() {
    let mut rng = Lcg::new(SEED ^ 0x22);
    for _ in 0..TRIALS {
        let t = rng.inclusive(1, 8);
        let mask = causal_mask(t);
        assert!(mask_is_causal(t, &mask), "valid causal mask rejected t={t}");
        if t >= 2 {
            let mut bad = mask;
            corrupt_mask(&mut bad, t, &mut rng);
            assert!(!mask_is_causal(t, &bad), "future-unmasked row accepted t={t}");
        }
    }
}
