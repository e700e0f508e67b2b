use auralis::model::{Config, NormalizationKind};
use auralis::optim::{OptimizerId, OptimizerStateIdentity};
use auralis::position::{Alibi, PositionError, PositionKind, Rotary};
use auralis::scheduler::{scheduler_path, SchedulerKind};

#[test]
fn scheduler_kinds_roundtrip_by_name() {
    for kind in [SchedulerKind::Constant, SchedulerKind::LinearWarmup, SchedulerKind::Cosine] {
        assert_eq!(SchedulerKind::parse(kind.as_str()).unwrap(), kind);
    }
    assert_eq!(SchedulerKind::parse("step").unwrap_err(), "unknown scheduler kind step");
    assert_eq!(scheduler_path("runs/model.ckpt"), "runs/model.ckpt.scheduler");
}

#[test]
fn optimizer_ids_and_state_line() {
    for id in [OptimizerId::Adam, OptimizerId::AdamW, OptimizerId::Lion] {
        assert_eq!(OptimizerId::parse(id.as_str()).unwrap(), id);
    }
    assert_eq!(OptimizerId::parse("sgd").unwrap_err(), "unknown optimizer id sgd");
    let identity = OptimizerStateIdentity {
        state_schema: 1,
        optimizer: OptimizerId::AdamW,
        config_fingerprint: 0xabc,
        global_step: 12,
        parameter_count: 3,
        state_fingerprint: u64::MAX,
    };
    assert_eq!(
        identity.line(),
        "optimizer_state | schema=1 kind=adamw config_fingerprint=0000000000000abc global_step=12 parameter_count=3 state_fingerprint=ffffffffffffffff"
    );
}

#[test]
fn position_kinds_and_shape_rules() {
    for kind in [PositionKind::LearnedAbsolute, PositionKind::Rope, PositionKind::Alibi] {
        assert_eq!(PositionKind::parse(kind.as_str()).unwrap(), kind);
    }
    assert_eq!(Alibi::new(0, 8, 2).unwrap_err(), PositionError::ZeroShape);
    assert_eq!(Alibi::new(4, 6, 4).unwrap_err(), PositionError::HeadWidthMismatch { width: 6, heads: 4 });
    assert_eq!(Rotary::new(4, 6, 2).unwrap_err(), PositionError::HeadWidthMismatch { width: 6, heads: 2 });
    let rope = Rotary::new(4, 8, 2).unwrap();
    assert_eq!(rope.active_len(3), Ok(24));
    assert_eq!(rope.active_len(5), Err(PositionError::ContextExceeded { positions: 5, max_positions: 4 }));
    assert_eq!(rope.check_qk(24, 24, 3, 2), Ok(()));
    assert_eq!(rope.check_qk(24, 16, 3, 2), Err(PositionError::ActivationMismatch { expected: 24, actual: 16 }));
    assert_eq!(rope.check_qk(24, 24, 3, 4), Err(PositionError::HeadWidthMismatch { width: 8, heads: 4 }));
    let alibi = Alibi::new(4, 8, 2).unwrap();
    assert_eq!(alibi.check_forward(16, 2), Ok(()));
    assert_eq!(alibi.check_backward(16, 2, 31), Err(PositionError::GradientMismatch { expected: 32, actual: 31 }));
    assert_eq!(
        PositionError::ContextExceeded { positions: 5, max_positions: 4 }.message(),
        "context length 5 exceeds positional capacity 4"
    );
}

#[test]
fn model_config_and_normalization() {
    let c = Config::tiny(16);
    assert!(c.is_valid());
    assert!(!Config::tiny(1).is_valid());
    assert_eq!(NormalizationKind::parse(NormalizationKind::LayerNorm.as_str()).unwrap(), NormalizationKind::LayerNorm);
    assert!(NormalizationKind::parse("batchnorm").is_err());
}
