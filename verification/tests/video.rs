use auralis::modality::{ModalityEncoder, ModalityId, TextModalityEncoder};
use auralis::video::{Clip, VideoEncoder, VideoError, MAX_FRAMES};
use auralis::vision::{Image, VisionEncoder};

fn clip(n: usize) -> Clip {
    Clip { frames: (0..n).map(|i| Image::solid(2, 2, i as u8 + 1).unwrap()).collect() }
}

#[test]
fn sampling_and_order_are_deterministic() {
    let enc = VideoEncoder::new(2, 2).unwrap();
    let src = clip(4);
    let left = enc.encode(&src).unwrap();
    let right = enc.encode(&src).unwrap();
    assert_eq!(left, right);
    assert_eq!(left.modality, ModalityId::Video);
    assert_eq!(left.tokens.len(), 2);
    assert!(left.positions[0] < left.positions[1] || left.tokens.len() == 2);
}

#[test]
fn limits_and_disabled_do_not_change_text_or_vision() {
    assert_eq!(VideoEncoder::new(1, 2).unwrap().encode(&clip(0)).unwrap_err(), VideoError::Empty);
    let oversized = clip(MAX_FRAMES + 1);
    assert_eq!(VideoEncoder::new(1, 2).unwrap().encode(&oversized).unwrap_err(), VideoError::Oversized);
    let mut off = VideoEncoder::new(1, 2).unwrap();
    off.enabled = false;
    assert_eq!(off.encode(&clip(1)).unwrap_err(), VideoError::Disabled);
    assert_eq!(TextModalityEncoder.encode(&[3]).unwrap().tokens, vec![3]);
    assert_eq!(VisionEncoder::new(2).unwrap().encode(&Image::solid(2, 2, 8).unwrap()).unwrap().tokens.len(), 1);
}

#[test]
fn video_positions_are_offset_per_sampled_frame() {
    let enc = VideoEncoder::new(2, 2).unwrap();
    let seq = enc.encode(&clip(4)).unwrap();
    // frames 0 and 2 are sampled: tokens 1 and 3, positions 0 and 1 + 1000.
    assert_eq!(seq.tokens, vec![1, 3]);
    assert_eq!(seq.positions, vec![0, 1001]);
    assert_eq!(seq.mask, vec![true, true]);
    assert_eq!(VideoEncoder::new(0, 2), Err(VideoError::Empty));
}
