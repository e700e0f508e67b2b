use auralis::modality::{ModalityEncoder, ModalityId, TextModalityEncoder};
use auralis::vision::{Image, VisionEncoder, VisionError};

#[test]
fn same_image_same_tokens() {
    let enc = VisionEncoder::new(2).unwrap();
    let image = Image::solid(4, 4, 10).unwrap();
    let left = enc.encode(&image).unwrap();
    let right = enc.encode(&image).unwrap();
    assert_eq!(left, right);
    assert_eq!(left.tokens.len(), 4);
    assert_eq!(left.modality, ModalityId::Image);
    assert_eq!(enc.backward(&left).unwrap(), left.tokens);
}

#[test]
fn invalid_resolution_and_corrupt_fail() {
    assert_eq!(Image::solid(0, 4, 1).unwrap_err(), VisionError::InvalidResolution);
    let enc = VisionEncoder::new(3).unwrap();
    let image = Image::solid(4, 4, 1).unwrap();
    assert_eq!(enc.encode(&image).unwrap_err(), VisionError::InvalidResolution);
    let bad = Image { width: 2, height: 2, pixels: vec![1] };
    assert_eq!(VisionEncoder::new(2).unwrap().encode(&bad).unwrap_err(), VisionError::Corrupt);
}

#[test]
fn disabled_vision_does_not_change_text() {
    let mut enc = VisionEncoder::new(2).unwrap();
    enc.enabled = false;
    assert_eq!(enc.encode(&Image::solid(2, 2, 1).unwrap()).unwrap_err(), VisionError::Disabled);
    let text = TextModalityEncoder.encode(&[1, 2, 3]).unwrap();
    assert_eq!(text.tokens, vec![1, 2, 3]);
}

#[test]
fn vision_tokens_are_patch_means_in_row_major_order() {
    // 4x2 image, 2x2 patches: left patch 1,2,5,6 -> 3; right patch 3,4,7,8 -> 5.
    let image = Image { width: 4, height: 2, pixels: vec![1, 2, 3, 4, 5, 6, 7, 8] };
    let seq = VisionEncoder::new(2).unwrap().encode(&image).unwrap();
    assert_eq!(seq.tokens, vec![3, 5]);
    assert_eq!(seq.mask, vec![true, true]);
    assert_eq!(seq.positions, vec![0, 1]);
    assert_eq!(VisionEncoder::new(0), Err(VisionError::InvalidResolution));
}
