//! Video as sampled vision frames: every `stride`-th frame is encoded by the
//! vision encoder and the frames' tokens are laid end to end, each frame's
//! positions offset by a thousand per frame.

use vstd::prelude::*;
use crate::modality::{CommonSequence, ModalityId};
use crate::vision::{image_tokens, Image, VisionEncoder, VisionError};

verus! {

pub const VIDEO_SCHEMA_VERSION: u32 = 1;
pub const MAX_FRAMES: usize = 8;

#[derive(Clone, Copy, Debug, PartialEq, Eq, Structural)]
pub enum VideoError {
    Empty,
    Oversized,
    Disabled,
    Vision(VisionError),
}

#[derive(Clone, Debug, PartialEq, Eq)]
pub struct Clip {
    pub frames: Vec<Image>,
}

#[derive(Clone, Debug, PartialEq, Eq)]
pub struct VideoEncoder {
    pub stride: usize,
    pub vision: VisionEncoder,
    pub enabled: bool,
}

/// How many frames `stride` sampling keeps out of `len` (the first, then
/// every `stride`-th).
pub open spec fn sample_count(len: nat, stride: nat) -> nat {
    if len == 0 { 0 } else { ((len - 1) as nat / stride + 1) as nat }
}

/// Sampled frame `t`: frame `t * stride` of the clip.
pub open spec fn sampled_frame(frames: Seq<Image>, stride: nat, t: nat) -> Image {
    frames[(t * stride) as int]
}

/// The tokens and positions after the first `t` sampled frames, or the
/// first frame's vision error.
pub open spec fn video_run(enc: VideoEncoder, frames: Seq<Image>, t: nat) -> Result<(Seq<u32>, Seq<u32>), VisionError>
    decreases t,
{
    if t == 0 {
        Ok((Seq::empty(), Seq::empty()))
    } else {
        match video_run(enc, frames, (t - 1) as nat) {
            Err(e) => Err(e),
            Ok((tokens, positions)) => {
                let frame = sampled_frame(frames, enc.stride as nat, (t - 1) as nat);
                match enc.vision.spec_check(&frame) {
                    Err(e) => Err(e),
                    Ok(_) => {
                        let ft = image_tokens(frame, enc.vision.patch as nat, (frame.height / enc.vision.patch) as nat);
                        Ok((tokens + ft, positions + Seq::new(ft.len(), |p: int| (tokens.len() + p + (t - 1) * 1000) as u32)))
                    },
                }
            },
        }
    }
}

impl VideoEncoder {
    pub fn new(stride: usize, patch: u32) -> (r: Result<VideoEncoder, VideoError>)
        ensures
            stride == 0 ==> r == Err::<VideoEncoder, VideoError>(VideoError::Empty),
            stride > 0 && patch == 0 ==> r == Err::<VideoEncoder, VideoError>(VideoError::Vision(VisionError::InvalidResolution)),
            r matches Ok(e) ==> stride > 0 && patch > 0 && e.stride == stride && e.vision.patch == patch
                && e.vision.enabled && e.enabled,
    {
        if stride == 0 {
            return Err(VideoError::Empty);
        }
        let vision = match VisionEncoder::new(patch) {
            Ok(v) => v,
            Err(e) => {
                return Err(VideoError::Vision(e));
            },
        };
        Ok(VideoEncoder { stride, vision, enabled: true })
    }

    /// What encoding needs to run without overflow: a positive stride,
    /// encodable sampled frames, and positions that fit in `u32`.
    pub open spec fn spec_encodable(&self, clip: &Clip) -> bool {
        let n = sample_count(clip.frames@.len(), self.stride as nat);
        &&& (self.enabled && clip.frames@.len() > 0) ==> self.stride > 0
        &&& forall|t: nat| t < n ==> self.vision.spec_encodable(&#[trigger] sampled_frame(clip.frames@, self.stride as nat, t))
        &&& forall|t: nat| t <= n ==> (#[trigger] video_run(*self, clip.frames@, t) matches Ok((tokens, _))
            ==> tokens.len() + 8000 <= u32::MAX)
    }

    /// The sampled frames' tokens, end to end, as one video sequence.
    pub fn encode(&self, clip: &Clip) -> (r: Result<CommonSequence, VideoError>)
        requires
            self.spec_encodable(clip),
        ensures
            !self.enabled ==> r == Err::<CommonSequence, VideoError>(VideoError::Disabled),
            self.enabled && clip.frames@.len() == 0 ==> r == Err::<CommonSequence, VideoError>(VideoError::Empty),
            self.enabled && clip.frames@.len() > 0 ==> ({
                let n = sample_count(clip.frames@.len(), self.stride as nat);
                if n > MAX_FRAMES {
                    r == Err::<CommonSequence, VideoError>(VideoError::Oversized)
                } else {
                    match video_run(*self, clip.frames@, n) {
                        Err(e) => r == Err::<CommonSequence, VideoError>(VideoError::Vision(e)),
                        Ok((tokens, positions)) => r matches Ok(s) && s.modality == ModalityId::Video
                            && s.tokens@ == tokens && s.positions@ == positions
                            && s.mask@ == Seq::new(tokens.len(), |i: int| true),
                    }
                }
            }),
    {
        if !self.enabled {
            return Err(VideoError::Disabled);
        }
        let len = clip.frames.len();
        if len == 0 {
            return Err(VideoError::Empty);
        }
        let stride = self.stride;
        let count = (len - 1) / stride + 1;
        if count > MAX_FRAMES {
            return Err(VideoError::Oversized);
        }
        let ghost frames = clip.frames@;
        let mut tokens: Vec<u32> = Vec::new();
        let mut mask: Vec<bool> = Vec::new();
        let mut positions: Vec<u32> = Vec::new();
        let mut t: usize = 0;
        while t < count
            invariant
                self.spec_encodable(clip),
                self.enabled,
                frames == clip.frames@,
                len == frames.len(),
                len > 0,
                stride == self.stride,
                stride > 0,
                count == sample_count(len as nat, stride as nat),
                count <= MAX_FRAMES,
                t <= count,
                video_run(*self, frames, t as nat) == Ok::<(Seq<u32>, Seq<u32>), VisionError>((tokens@, positions@)),
                mask@ == Seq::new(tokens@.len(), |i: int| true),
            decreases count - t,
        {
            proof {
                let lm: int = len - 1;
                let q: int = lm / (stride as int);
                assert(q * stride <= lm) by (nonlinear_arith)
                    requires q == lm / (stride as int), stride > 0, lm >= 0;
                assert(t <= q);
                assert(t * stride <= q * stride) by (nonlinear_arith)
                    requires t <= q, stride > 0;
                assert(self.vision.spec_encodable(&sampled_frame(frames, stride as nat, t as nat)));
            }
            let frame = &clip.frames[t * stride];
            let encoded = match self.vision.encode(frame) {
                Ok(s) => s,
                Err(e) => {
                    assert(video_run(*self, frames, (t + 1) as nat) == Err::<(Seq<u32>, Seq<u32>), VisionError>(e));
                    proof {
                        lemma_run_stays_failed(*self, frames, (t + 1) as nat, count as nat);
                    }
                    return Err(VideoError::Vision(e));
                },
            };
            proof {
                assert(video_run(*self, frames, (t + 1) as nat) matches Ok((tk, _)) && tk.len() + 8000 <= u32::MAX);
            }
            let start = tokens.len() as u32;
            let ghost old_positions = positions@;
            let ghost old_tokens = tokens@;
            let mut i: usize = 0;
            while i < encoded.tokens.len()
                invariant
                    encoded.tokens@.len() == encoded.positions@.len(),
                    encoded.positions@ == Seq::new(encoded.tokens@.len(), |p: int| p as u32),
                    old_tokens.len() + encoded.tokens@.len() + 8000 <= u32::MAX,
                    start == old_tokens.len(),
                    t < MAX_FRAMES,
                    i <= encoded.tokens@.len(),
                    tokens@ == old_tokens + encoded.tokens@.subrange(0, i as int),
                    positions@ == old_positions + Seq::new(i as nat, |p: int| (old_tokens.len() + p + t * 1000) as u32),
                    mask@ == Seq::new(tokens@.len(), |j: int| true),
                decreases encoded.tokens.len() - i,
            {
                tokens.push(encoded.tokens[i]);
                mask.push(true);
                let p = encoded.positions[i];
                positions.push(start + p + (t as u32) * 1000);
                i = i + 1;
                assert(positions@ =~= old_positions + Seq::new(i as nat, |q: int| (old_tokens.len() + q + t * 1000) as u32));
                assert(mask@ =~= Seq::new(tokens@.len(), |j: int| true));
            }
            assert(tokens@ =~= old_tokens + encoded.tokens@);
            t = t + 1;
        }
        Ok(CommonSequence { modality: ModalityId::Video, tokens, mask, positions })
    }
}

proof fn lemma_run_stays_failed(enc: VideoEncoder, frames: Seq<Image>, t: nat, n: nat)
    requires
        t <= n,
        video_run(enc, frames, t) is Err,
    ensures
        video_run(enc, frames, n) == video_run(enc, frames, t),
    decreases n - t,
{
    if t < n {
        lemma_run_stays_failed(enc, frames, t + 1, n);
    }
}

} // verus!
