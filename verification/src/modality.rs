//! The common token sequence that every modality encoder produces: one
//! token per position, with an attention mask and a position index.

use vstd::prelude::*;

verus! {

#[derive(Clone, Copy, Debug, PartialEq, Eq, Structural)]
pub enum ModalityId {
    Text,
    Image,
    Video,
}

#[derive(Clone, Copy, Debug, PartialEq, Eq, Structural)]
pub enum ModalityError {
    /// Tokens, mask and positions differ in length.
    Misaligned,
}

#[derive(Clone, Debug, PartialEq, Eq)]
pub struct CommonSequence {
    pub modality: ModalityId,
    pub tokens: Vec<u32>,
    pub mask: Vec<bool>,
    pub positions: Vec<u32>,
}

impl CommonSequence {
    pub open spec fn aligned(&self) -> bool {
        self.tokens@.len() == self.mask@.len() && self.tokens@.len() == self.positions@.len()
    }

    /// A sequence is valid when its three columns have one entry per token.
    pub fn validate(&self) -> (r: Result<(), ModalityError>)
        ensures
            r is Ok <==> self.aligned(),
            r is Err ==> r == Err::<(), ModalityError>(ModalityError::Misaligned),
    {
        if self.tokens.len() == self.mask.len() && self.tokens.len() == self.positions.len() {
            Ok(())
        } else {
            Err(ModalityError::Misaligned)
        }
    }
}

/// A sequence of `tokens` of one modality, every token attended, at
/// positions `0, 1, 2, ...`.
pub open spec fn plain_sequence(s: CommonSequence, modality: ModalityId, tokens: Seq<u32>) -> bool {
    &&& s.modality == modality
    &&& s.tokens@ == tokens
    &&& s.mask@ == Seq::new(tokens.len(), |i: int| true)
    &&& s.positions@ == Seq::new(tokens.len(), |i: int| i as u32)
}

/// Builds a plain sequence from its tokens.
pub fn plain(modality: ModalityId, tokens: Vec<u32>) -> (r: CommonSequence)
    requires
        tokens@.len() <= u32::MAX,
    ensures
        plain_sequence(r, modality, tokens@),
{
    let n = tokens.len();
    let mut mask: Vec<bool> = Vec::new();
    let mut positions: Vec<u32> = Vec::new();
    let mut i: usize = 0;
    while i < n
        invariant
            n <= u32::MAX,
            i <= n,
            mask@ == Seq::new(i as nat, |j: int| true),
            positions@ == Seq::new(i as nat, |j: int| j as u32),
        decreases n - i,
    {
        mask.push(true);
        positions.push(i as u32);
        i = i + 1;
        assert(mask@ =~= Seq::new(i as nat, |j: int| true));
        assert(positions@ =~= Seq::new(i as nat, |j: int| j as u32));
    }
    CommonSequence { modality, tokens, mask, positions }
}

pub trait ModalityEncoder {
    fn encode(&self, input: &[u32]) -> Result<CommonSequence, ModalityError>;
}

/// Text is already tokens: the encoder passes them through.
#[derive(Clone, Copy, Debug, Default, PartialEq, Eq)]
pub struct TextModalityEncoder;

impl ModalityEncoder for TextModalityEncoder {
    /// The text's tokens, every one attended, at positions `0, 1, 2, ...`.
    fn encode(&self, input: &[u32]) -> (r: Result<CommonSequence, ModalityError>)
        ensures
            input@.len() <= u32::MAX ==> (r matches Ok(s) && plain_sequence(s, ModalityId::Text, input@)),
            input@.len() > u32::MAX ==> r == Err::<CommonSequence, ModalityError>(ModalityError::Misaligned),
    {
        let mut tokens: Vec<u32> = Vec::new();
        let mut i: usize = 0;
        while i < input.len()
            invariant
                i <= input@.len(),
                tokens@ == input@.subrange(0, i as int),
            decreases input.len() - i,
        {
            tokens.push(input[i]);
            i = i + 1;
        }
        assert(tokens@ =~= input@);
        if tokens.len() > u32::MAX as usize {
            return Err(ModalityError::Misaligned);
        }
        Ok(plain(ModalityId::Text, tokens))
    }
}

} // verus!
