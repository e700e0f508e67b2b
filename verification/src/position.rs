//! Positional-encoding policies: their names, their shape rules and the
//! errors those rules report. The arithmetic on activations is done by the
//! caller once a shape has been accepted here.

use vstd::prelude::*;
use crate::text::{dec, join2, push_str, push_u64, same_text, string_from};

verus! {

#[derive(Clone, Copy, Debug, PartialEq, Eq, Hash)]
pub enum PositionKind {
    LearnedAbsolute,
    Rope,
    Alibi,
}

impl PositionKind {
    pub open spec fn spec_name(self) -> Seq<char> {
        match self {
            PositionKind::LearnedAbsolute => "learned_absolute"@,
            PositionKind::Rope => "rope"@,
            PositionKind::Alibi => "alibi"@,
        }
    }

    pub fn as_str(self) -> (r: &'static str)
        ensures
            r@ == self.spec_name(),
    {
        match self {
            PositionKind::LearnedAbsolute => "learned_absolute",
            PositionKind::Rope => "rope",
            PositionKind::Alibi => "alibi",
        }
    }

    /// The policy named `value` (its `FromStr`).
    pub fn parse(value: &str) -> (r: Result<PositionKind, String>)
        ensures
            r matches Ok(k) ==> k.spec_name() == value@,
            r is Err ==> value@ != "learned_absolute"@ && value@ != "rope"@ && value@ != "alibi"@
                && (r matches Err(m) && m@ == "unknown positional encoding "@ + value@),
    {
        if same_text(value, "learned_absolute") {
            Ok(PositionKind::LearnedAbsolute)
        } else if same_text(value, "rope") {
            Ok(PositionKind::Rope)
        } else if same_text(value, "alibi") {
            Ok(PositionKind::Alibi)
        } else {
            Err(join2("unknown positional encoding ", value))
        }
    }
}

#[derive(Clone, Copy, Debug, PartialEq, Eq)]
pub enum PositionError {
    ZeroShape,
    StorageMismatch { expected: usize, actual: usize },
    ContextExceeded { positions: usize, max_positions: usize },
    ActivationMismatch { expected: usize, actual: usize },
    GradientMismatch { expected: usize, actual: usize },
    HeadWidthMismatch { width: usize, heads: usize },
}

pub open spec fn pair_text(prefix: Seq<char>, a: usize, middle: Seq<char>, b: usize) -> Seq<char> {
    prefix + dec(a as nat) + middle + dec(b as nat)
}

impl PositionError {
    pub open spec fn spec_message(self) -> Seq<char> {
        match self {
            PositionError::ZeroShape => "positional encoding requires positive block and width"@,
            PositionError::StorageMismatch { expected, actual } =>
                pair_text("positional parameter storage mismatch: expected "@, expected, ", got "@, actual),
            PositionError::ContextExceeded { positions, max_positions } =>
                pair_text("context length "@, positions, " exceeds positional capacity "@, max_positions),
            PositionError::ActivationMismatch { expected, actual } =>
                pair_text("positional activation size mismatch: expected "@, expected, ", got "@, actual),
            PositionError::GradientMismatch { expected, actual } =>
                pair_text("positional gradient size mismatch: expected "@, expected, ", got "@, actual),
            PositionError::HeadWidthMismatch { width, heads } =>
                pair_text("RoPE requires an even per-head width: width="@, width, " heads="@, heads),
        }
    }

    /// The error's text (its `Display`).
    pub fn message(&self) -> (r: String)
        ensures
            r@ == self.spec_message(),
    {
        match *self {
            PositionError::ZeroShape => string_from("positional encoding requires positive block and width"),
            PositionError::StorageMismatch { expected, actual } =>
                pair_message("positional parameter storage mismatch: expected ", expected, ", got ", actual),
            PositionError::ContextExceeded { positions, max_positions } =>
                pair_message("context length ", positions, " exceeds positional capacity ", max_positions),
            PositionError::ActivationMismatch { expected, actual } =>
                pair_message("positional activation size mismatch: expected ", expected, ", got ", actual),
            PositionError::GradientMismatch { expected, actual } =>
                pair_message("positional gradient size mismatch: expected ", expected, ", got ", actual),
            PositionError::HeadWidthMismatch { width, heads } =>
                pair_message("RoPE requires an even per-head width: width=", width, " heads=", heads),
        }
    }
}

fn pair_message(prefix: &str, a: usize, middle: &str, b: usize) -> (r: String)
    ensures
        r@ == pair_text(prefix@, a, middle@, b),
{
    let mut out = string_from(prefix);
    push_u64(&mut out, a as u64);
    push_str(&mut out, middle);
    push_u64(&mut out, b as u64);
    out
}

/// Length of the active activation window: `positions * width`, refused past
/// the block or where the product does not fit.
pub open spec fn spec_active_len(block: usize, width: usize, positions: usize) -> Result<usize, PositionError> {
    if positions > block {
        Err(PositionError::ContextExceeded { positions, max_positions: block })
    } else if positions * width > usize::MAX {
        Err(PositionError::ActivationMismatch { expected: usize::MAX, actual: 0 })
    } else {
        Ok((positions * width) as usize)
    }
}

fn active_len(block: usize, width: usize, positions: usize) -> (r: Result<usize, PositionError>)
    ensures
        r == spec_active_len(block, width, positions),
{
    if positions > block {
        return Err(PositionError::ContextExceeded { positions, max_positions: block });
    }
    match positions.checked_mul(width) {
        Some(n) => Ok(n),
        None => Err(PositionError::ActivationMismatch { expected: usize::MAX, actual: 0 }),
    }
}

/// Shape rule shared by every policy for a query/key pair.
pub open spec fn spec_validate_qk(q_len: usize, k_len: usize, positions: usize, width: usize, heads: usize) -> Result<(), PositionError> {
    if positions == 0 || width == 0 || heads == 0 {
        Err(PositionError::ZeroShape)
    } else if width % heads != 0 {
        Err(PositionError::HeadWidthMismatch { width, heads })
    } else if positions * width > usize::MAX {
        Err(PositionError::ActivationMismatch { expected: usize::MAX, actual: q_len })
    } else if q_len != positions * width {
        Err(PositionError::ActivationMismatch { expected: (positions * width) as usize, actual: q_len })
    } else if k_len != positions * width {
        Err(PositionError::ActivationMismatch { expected: (positions * width) as usize, actual: k_len })
    } else {
        Ok(())
    }
}

/// Checks the lengths of a query and a key buffer against a shape.
pub fn validate_qk(q_len: usize, k_len: usize, positions: usize, width: usize, heads: usize) -> (r: Result<(), PositionError>)
    ensures
        r == spec_validate_qk(q_len, k_len, positions, width, heads),
{
    if positions == 0 || width == 0 || heads == 0 {
        return Err(PositionError::ZeroShape);
    }
    if width % heads != 0 {
        return Err(PositionError::HeadWidthMismatch { width, heads });
    }
    let expected = match positions.checked_mul(width) {
        Some(n) => n,
        None => {
            return Err(PositionError::ActivationMismatch { expected: usize::MAX, actual: q_len });
        },
    };
    if q_len != expected {
        return Err(PositionError::ActivationMismatch { expected, actual: q_len });
    }
    if k_len != expected {
        return Err(PositionError::ActivationMismatch { expected, actual: k_len });
    }
    Ok(())
}

/// The lengths of an activation buffer: the active window must match.
pub open spec fn spec_check_forward(block: usize, width: usize, len: usize, positions: usize) -> Result<(), PositionError> {
    match spec_active_len(block, width, positions) {
        Err(e) => Err(e),
        Ok(expected) => if len != expected {
            Err(PositionError::ActivationMismatch { expected, actual: len })
        } else {
            Ok(())
        },
    }
}

fn check_forward(block: usize, width: usize, len: usize, positions: usize) -> (r: Result<(), PositionError>)
    ensures
        r == spec_check_forward(block, width, len, positions),
{
    let expected = match active_len(block, width, positions) {
        Ok(n) => n,
        Err(e) => {
            return Err(e);
        },
    };
    if len != expected {
        return Err(PositionError::ActivationMismatch { expected, actual: len });
    }
    Ok(())
}

/// The lengths of an accumulated gradient: the active window for the
/// activation gradient, the whole reserved block for the parameter gradient.
pub open spec fn spec_check_backward(block: usize, width: usize, grad_len: usize, positions: usize, param_len: usize) -> Result<(), PositionError> {
    match spec_active_len(block, width, positions) {
        Err(e) => Err(e),
        Ok(expected) => if grad_len != expected {
            Err(PositionError::GradientMismatch { expected, actual: grad_len })
        } else if block * width > usize::MAX {
            Err(PositionError::GradientMismatch { expected: usize::MAX, actual: param_len })
        } else if param_len != block * width {
            Err(PositionError::GradientMismatch { expected: (block * width) as usize, actual: param_len })
        } else {
            Ok(())
        },
    }
}

fn check_backward(block: usize, width: usize, grad_len: usize, positions: usize, param_len: usize) -> (r: Result<(), PositionError>)
    ensures
        r == spec_check_backward(block, width, grad_len, positions, param_len),
{
    let expected = match active_len(block, width, positions) {
        Ok(n) => n,
        Err(e) => {
            return Err(e);
        },
    };
    if grad_len != expected {
        return Err(PositionError::GradientMismatch { expected, actual: grad_len });
    }
    let reserved = match block.checked_mul(width) {
        Some(n) => n,
        None => {
            return Err(PositionError::GradientMismatch { expected: usize::MAX, actual: param_len });
        },
    };
    if param_len != reserved {
        return Err(PositionError::GradientMismatch { expected: reserved, actual: param_len });
    }
    Ok(())
}

/// Attention with linear biases: no parameters, one slope per head.
#[derive(Clone, Copy, Debug)]
pub struct Alibi {
    block: usize,
    width: usize,
    heads: usize,
}

impl Alibi {
    pub closed spec fn spec_block(self) -> usize {
        self.block
    }

    pub closed spec fn spec_width(self) -> usize {
        self.width
    }

    pub closed spec fn spec_heads(self) -> usize {
        self.heads
    }

    pub open spec fn valid_shape(block: usize, width: usize, heads: usize) -> bool {
        block > 0 && width > 0 && heads > 0 && width % heads == 0
    }

    pub fn new(block: usize, width: usize, heads: usize) -> (r: Result<Alibi, PositionError>)
        ensures
            (block == 0 || width == 0 || heads == 0) ==> r == Err::<Alibi, PositionError>(PositionError::ZeroShape),
            (block > 0 && width > 0 && heads > 0 && width % heads != 0)
                ==> r == Err::<Alibi, PositionError>(PositionError::HeadWidthMismatch { width, heads }),
            r is Ok <==> Alibi::valid_shape(block, width, heads),
            r matches Ok(a) ==> a.spec_block() == block && a.spec_width() == width && a.spec_heads() == heads,
    {
        if block == 0 || width == 0 || heads == 0 {
            return Err(PositionError::ZeroShape);
        }
        if width % heads != 0 {
            return Err(PositionError::HeadWidthMismatch { width, heads });
        }
        Ok(Alibi { block, width, heads })
    }

    pub fn kind(&self) -> (r: &'static str)
        ensures
            r@ == "alibi"@,
    {
        "alibi"
    }

    pub fn max_positions(&self) -> (r: usize)
        ensures
            r == self.spec_block(),
    {
        self.block
    }

    pub fn width(&self) -> (r: usize)
        ensures
            r == self.spec_width(),
    {
        self.width
    }

    pub fn heads(&self) -> (r: usize)
        ensures
            r == self.spec_heads(),
    {
        self.heads
    }

    /// `positions * width`, the length of the active activation window.
    pub fn active_len(&self, positions: usize) -> (r: Result<usize, PositionError>)
        ensures
            r == spec_active_len(self.spec_block(), self.spec_width(), positions),
    {
        active_len(self.block, self.width, positions)
    }

    /// Shape rule of the forward pass (ALiBi adds nothing to activations).
    pub fn check_forward(&self, len: usize, positions: usize) -> (r: Result<(), PositionError>)
        ensures
            r == spec_check_forward(self.spec_block(), self.spec_width(), len, positions),
    {
        check_forward(self.block, self.width, len, positions)
    }

    pub open spec fn spec_check_qk(self, q_len: usize, k_len: usize, positions: usize, heads: usize) -> Result<(), PositionError> {
        if heads != self.spec_heads() {
            Err(PositionError::HeadWidthMismatch { width: self.spec_width(), heads })
        } else {
            match spec_active_len(self.spec_block(), self.spec_width(), positions) {
                Err(e) => Err(e),
                Ok(_) => spec_validate_qk(q_len, k_len, positions, self.spec_width(), heads),
            }
        }
    }

    /// Shape rule of the query/key step, forward and backward alike.
    pub fn check_qk(&self, q_len: usize, k_len: usize, positions: usize, heads: usize) -> (r: Result<(), PositionError>)
        ensures
            r == self.spec_check_qk(q_len, k_len, positions, heads),
    {
        if heads != self.heads {
            return Err(PositionError::HeadWidthMismatch { width: self.width, heads });
        }
        match active_len(self.block, self.width, positions) {
            Err(e) => {
                return Err(e);
            },
            Ok(_) => {},
        }
        validate_qk(q_len, k_len, positions, self.width, heads)
    }

    /// Shape rule of the accumulated gradient (the reserved slots stay inert).
    pub fn check_backward(&self, grad_len: usize, positions: usize, param_len: usize) -> (r: Result<(), PositionError>)
        ensures
            r == spec_check_backward(self.spec_block(), self.spec_width(), grad_len, positions, param_len),
    {
        check_backward(self.block, self.width, grad_len, positions, param_len)
    }
}

/// Rotary position embedding: rotates each pair of a head's coordinates.
#[derive(Clone, Copy, Debug)]
pub struct Rotary {
    block: usize,
    width: usize,
    heads: usize,
}

impl Rotary {
    pub closed spec fn spec_block(self) -> usize {
        self.block
    }

    pub closed spec fn spec_width(self) -> usize {
        self.width
    }

    pub closed spec fn spec_heads(self) -> usize {
        self.heads
    }

    pub open spec fn valid_shape(block: usize, width: usize, heads: usize) -> bool {
        block > 0 && width > 0 && heads > 0 && width % heads == 0 && (width / heads) % 2 == 0
    }

    pub fn new(block: usize, width: usize, heads: usize) -> (r: Result<Rotary, PositionError>)
        ensures
            (block == 0 || width == 0 || heads == 0) ==> r == Err::<Rotary, PositionError>(PositionError::ZeroShape),
            (block > 0 && width > 0 && heads > 0 && (width % heads != 0 || (width / heads) % 2 != 0))
                ==> r == Err::<Rotary, PositionError>(PositionError::HeadWidthMismatch { width, heads }),
            r is Ok <==> Rotary::valid_shape(block, width, heads),
            r matches Ok(a) ==> a.spec_block() == block && a.spec_width() == width && a.spec_heads() == heads,
    {
        if block == 0 || width == 0 || heads == 0 {
            return Err(PositionError::ZeroShape);
        }
        if width % heads != 0 || (width / heads) % 2 != 0 {
            return Err(PositionError::HeadWidthMismatch { width, heads });
        }
        Ok(Rotary { block, width, heads })
    }

    pub fn kind(&self) -> (r: &'static str)
        ensures
            r@ == "rope"@,
    {
        "rope"
    }

    pub fn max_positions(&self) -> (r: usize)
        ensures
            r == self.spec_block(),
    {
        self.block
    }

    pub fn width(&self) -> (r: usize)
        ensures
            r == self.spec_width(),
    {
        self.width
    }

    pub fn heads(&self) -> (r: usize)
        ensures
            r == self.spec_heads(),
    {
        self.heads
    }

    /// `positions * width`, the length of the active activation window.
    pub fn active_len(&self, positions: usize) -> (r: Result<usize, PositionError>)
        ensures
            r == spec_active_len(self.spec_block(), self.spec_width(), positions),
    {
        active_len(self.block, self.width, positions)
    }

    /// Shape rule of the forward pass (rotation touches queries and keys only).
    pub fn check_forward(&self, len: usize, positions: usize) -> (r: Result<(), PositionError>)
        ensures
            r == spec_check_forward(self.spec_block(), self.spec_width(), len, positions),
    {
        check_forward(self.block, self.width, len, positions)
    }

    pub open spec fn spec_check_qk(self, q_len: usize, k_len: usize, positions: usize, heads: usize) -> Result<(), PositionError> {
        if heads != self.spec_heads() {
            Err(PositionError::HeadWidthMismatch { width: self.spec_width(), heads })
        } else {
            match spec_validate_qk(q_len, k_len, positions, self.spec_width(), heads) {
                Err(e) => Err(e),
                Ok(_) => match spec_active_len(self.spec_block(), self.spec_width(), positions) {
                    Err(e) => Err(e),
                    Ok(_) => Ok(()),
                },
            }
        }
    }

    /// Shape rule of a rotation of queries and keys, forward or inverse.
    pub fn check_qk(&self, q_len: usize, k_len: usize, positions: usize, heads: usize) -> (r: Result<(), PositionError>)
        ensures
            r == self.spec_check_qk(q_len, k_len, positions, heads),
    {
        if heads != self.heads {
            return Err(PositionError::HeadWidthMismatch { width: self.width, heads });
        }
        match validate_qk(q_len, k_len, positions, self.width, heads) {
            Err(e) => {
                return Err(e);
            },
            Ok(_) => {},
        }
        match active_len(self.block, self.width, positions) {
            Err(e) => Err(e),
            Ok(_) => Ok(()),
        }
    }

    /// Shape rule of the accumulated gradient (the reserved slots stay inert).
    pub fn check_backward(&self, grad_len: usize, positions: usize, param_len: usize) -> (r: Result<(), PositionError>)
        ensures
            r == spec_check_backward(self.spec_block(), self.spec_width(), grad_len, positions, param_len),
    {
        check_backward(self.block, self.width, grad_len, positions, param_len)
    }
}

} // verus!
