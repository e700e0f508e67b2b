//! Reference visual encoder: an image becomes one token per square patch,
//! the mean of the patch's pixels, in row-major order.

use vstd::prelude::*;
use crate::modality::{plain, plain_sequence, CommonSequence, ModalityId};

verus! {

pub const VISION_SCHEMA_VERSION: u32 = 1;

#[derive(Clone, Copy, Debug, PartialEq, Eq, Structural)]
pub enum VisionError {
    InvalidResolution,
    Corrupt,
    Disabled,
}

#[derive(Clone, Debug, PartialEq, Eq)]
pub struct Image {
    pub width: u32,
    pub height: u32,
    pub pixels: Vec<u8>,
}

impl Image {
    /// An image of one colour.
    pub fn solid(width: u32, height: u32, value: u8) -> (r: Result<Image, VisionError>)
        requires
            width > 0 && height > 0 ==> width * height <= u32::MAX,
        ensures
            (width == 0 || height == 0) <==> r == Err::<Image, VisionError>(VisionError::InvalidResolution),
            r matches Ok(img) ==> img.width == width && img.height == height
                && img.pixels@ == Seq::new((width * height) as nat, |i: int| value),
    {
        if width == 0 || height == 0 {
            return Err(VisionError::InvalidResolution);
        }
        let n = (width * height) as usize;
        let mut pixels: Vec<u8> = Vec::new();
        let mut i: usize = 0;
        while i < n
            invariant
                i <= n,
                pixels@ == Seq::new(i as nat, |j: int| value),
            decreases n - i,
        {
            pixels.push(value);
            i = i + 1;
            assert(pixels@ =~= Seq::new(i as nat, |j: int| value));
        }
        Ok(Image { width, height, pixels })
    }
}

#[derive(Clone, Debug, PartialEq, Eq)]
pub struct VisionEncoder {
    pub patch: u32,
    pub enabled: bool,
}

/// Sum of the `n` pixels of row `y` that start at column `x0`.
pub open spec fn strip_sum(pixels: Seq<u8>, width: nat, y: nat, x0: nat, n: nat) -> nat
    decreases n,
{
    if n == 0 {
        0
    } else {
        strip_sum(pixels, width, y, x0, (n - 1) as nat) + pixels[(y * width + x0 + n - 1) as int] as nat
    }
}

/// Sum of the `m` rows of `patch` pixels whose top-left pixel is (`x0`, `y0`).
pub open spec fn block_sum(pixels: Seq<u8>, width: nat, y0: nat, x0: nat, patch: nat, m: nat) -> nat
    decreases m,
{
    if m == 0 {
        0
    } else {
        block_sum(pixels, width, y0, x0, patch, (m - 1) as nat) + strip_sum(pixels, width, (y0 + m - 1) as nat, x0, patch)
    }
}

/// The token of the patch in patch row `row` and patch column `col`: the
/// mean of its pixels, rounded down.
pub open spec fn patch_token(img: Image, patch: nat, row: nat, col: nat) -> nat {
    block_sum(img.pixels@, img.width as nat, row * patch, col * patch, patch, patch) / (patch * patch)
}

/// The tokens of the first `r` patch rows, each row left to right.
pub open spec fn image_tokens(img: Image, patch: nat, r: nat) -> Seq<u32>
    decreases r,
{
    if r == 0 {
        Seq::empty()
    } else {
        image_tokens(img, patch, (r - 1) as nat)
            + Seq::new(img.width as nat / patch, |c: int| patch_token(img, patch, (r - 1) as nat, c as nat) as u32)
    }
}

proof fn lemma_strip_bound(pixels: Seq<u8>, width: nat, y: nat, x0: nat, n: nat)
    ensures
        strip_sum(pixels, width, y, x0, n) <= 255 * n,
    decreases n,
{
    if n > 0 {
        lemma_strip_bound(pixels, width, y, x0, (n - 1) as nat);
    }
}

proof fn lemma_block_bound(pixels: Seq<u8>, width: nat, y0: nat, x0: nat, patch: nat, m: nat)
    ensures
        block_sum(pixels, width, y0, x0, patch, m) <= 255 * patch * m,
    decreases m,
{
    if m > 0 {
        lemma_block_bound(pixels, width, y0, x0, patch, (m - 1) as nat);
        lemma_strip_bound(pixels, width, (y0 + m - 1) as nat, x0, patch);
        assert(255 * patch * m == 255 * patch * (m - 1) + 255 * patch) by (nonlinear_arith);
    }
}

impl VisionEncoder {
    pub fn new(patch: u32) -> (r: Result<VisionEncoder, VisionError>)
        ensures
            patch == 0 <==> r == Err::<VisionEncoder, VisionError>(VisionError::InvalidResolution),
            r matches Ok(e) ==> e.patch == patch && e.enabled,
    {
        if patch == 0 {
            return Err(VisionError::InvalidResolution);
        }
        Ok(VisionEncoder { patch, enabled: true })
    }

    /// Whether `image` is well formed and tiles exactly into patches.
    pub open spec fn spec_check(&self, image: &Image) -> Result<(), VisionError> {
        if !self.enabled {
            Err(VisionError::Disabled)
        } else if image.pixels@.len() != image.width * image.height {
            Err(VisionError::Corrupt)
        } else if image.width % self.patch != 0 || image.height % self.patch != 0 {
            Err(VisionError::InvalidResolution)
        } else {
            Ok(())
        }
    }

    /// What encoding needs to run without overflow: the pixel count fits
    /// in `u32`, the patch is positive, and a patch's pixel sum fits in `u32`.
    pub open spec fn spec_encodable(&self, image: &Image) -> bool {
        &&& self.enabled ==> image.width * image.height <= u32::MAX
        &&& (self.enabled && image.pixels@.len() == image.width * image.height) ==> self.patch > 0
        &&& self.spec_check(image) is Ok ==> 255 * self.patch * self.patch <= u32::MAX
    }

    /// One token per patch, row by row, as an image sequence.
    pub fn encode(&self, image: &Image) -> (r: Result<CommonSequence, VisionError>)
        requires
            self.spec_encodable(image),
        ensures
            match self.spec_check(image) {
                Err(e) => r == Err::<CommonSequence, VisionError>(e),
                Ok(_) => r matches Ok(s) && plain_sequence(s, ModalityId::Image,
                    image_tokens(*image, self.patch as nat, (image.height / self.patch) as nat)),
            },
    {
        if !self.enabled {
            return Err(VisionError::Disabled);
        }
        if image.pixels.len() != (image.width * image.height) as usize {
            return Err(VisionError::Corrupt);
        }
        if image.width % self.patch != 0 || image.height % self.patch != 0 {
            return Err(VisionError::InvalidResolution);
        }
        let patch = self.patch;
        let width = image.width;
        let height = image.height;
        let cols = width / patch;
        let rows = height / patch;
        proof {
            assert(cols * patch == width && rows * patch == height) by (nonlinear_arith)
                requires cols == width / patch, rows == height / patch, width % patch == 0, height % patch == 0, patch > 0;
            assert(rows * cols <= width * height) by (nonlinear_arith)
                requires cols * patch == width, rows * patch == height, patch > 0, rows >= 0, cols >= 0;
        }
        let mut tokens: Vec<u32> = Vec::new();
        let mut row: u32 = 0;
        while row < rows
            invariant
                patch == self.patch,
                width == image.width,
                height == image.height,
                patch > 0,
                255 * patch * patch <= u32::MAX,
                cols * patch == width,
                cols == width / patch,
                rows * patch == height,
                image.pixels@.len() == width * height,
                width * height <= u32::MAX,
                row <= rows,
                tokens@ == image_tokens(*image, patch as nat, row as nat),
                tokens@.len() == row * cols,
            decreases rows - row,
        {
            let ghost before = tokens@;
            let mut col: u32 = 0;
            while col < cols
                invariant
                    patch == self.patch,
                    width == image.width,
                    height == image.height,
                    patch > 0,
                    255 * patch * patch <= u32::MAX,
                    cols * patch == width,
                    rows * patch == height,
                    image.pixels@.len() == width * height,
                    width * height <= u32::MAX,
                    row < rows,
                    col <= cols,
                    tokens@ == before + Seq::new(col as nat, |c: int| patch_token(*image, patch as nat, row as nat, c as nat) as u32),
                decreases cols - col,
            {
                let t = patch_mean(image, patch, rows, cols, row, col);
                tokens.push(t);
                col = col + 1;
                assert(tokens@ =~= before + Seq::new(col as nat, |c: int| patch_token(*image, patch as nat, row as nat, c as nat) as u32));
            }
            proof {
                assert(tokens@.len() == row * cols + cols);
                assert(row * cols + cols == (row + 1) * cols) by (nonlinear_arith);
            }
            row = row + 1;
        }
        proof {
            assert(rows * cols <= width * height) by (nonlinear_arith)
                requires cols * patch == width, rows * patch == height, patch > 0;
        }
        Ok(plain(ModalityId::Image, tokens))
    }

    /// The tokens of an encoded sequence, once its columns line up.
    pub fn backward(&self, encoded: &CommonSequence) -> (r: Result<Vec<u32>, VisionError>)
        ensures
            encoded.aligned() ==> (r matches Ok(t) && t@ == encoded.tokens@),
            !encoded.aligned() ==> r == Err::<Vec<u32>, VisionError>(VisionError::Corrupt),
    {
        match encoded.validate() {
            Ok(_) => {},
            Err(_) => {
                return Err(VisionError::Corrupt);
            },
        }
        let mut out: Vec<u32> = Vec::new();
        let mut i: usize = 0;
        while i < encoded.tokens.len()
            invariant
                i <= encoded.tokens@.len(),
                out@ == encoded.tokens@.subrange(0, i as int),
            decreases encoded.tokens.len() - i,
        {
            out.push(encoded.tokens[i]);
            i = i + 1;
        }
        assert(out@ =~= encoded.tokens@);
        Ok(out)
    }
}

/// The mean pixel of one patch.
fn patch_mean(image: &Image, patch: u32, rows: u32, cols: u32, row: u32, col: u32) -> (t: u32)
    requires
        patch > 0,
        255 * patch * patch <= u32::MAX,
        cols * patch == image.width,
        rows * patch == image.height,
        image.pixels@.len() == image.width * image.height,
        image.width * image.height <= u32::MAX,
        row < rows,
        col < cols,
    ensures
        t as nat == patch_token(*image, patch as nat, row as nat, col as nat),
{
    let width = image.width;
    proof {
        assert(row * patch + patch <= image.height && col * patch + patch <= width) by (nonlinear_arith)
            requires row < rows, col < cols, rows * patch == image.height, cols * patch == width;
        assert(0 < patch * patch <= u32::MAX) by (nonlinear_arith)
            requires 255 * patch * patch <= u32::MAX, patch > 0;
    }
    let y0 = row * patch;
    let x0 = col * patch;
    let mut acc: u32 = 0;
    let mut count: u32 = 0;
    let mut dy: u32 = 0;
    while dy < patch
        invariant
            patch > 0,
            255 * patch * patch <= u32::MAX,
            0 < patch * patch <= u32::MAX,
            width == image.width,
            y0 + patch <= image.height,
            x0 + patch <= width,
            image.pixels@.len() == width * image.height,
            width * image.height <= u32::MAX,
            dy <= patch,
            acc as nat == block_sum(image.pixels@, width as nat, y0 as nat, x0 as nat, patch as nat, dy as nat),
            count == dy * patch,
        decreases patch - dy,
    {
        proof {
            lemma_block_bound(image.pixels@, width as nat, y0 as nat, x0 as nat, patch as nat, dy as nat);
            assert(dy * patch + patch <= patch * patch && 255 * patch * dy + 255 * patch <= 255 * patch * patch) by (nonlinear_arith)
                requires dy < patch, patch > 0;
        }
        let ghost row_start = acc as nat;
        let y = y0 + dy;
        let mut dx: u32 = 0;
        while dx < patch
            invariant
                patch > 0,
                255 * patch * patch <= u32::MAX,
                0 < patch * patch <= u32::MAX,
                width == image.width,
                y < image.height,
                x0 + patch <= width,
                image.pixels@.len() == width * image.height,
                width * image.height <= u32::MAX,
                dx <= patch,
                row_start + 255 * patch <= 255 * patch * patch,
                acc as nat == row_start + strip_sum(image.pixels@, width as nat, y as nat, x0 as nat, dx as nat),
                count == dy * patch + dx,
                dy * patch + patch <= patch * patch,
            decreases patch - dx,
        {
            proof {
                lemma_strip_bound(image.pixels@, width as nat, y as nat, x0 as nat, dx as nat);
                assert(y * width + x0 + dx < width * image.height) by (nonlinear_arith)
                    requires y < image.height, x0 + dx < width;
            }
            let x = x0 + dx;
            let idx = (y * width + x) as usize;
            acc = acc + image.pixels[idx] as u32;
            count = count + 1;
            dx = dx + 1;
        }
        dy = dy + 1;
        proof {
            assert(count == dy * patch) by (nonlinear_arith)
                requires count == (dy - 1) * patch + patch;
        }
    }
    proof {
        assert(count == patch * patch) by (nonlinear_arith)
            requires count == dy * patch, dy == patch;
    }
    acc / count
}

} // verus!
