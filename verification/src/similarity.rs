//! The structural similarity index of two images of one size.

use vstd::prelude::*;
use crate::raster::{lemma_index_to_position, Image};

verus! {

/// The binary64 bit pattern of the mean structural similarity index of two
/// RGB images of the given width and height, each given as its raw bytes,
/// three to a pixel, row by row.
pub uninterp spec fn mssim_bits(width: u32, height: u32, first: Seq<u8>, second: Seq<u8>) -> u64;

/// The longest side of an image whose similarity index can be taken.
/// The index is computed over windows of eight by eight pixels, and the
/// far edge of the last window of a row or column must still be a
/// 32-bit number.
pub const MAX_SIDE: u32 = 0xffff_fff8;

/// Calls `image_compare::rgb_similarity_structure` with the algorithm
/// `MSSIMSimple` on the two RGB images and hands back the bit pattern of
/// the score it returns. The score is a function of the two images alone;
/// nothing else is claimed of it. The call cannot fail on two images of
/// one size. It needs at least one pixel, and no side longer than
/// [`MAX_SIDE`]: it adds eight to the first column and row of every window.
#[verifier::external_body]
pub(crate) fn structural_similarity(
    width: u32,
    height: u32,
    first: Vec<u8>,
    second: Vec<u8>,
) -> (bits: u64)
    requires
        1 <= width <= MAX_SIDE,
        1 <= height <= MAX_SIDE,
        first@.len() == 3 * (width * height),
        second@.len() == 3 * (width * height),
    ensures
        bits == mssim_bits(width, height, first@, second@),
{
    let first = image::RgbImage::from_raw(width, height, first).unwrap();
    let second = image::RgbImage::from_raw(width, height, second).unwrap();
    let algorithm = image_compare::Algorithm::MSSIMSimple;
    image_compare::rgb_similarity_structure(&algorithm, &first, &second).unwrap().score.to_bits()
}

/// The byte at `index` of the RGB plane of an image laid on a canvas of
/// the given width: the colour channels of the canvas pixels, three to a
/// pixel, row by row, without alpha.
pub open spec fn rgb_byte(image: Image, width: int, index: int) -> u8 {
    let position = index / 3;
    image.at(position % width, position / width).channel(index % 3)
}

/// The RGB plane of an image laid on a canvas of the given size. Where
/// the canvas reaches beyond the image it is black.
pub open spec fn rgb_plane(image: Image, width: int, height: int) -> Seq<u8> {
    Seq::new((3 * (width * height)) as nat, |index: int| rgb_byte(image, width, index))
}

/// Lays an image on a canvas of the given size and gives the canvas's
/// colour channels, dropping alpha.
pub fn to_rgb_plane(image: &Image, width: u32, height: u32) -> (plane: Vec<u8>)
    requires
        width >= 1,
    ensures
        plane@ == rgb_plane(*image, width as int, height as int),
{
    let mut plane: Vec<u8> = Vec::new();
    let mut y: u32 = 0;
    while y < height
        invariant
            width >= 1,
            y <= height,
            plane@.len() == 3 * (y * width),
            forall|index: int|
                0 <= index < plane@.len() ==> plane@[index] == rgb_byte(
                    *image,
                    width as int,
                    index,
                ),
        decreases height - y,
    {
        let mut x: u32 = 0;
        while x < width
            invariant
                width >= 1,
                y < height,
                x <= width,
                plane@.len() == 3 * (y * width + x),
                forall|index: int|
                    0 <= index < plane@.len() ==> plane@[index] == rgb_byte(
                        *image,
                        width as int,
                        index,
                    ),
            decreases width - x,
        {
            let pixel = image.read(x, y);
            proof {
                let position = y * width + x;
                lemma_index_to_position(width as int, x as int, y as int);
                assert((3 * position) / 3 == position && (3 * position) % 3 == 0);
                assert((3 * position + 1) / 3 == position && (3 * position + 1) % 3 == 1);
                assert((3 * position + 2) / 3 == position && (3 * position + 2) % 3 == 2);
            }
            plane.push(pixel.r);
            plane.push(pixel.g);
            plane.push(pixel.b);
            x = x + 1;
        }
        proof {
            assert((y + 1) * width == y * width + width) by (nonlinear_arith);
        }
        y = y + 1;
    }
    proof {
        assert(height * width == width * height) by (nonlinear_arith);
        assert(plane@ =~= rgb_plane(*image, width as int, height as int));
    }
    plane
}

} // verus!
