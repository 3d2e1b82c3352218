//! Pixels and images: a grid of RGBA pixels held as raw bytes, row by row.

use vstd::prelude::*;
use vstd::arithmetic::div_mod::lemma_fundamental_div_mod_converse;

verus! {

/// One pixel: red, green, blue and alpha, eight bits each.
#[derive(Clone, Copy, Debug, PartialEq, Eq, Structural)]
pub struct Pixel {
    pub r: u8,
    pub g: u8,
    pub b: u8,
    pub a: u8,
}

impl Pixel {
    /// Fully transparent black: what a read outside an image yields.
    pub open spec fn clear() -> Pixel {
        Pixel { r: 0, g: 0, b: 0, a: 0 }
    }

    /// Fully transparent black.
    pub fn transparent() -> (pixel: Pixel)
        ensures
            pixel == Pixel::clear(),
    {
        Pixel { r: 0, g: 0, b: 0, a: 0 }
    }

    /// The three colour channels, without alpha.
    pub open spec fn rgb(self) -> (u8, u8, u8) {
        (self.r, self.g, self.b)
    }

    /// The channel with the given number: 0 red, 1 green, 2 blue, else alpha.
    pub open spec fn channel(self, index: int) -> u8 {
        if index == 0 {
            self.r
        } else if index == 1 {
            self.g
        } else if index == 2 {
            self.b
        } else {
            self.a
        }
    }
}

/// The pixel whose four bytes start at `offset` in `bytes`.
pub open spec fn pixel_at_offset(bytes: Seq<u8>, offset: int) -> Pixel {
    Pixel { r: bytes[offset], g: bytes[offset + 1], b: bytes[offset + 2], a: bytes[offset + 3] }
}

/// Where the pixel at `(x, y)` starts in the bytes of an image of the
/// given width.
pub open spec fn pixel_offset(width: int, x: int, y: int) -> int {
    4 * (y * width + x)
}

/// A position inside a grid has its four bytes inside the grid's bytes.
pub proof fn lemma_offset_in_bounds(width: int, height: int, x: int, y: int)
    requires
        0 <= x < width,
        0 <= y < height,
    ensures
        0 <= y * width + x < width * height,
        0 <= pixel_offset(width, x, y),
        pixel_offset(width, x, y) + 4 <= 4 * (width * height),
{
    assert(0 <= y * width && y * width + width <= height * width) by (nonlinear_arith)
        requires
            0 <= y,
            y + 1 <= height,
            0 < width,
    ;
    assert(height * width == width * height) by (nonlinear_arith);
}

/// A position in a grid is recovered from its row-major index.
pub proof fn lemma_index_to_position(width: int, x: int, y: int)
    requires
        0 <= x < width,
        0 <= y,
    ensures
        (y * width + x) % width == x,
        (y * width + x) / width == y,
{
    lemma_fundamental_div_mod_converse(y * width + x, width, y, x);
}

/// A non-empty grid of RGBA pixels. The bytes run row by row from the
/// top-left corner, four to a pixel.
pub struct Image {
    width: u32,
    height: u32,
    data: Vec<u8>,
}

impl Image {
    /// The number of pixel columns.
    pub closed spec fn spec_width(&self) -> u32 {
        self.width
    }

    /// The number of pixel rows.
    pub closed spec fn spec_height(&self) -> u32 {
        self.height
    }

    /// The raw bytes, row by row.
    pub closed spec fn bytes(&self) -> Seq<u8> {
        self.data@
    }

    /// Every image has at least one pixel and exactly four bytes for each.
    #[verifier::type_invariant]
    pub open spec fn wf(&self) -> bool {
        &&& self.spec_width() >= 1
        &&& self.spec_height() >= 1
        &&& self.bytes().len() == 4 * (self.spec_width() * self.spec_height())
    }

    /// Whether `(x, y)` lies on the image.
    pub open spec fn has(&self, x: int, y: int) -> bool {
        0 <= x < self.spec_width() && 0 <= y < self.spec_height()
    }

    /// The pixel stored at a position on the image.
    pub open spec fn pixel(&self, x: int, y: int) -> Pixel {
        pixel_at_offset(self.bytes(), pixel_offset(self.spec_width() as int, x, y))
    }

    /// The pixel read at any position: the stored one on the image,
    /// transparent black beyond its right and bottom edges.
    pub open spec fn at(&self, x: int, y: int) -> Pixel {
        if self.has(x, y) {
            self.pixel(x, y)
        } else {
            Pixel::clear()
        }
    }

    /// Builds an image from its dimensions and raw RGBA bytes. The bytes
    /// are refused unless both dimensions are positive and there are
    /// exactly four bytes for each pixel.
    pub fn from_raw(width: u32, height: u32, data: Vec<u8>) -> (image: Option<Image>)
        ensures
            image is Some <==> width >= 1 && height >= 1 && data@.len() == 4 * (width * height),
            image matches Some(made) ==> {
                &&& made.wf()
                &&& made.spec_width() == width
                &&& made.spec_height() == height
                &&& made.bytes() == data@
            },
    {
        if width == 0 || height == 0 {
            return None;
        }
        assert(width * height <= 0xffff_ffff * 0xffff_ffff) by (nonlinear_arith)
            requires
                0 <= width <= 0xffff_ffff,
                0 <= height <= 0xffff_ffff,
        ;
        let wanted: u128 = 4 * (width as u128 * height as u128);
        if data.len() as u128 != wanted {
            return None;
        }
        Some(Image { width, height, data })
    }

    /// The number of pixel columns.
    #[verifier::when_used_as_spec(spec_width)]
    pub fn width(&self) -> (width: u32)
        ensures
            width == self.spec_width(),
            width >= 1,
    {
        proof {
            use_type_invariant(self);
        }
        self.width
    }

    /// The number of pixel rows.
    #[verifier::when_used_as_spec(spec_height)]
    pub fn height(&self) -> (height: u32)
        ensures
            height == self.spec_height(),
            height >= 1,
    {
        proof {
            use_type_invariant(self);
        }
        self.height
    }

    /// The raw RGBA bytes, row by row.
    pub fn as_raw(&self) -> (data: &Vec<u8>)
        ensures
            data@ == self.bytes(),
            self.wf(),
    {
        proof {
            use_type_invariant(self);
        }
        &self.data
    }

    /// Gives up the image for its raw RGBA bytes.
    pub fn into_raw(self) -> (data: Vec<u8>)
        ensures
            data@ == self.bytes(),
            self.wf(),
    {
        proof {
            use_type_invariant(&self);
        }
        self.data
    }

    /// The pixel stored at `(x, y)`, which must lie on the image.
    pub fn get_pixel(&self, x: u32, y: u32) -> (pixel: Pixel)
        requires
            self.has(x as int, y as int),
        ensures
            pixel == self.pixel(x as int, y as int),
    {
        proof {
            use_type_invariant(self);
            lemma_offset_in_bounds(self.width as int, self.height as int, x as int, y as int);
            assert(0 <= y * self.width) by (nonlinear_arith)
                requires
                    0 <= y,
                    0 <= self.width,
            ;
            assert(self.data.len() == self.data@.len());
        }
        let offset: usize = 4 * (y as usize * self.width as usize + x as usize);
        Pixel {
            r: self.data[offset],
            g: self.data[offset + 1],
            b: self.data[offset + 2],
            a: self.data[offset + 3],
        }
    }

    /// The pixel read at `(x, y)`: the stored one on the image,
    /// transparent black anywhere else.
    pub fn read(&self, x: u32, y: u32) -> (pixel: Pixel)
        ensures
            pixel == self.at(x as int, y as int),
    {
        if x < self.width && y < self.height {
            self.get_pixel(x, y)
        } else {
            Pixel::transparent()
        }
    }
}

} // verus!
