//! Images of the baked atlas: two 32-bit words for each pixel, row after row.
use vstd::prelude::*;

verus! {

/// Bytes of one pixel: two little-endian 32-bit words.
pub const PIXEL_BYTES: usize = 8;

/// A two-word image. `data` holds the rows from the top, each from the left.
#[derive(Debug)]
pub struct Image {
    pub width: u32,
    pub height: u32,
    pub data: Vec<u8>,
}

/// The four bytes of `data` from `at` on, read as a little-endian word.
pub open spec fn le_word(data: Seq<u8>, at: int) -> int {
    data[at] + 256 * data[at + 1] + 65536 * data[at + 2] + 16777216 * data[at + 3]
}

/// Where the pixel at column `x` of row `y` starts, in an image `width` pixels wide.
pub open spec fn pixel_start(width: int, x: int, y: int) -> int {
    8 * (y * width + x)
}

impl Image {
    /// The buffer holds exactly the pixels of the image.
    pub open spec fn wf(&self) -> bool {
        self.data@.len() == 8 * (self.width * self.height)
    }

    /// The bytes of the pixel at column `x` of row `y`.
    pub open spec fn pixel(&self, x: int, y: int) -> Seq<u8> {
        let at = pixel_start(self.width as int, x, y);
        self.data@.subrange(at, at + 8)
    }

    /// Whether the pixel at column `x` of row `y` shows anything: its first word is not zero.
    pub open spec fn marked(&self, x: int, y: int) -> bool {
        le_word(self.data@, pixel_start(self.width as int, x, y)) != 0
    }

    /// Whether the buffer holds exactly the pixels of the image.
    pub fn is_complete(&self) -> (r: bool)
        ensures
            r == self.wf(),
            r == (self.data@.len() == 8 * (self.width * self.height)),
    {
        assert(0 <= self.width * self.height <= 0xffff_ffff * 0xffff_ffff) by (nonlinear_arith)
            requires
                0 <= self.width <= 0xffff_ffff,
                0 <= self.height <= 0xffff_ffff,
        ;
        self.data.len() as u128 == 8 * (self.width as u128 * self.height as u128)
    }

    /// Whether the pixel at column `x` of row `y` shows anything.
    pub fn is_marked(&self, x: usize, y: usize) -> (r: bool)
        requires
            self.wf(),
            x < self.width,
            y < self.height,
        ensures
            r == self.marked(x as int, y as int),
            ({
                let at = 8 * (y * self.width + x);
                r == (self.data@[at] != 0 || self.data@[at + 1] != 0 || self.data@[at + 2] != 0
                    || self.data@[at + 3] != 0)
            }),
    {
        proof {
            lemma_pixel_in_bounds(self.width as int, self.height as int, x as int, y as int);
        }
        assert(self.data.len() == self.data@.len());
        let at: usize = (y * self.width as usize + x) * 8;
        self.data[at] != 0 || self.data[at + 1] != 0 || self.data[at + 2] != 0 || self.data[at + 3]
            != 0
    }
}

/// A pixel inside the image lies inside its buffer.
pub proof fn lemma_pixel_in_bounds(width: int, height: int, x: int, y: int)
    requires
        0 <= x < width,
        0 <= y < height,
    ensures
        0 <= y * width,
        0 <= y * width + x < width * height,
        0 <= pixel_start(width, x, y),
        pixel_start(width, x, y) + 8 <= 8 * (width * height),
{
    assert(0 <= y * width && y * width + width <= width * height) by (nonlinear_arith)
        requires
            0 <= x < width,
            0 <= y < height,
    ;
}

/// A pixel is marked exactly where one of its first four bytes is not zero; and its eight bytes
/// stand one after the other, those of a row from the left, the rows from the top.
pub proof fn law_marked_pixels(image: &Image, x: int, y: int)
    requires
        image.wf(),
        0 <= x < image.width,
        0 <= y < image.height,
    ensures
        image.marked(x, y) <==> exists|b: int| 0 <= b < 4 && #[trigger] image.pixel(x, y)[b] != 0,
        image.pixel(x, y).len() == 8,
        forall|b: int|
            0 <= b < 8 ==> #[trigger] image.pixel(x, y)[b] == image.data@[8 * (y * image.width + x)
                + b],
{
    lemma_pixel_in_bounds(image.width as int, image.height as int, x, y);
    let at = 8 * (y * image.width + x);
    let pixel = image.pixel(x, y);
    assert(pixel[0] == image.data@[at] && pixel[1] == image.data@[at + 1] && pixel[2]
        == image.data@[at + 2] && pixel[3] == image.data@[at + 3]);
}

} // verus!
