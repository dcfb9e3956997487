//! A picture of red, green and blue bytes.
use vstd::prelude::*;

verus! {

/// A picture, row by row, three bytes to a pixel.
#[derive(Debug, PartialEq, Eq)]
pub struct Image {
    pub width: u32,
    pub height: u32,
    pub rgb: Vec<u8>,
}

/// The three bytes of a pixel.
pub open spec fn triple(px: [u8; 3]) -> (u8, u8, u8) {
    (px@[0], px@[1], px@[2])
}

/// The pixel whose first byte is the `3 * k`-th; black where the bytes are
/// missing.
pub open spec fn pixel_in(rgb: Seq<u8>, k: int) -> (u8, u8, u8) {
    if 0 <= k && 3 * k + 3 <= rgb.len() {
        (rgb[3 * k], rgb[3 * k + 1], rgb[3 * k + 2])
    } else {
        (0u8, 0u8, 0u8)
    }
}

impl Image {
    /// How many pixels the picture has.
    pub open spec fn area(&self) -> int {
        self.width * self.height
    }

    /// The `k`-th pixel, row by row.
    pub open spec fn nth(&self, k: int) -> (u8, u8, u8) {
        pixel_in(self.rgb@, k)
    }

    /// The pixel at `(x, y)`.
    pub open spec fn at(&self, x: int, y: int) -> (u8, u8, u8) {
        pixel_in(self.rgb@, y * self.width + x)
    }

    pub fn pixel(&self, x: u32, y: u32) -> (px: [u8; 3])
        ensures
            triple(px) == self.at(x as int, y as int),
    {
        let w: u32 = self.width;
        assert(0 <= y * w <= u32::MAX * u32::MAX) by (nonlinear_arith)
            requires
                0 <= y <= u32::MAX,
                0 <= w <= u32::MAX,
        ;
        let k: u128 = y as u128 * w as u128 + x as u128;
        let n: usize = self.rgb.len();
        if 3 * k + 3 <= n as u128 {
            let i = (3 * k) as usize;
            [self.rgb[i], self.rgb[i + 1], self.rgb[i + 2]]
        } else {
            [0, 0, 0]
        }
    }
}

/// The bytes of a picture are its rows from the top, each from the left, and
/// red, green and blue for every pixel.
pub proof fn pixels_lie_row_by_row(image: Image, x: int, y: int)
    requires
        0 <= x < image.width,
        0 <= y < image.height,
        image.rgb@.len() == 3 * (image.width * image.height),
    ensures
        0 <= 3 * (y * image.width + x),
        3 * (y * image.width + x) + 2 < image.rgb@.len(),
        image.at(x, y).0 == image.rgb@[3 * (y * image.width + x)],
        image.at(x, y).1 == image.rgb@[3 * (y * image.width + x) + 1],
        image.at(x, y).2 == image.rgb@[3 * (y * image.width + x) + 2],
        image.nth(y * image.width + x) == image.at(x, y),
        y * image.width + x < image.area(),
{
    let w = image.width as int;
    let h = image.height as int;
    assert(0 <= y * w + x && y * w + x < w * h) by (nonlinear_arith)
        requires
            0 <= x < w,
            0 <= y < h,
    ;
}

} // verus!
