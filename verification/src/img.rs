//! The pixel buffer type that every concatenation operation produces and
//! consumes: a row-major grid of 3-channel 8-bit pixels.

use vstd::prelude::*;

use vstd::arithmetic::div_mod::lemma_fundamental_div_mod;
use vstd::arithmetic::div_mod::lemma_mod_division_less_than_divisor;

verus! {

/// One pixel: three 8-bit channels.
#[derive(Clone, Copy, Debug, PartialEq, Eq, Structural)]
pub struct Rgb {
    pub r: u8,
    pub g: u8,
    pub b: u8,
}

/// The fill colour of freshly allocated canvas pixels.
pub open spec fn black() -> Rgb {
    Rgb { r: 0, g: 0, b: 0 }
}

/// An owned two-dimensional grid of `Rgb` pixels, stored row-major:
/// pixel (x, y) occupies the three bytes starting at `3 * (y * width + x)`.
///
/// A width-0 or height-0 image is a valid, empty image.
#[derive(Debug)]
pub struct Image {
    pub width: u32,
    pub height: u32,
    pub data: Vec<u8>,
}

/// Byte indices of distinct in-range pixels are at least three apart,
/// so the three bytes of one pixel never overlap another's.
proof fn lemma_pixel_index_distinct(w: int, x1: int, y1: int, x2: int, y2: int)
    by (nonlinear_arith)
    requires
        0 <= x1 < w,
        0 <= x2 < w,
        0 <= y1,
        0 <= y2,
        !(x1 == x2 && y1 == y2),
    ensures
        3 * (y1 * w + x1) + 3 <= 3 * (y2 * w + x2) || 3 * (y2 * w + x2) + 3 <= 3 * (y1 * w + x1),
{
}

/// An in-range pixel's bytes lie inside the row-major buffer.
proof fn lemma_pixel_in_bounds(w: int, h: int, x: int, y: int)
    by (nonlinear_arith)
    requires
        0 <= x < w,
        0 <= y < h,
    ensures
        0 <= y * w,
        y * w + x < w * h,
        0 <= 3 * (y * w + x),
        3 * (y * w + x) + 2 < 3 * (w * h),
{
}

impl Image {
    /// The backing buffer holds exactly three bytes per pixel.
    pub open spec fn wf(self) -> bool {
        self.data@.len() == 3 * (self.width * self.height)
    }

    /// Byte index where pixel (x, y) starts.
    pub open spec fn byte_index(self, x: int, y: int) -> int {
        3 * (y * self.width + x)
    }

    /// The pixel stored at column `x`, row `y`.
    pub open spec fn pixel(self, x: int, y: int) -> Rgb {
        Rgb {
            r: self.data@[self.byte_index(x, y)],
            g: self.data@[self.byte_index(x, y) + 1],
            b: self.data@[self.byte_index(x, y) + 2],
        }
    }

    pub fn width(&self) -> (w: u32)
        ensures
            w == self.width,
    {
        self.width
    }

    pub fn height(&self) -> (h: u32)
        ensures
            h == self.height,
    {
        self.height
    }

    /// Allocates a `width` by `height` image with every pixel black.
    pub fn new(width: u32, height: u32) -> (img: Image)
        requires
            3 * (width * height) <= usize::MAX,
        ensures
            img.wf(),
            img.width == width,
            img.height == height,
            forall|x: int, y: int|
                0 <= x < width && 0 <= y < height ==> img.pixel(x, y) == black(),
    {
        let wh: usize = (width as usize) * (height as usize);
        let len: usize = 3 * wh;
        let mut data: Vec<u8> = Vec::new();
        let mut i: usize = 0;
        while i < len
            invariant
                i <= len,
                data@.len() == i,
                forall|j: int| 0 <= j < i ==> data@[j] == 0u8,
            decreases len - i,
        {
            data.push(0u8);
            i = i + 1;
        }
        let img = Image { width, height, data };
        proof {
            assert forall|x: int, y: int|
                0 <= x < width && 0 <= y < height implies img.pixel(x, y) == black() by {
                lemma_pixel_in_bounds(width as int, height as int, x, y);
            }
        }
        img
    }

    /// Wraps an existing byte buffer, checking that its length matches the
    /// dimensions; returns `None` when it does not.
    pub fn from_raw(width: u32, height: u32, data: Vec<u8>) -> (r: Option<Image>)
        ensures
            match r {
                Some(img) => {
                    &&& img.wf()
                    &&& img.width == width
                    &&& img.height == height
                    &&& img.data@ == data@
                },
                None => data@.len() != 3 * (width * height),
            },
    {
        proof {
            assert((width as int) * (height as int) <= 0xffff_ffffu64 * 0xffff_ffffu64)
                by (nonlinear_arith)
                requires
                    width <= 0xffff_ffffu64,
                    height <= 0xffff_ffffu64,
            ;
        }
        let wh: u128 = (width as u128) * (height as u128);
        let expected: u128 = 3 * wh;
        if (data.len() as u128) == expected {
            Some(Image { width, height, data })
        } else {
            None
        }
    }

    /// Reads the pixel at column `x`, row `y`.
    pub fn get_pixel(&self, x: u32, y: u32) -> (p: Rgb)
        requires
            self.wf(),
            x < self.width,
            y < self.height,
        ensures
            p == self.pixel(x as int, y as int),
    {
        proof {
            lemma_pixel_in_bounds(self.width as int, self.height as int, x as int, y as int);
        }
        // Establishes that the buffer length, and with it every in-range
        // pixel's byte index, fits in usize.
        let _len: usize = self.data.len();
        let base: usize = 3 * ((y as usize) * (self.width as usize) + (x as usize));
        Rgb { r: self.data[base], g: self.data[base + 1], b: self.data[base + 2] }
    }

    /// Overwrites the pixel at column `x`, row `y`, leaving every other
    /// pixel unchanged.
    pub fn set_pixel(&mut self, x: u32, y: u32, p: Rgb)
        requires
            old(self).wf(),
            x < old(self).width,
            y < old(self).height,
        ensures
            final(self).wf(),
            final(self).width == old(self).width,
            final(self).height == old(self).height,
            final(self).pixel(x as int, y as int) == p,
            forall|x2: int, y2: int|
                0 <= x2 < final(self).width && 0 <= y2 < final(self).height && !(x2 == x as int
                    && y2 == y as int) ==> final(self).pixel(x2, y2) == old(self).pixel(x2, y2),
    {
        proof {
            lemma_pixel_in_bounds(self.width as int, self.height as int, x as int, y as int);
        }
        // Establishes that the buffer length, and with it every in-range
        // pixel's byte index, fits in usize.
        let _len: usize = self.data.len();
        let base: usize = 3 * ((y as usize) * (self.width as usize) + (x as usize));
        self.data.set(base, p.r);
        self.data.set(base + 1, p.g);
        self.data.set(base + 2, p.b);
        proof {
            assert forall|x2: int, y2: int|
                0 <= x2 < self.width && 0 <= y2 < self.height && !(x2 == x as int && y2
                    == y as int) implies self.pixel(x2, y2) == old(self).pixel(x2, y2) by {
                lemma_pixel_in_bounds(self.width as int, self.height as int, x2, y2);
                lemma_pixel_index_distinct(
                    self.width as int,
                    x as int,
                    y as int,
                    x2,
                    y2,
                );
            }
        }
    }
}

/// Two well-formed images of the same dimensions whose pixels all agree
/// have bit-identical backing buffers: the pixel grid determines every
/// byte of the storage.
pub proof fn lemma_pixels_determine_data(a: Image, b: Image)
    requires
        a.wf(),
        b.wf(),
        a.width == b.width,
        a.height == b.height,
        forall|x: int, y: int|
            0 <= x < a.width && 0 <= y < a.height ==> a.pixel(x, y) == b.pixel(x, y),
    ensures
        a.data@ == b.data@,
{
    let w: int = a.width as int;
    let h: int = a.height as int;
    assert forall|i: int| 0 <= i < a.data@.len() implies a.data@[i] == b.data@[i] by {
        assert(w > 0 && h > 0) by (nonlinear_arith)
            requires
                0 <= w,
                0 <= h,
                3 * (w * h) > 0,
        ;
        let q: int = i / 3;
        let c: int = i % 3;
        lemma_fundamental_div_mod(i, 3);
        lemma_mod_division_less_than_divisor(i, 3);
        let y: int = q / w;
        let x: int = q % w;
        lemma_fundamental_div_mod(q, w);
        lemma_mod_division_less_than_divisor(q, w);
        assert(q < w * h);
        assert(y < h) by (nonlinear_arith)
            requires
                q == w * y + x,
                0 <= x < w,
                0 <= q < w * h,
        ;
        assert(0 <= y) by (nonlinear_arith)
            requires
                q == w * y + x,
                0 <= x < w,
                0 <= q,
        ;
        assert(a.pixel(x, y) == b.pixel(x, y));
        assert(a.byte_index(x, y) == 3 * q);
        assert(i == 3 * q + c && 0 <= c < 3);
    }
    assert(a.data@ =~= b.data@);
}

} // verus!
