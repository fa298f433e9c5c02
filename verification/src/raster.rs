//! A grayscale raster: a grid of luminance values with explicit dimensions.

use vstd::prelude::*;

verus! {

/// A grayscale image held row by row, one luminance byte per pixel.
pub struct Raster {
    width: u32,
    height: u32,
    data: Vec<u8>,
}

impl Raster {
    #[verifier::type_invariant]
    spec fn well_formed(&self) -> bool {
        self.data@.len() == self.width * self.height
    }

    /// Number of pixel columns.
    pub closed spec fn cols(&self) -> nat {
        self.width as nat
    }

    /// Number of pixel rows.
    pub closed spec fn rows(&self) -> nat {
        self.height as nat
    }

    /// Whether the pixel in column `x` of row `y` lies on the canvas.
    pub open spec fn contains(&self, x: int, y: int) -> bool {
        0 <= x < self.cols() && 0 <= y < self.rows()
    }

    /// The luminance of every pixel, row by row.
    pub closed spec fn pixels(&self) -> Seq<u8> {
        self.data@
    }

    /// Luminance of the pixel in column `x` of row `y`.
    pub open spec fn luminance(&self, x: int, y: int) -> u8 {
        self.pixels()[y * self.cols() + x]
    }

    /// Builds a raster from its dimensions and its pixels in row-major
    /// order. Fails when the number of pixels is not `width * height`.
    pub fn new(width: u32, height: u32, data: Vec<u8>) -> (raster: Option<Raster>)
        ensures
            raster.is_some() <==> data@.len() == width * height,
            raster matches Some(r) ==> r.cols() == width && r.rows() == height && r.pixels()
                == data@,
    {
        assert(width * height <= 0xffff_ffff * 0xffff_ffff) by (nonlinear_arith)
            requires
                0 <= width <= 0xffff_ffff,
                0 <= height <= 0xffff_ffff,
        ;
        let area: u64 = (width as u64) * (height as u64);
        if data.len() as u64 == area {
            Some(Raster { width, height, data })
        } else {
            None
        }
    }

    /// Number of pixel columns.
    pub fn width(&self) -> (w: u32)
        ensures
            w == self.cols(),
    {
        self.width
    }

    /// Number of pixel rows.
    pub fn height(&self) -> (h: u32)
        ensures
            h == self.rows(),
    {
        self.height
    }

    /// The luminance of every pixel, row by row.
    pub fn data(&self) -> (bytes: &Vec<u8>)
        ensures
            bytes@ == self.pixels(),
            bytes@.len() == self.cols() * self.rows(),
    {
        proof {
            use_type_invariant(self);
        }
        &self.data
    }

    /// Whether column `x`, row `y` names a pixel of this raster.
    pub fn in_bounds(&self, x: u32, y: u32) -> (inside: bool)
        ensures
            inside == self.contains(x as int, y as int),
    {
        x < self.width && y < self.height
    }

    /// Luminance of the pixel in column `x` of row `y`, or `None` when
    /// there is no such pixel.
    pub fn get_pixel(&self, x: u32, y: u32) -> (value: Option<u8>)
        ensures
            value == if self.contains(x as int, y as int) {
                Some(self.luminance(x as int, y as int))
            } else {
                None
            },
    {
        if !self.in_bounds(x, y) {
            return None;
        }
        proof {
            use_type_invariant(self);
            let w = self.width as int;
            let h = self.height as int;
            assert(0 <= y * w + x < w * h) by (nonlinear_arith)
                requires
                    0 <= x < w,
                    0 <= y < h,
            ;
            assert(y * w <= 0xffff_ffff * 0xffff_ffff) by (nonlinear_arith)
                requires
                    0 <= y <= 0xffff_ffff,
                    0 <= w <= 0xffff_ffff,
            ;
        }
        let index: u64 = (y as u64) * (self.width as u64) + (x as u64);
        let len: usize = self.data.len();
        assert(index < len);
        Some(self.data[index as usize])
    }

    /// Luminance at the point `(x, y)`, or `None` off the canvas.
    pub fn luminance_at(&self, x: i32, y: i32) -> (value: Option<u8>)
        ensures
            value == if self.contains(x as int, y as int) {
                Some(self.luminance(x as int, y as int))
            } else {
                None
            },
    {
        if x >= 0 && y >= 0 {
            self.get_pixel(x as u32, y as u32)
        } else {
            None
        }
    }
}

} // verus!
