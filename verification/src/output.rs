//! The size of the output surface and of one frame of pixels.

use vstd::prelude::*;

verus! {

/// Bytes per pixel in the ARGB8888 format (blue, green, red, alpha).
pub const COLOR_SIZE: u32 = 4;

/// Width and height of the surface, in pixels.
#[derive(Default, Debug)]
pub struct Output {
    width: u32,
    height: u32,
}

impl Clone for Output {
    fn clone(&self) -> (o: Self)
        ensures
            o == *self,
    {
        Output { width: self.width, height: self.height }
    }
}

impl Output {
    /// The width in pixels.
    pub closed spec fn width_px(&self) -> u32 {
        self.width
    }

    /// The height in pixels.
    pub closed spec fn height_px(&self) -> u32 {
        self.height
    }

    /// The number of bytes of one frame.
    pub open spec fn buffer_size_spec(&self) -> int {
        self.width_px() * self.height_px() * COLOR_SIZE
    }

    /// An output of the given size.
    pub fn new(width: u32, height: u32) -> (o: Self)
        ensures
            o.width_px() == width,
            o.height_px() == height,
    {
        Self { width, height }
    }

    /// The number of bytes of one frame: width times height times the bytes
    /// per pixel.
    pub fn get_buffer_size(&self) -> (n: u32)
        requires
            self.buffer_size_spec() <= u32::MAX,
        ensures
            n == self.buffer_size_spec(),
    {
        proof {
            assert(self.width * self.height <= self.width * self.height * 4) by (nonlinear_arith);
        }
        self.width() * self.height() * COLOR_SIZE
    }

    /// The width in pixels.
    pub fn width(&self) -> (w: u32)
        ensures
            w == self.width_px(),
    {
        self.width
    }

    /// The height in pixels.
    pub fn height(&self) -> (h: u32)
        ensures
            h == self.height_px(),
    {
        self.height
    }
}

} // verus!
