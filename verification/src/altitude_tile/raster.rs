use vstd::prelude::*;

verus! {

/// One pixel's red, green and blue channels, 8 bits each.
#[derive(Clone, Copy, Debug, PartialEq, Eq, Structural)]
pub struct Rgb {
    pub r: u8,
    pub g: u8,
    pub b: u8,
}

/// The channel layout a raster was stored with, as reported by the image
/// source. The codec itself only distinguishes `Rgb8` and `Rgba8` from the
/// rest; the other kinds exist so a validator can report exactly what it saw.
#[derive(Clone, Copy, Debug, PartialEq, Eq, Structural)]
pub enum ColorKind {
    L8,
    La8,
    Rgb8,
    Rgba8,
    L16,
    La16,
    Rgb16,
    Rgba16,
    Rgb32F,
    Rgba32F,
}

/// An in-memory raster: dimensions, channel layout, and one RGB triple per
/// pixel in row-major order (pixel index = row * width + column). An alpha
/// channel, when the source had one, is dropped before the raster is built:
/// the codec neither reads nor writes it.
#[derive(Debug)]
pub struct Raster {
    pub width: u32,
    pub height: u32,
    pub color: ColorKind,
    pub pixels: Vec<Rgb>,
}

impl Raster {
    /// A raster is well formed when it holds exactly one pixel per cell.
    pub open spec fn wf(self) -> bool {
        self.pixels@.len() == self.width as int * self.height as int
    }

    /// Builds a raster, refusing a pixel vector whose length does not match
    /// the dimensions.
    pub fn new(width: u32, height: u32, color: ColorKind, pixels: Vec<Rgb>) -> (result: Option<
        Raster,
    >)
        ensures
            match result {
                Some(raster) => raster.wf() && raster.width == width && raster.height == height
                    && raster.color == color && raster.pixels@ == pixels@,
                None => pixels@.len() != width as int * height as int,
            },
    {
        proof {
            assert((width as int) * (height as int) <= 0xFFFF_FFFFint * 0xFFFF_FFFFint)
                by (nonlinear_arith)
                requires
                    0 <= width as int <= 0xFFFF_FFFFint,
                    0 <= height as int <= 0xFFFF_FFFFint,
            ;
        }
        let cells: u64 = (width as u64) * (height as u64);
        if (pixels.len() as u64) == cells {
            Some(Raster { width, height, color, pixels })
        } else {
            None
        }
    }
}

} // verus!
