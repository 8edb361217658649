use vstd::prelude::*;
use crate::altitude_tile::raster::ColorKind;

verus! {

/// Why a raster failed validation against the expected tile shape.
#[derive(Clone, Copy, Debug, PartialEq, Eq, Structural)]
pub enum NishiokaNagatsuError {
    /// The width or height is not 256 pixels; carries the actual dimensions.
    SizeIsNot256x256Pixels { w: u32, h: u32 },
    /// The channel layout is neither RGB8 nor RGBA8; carries the actual kind.
    ColorTypeIsNotRgb8OrRgba8(ColorKind),
}

} // verus!
