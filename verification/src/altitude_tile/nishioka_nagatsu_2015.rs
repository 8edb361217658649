use vstd::prelude::*;
use vstd::arithmetic::div_mod::{
    lemma_breakdown, lemma_div_is_ordered, lemma_div_multiples_vanish,
    lemma_fundamental_div_mod, lemma_fundamental_div_mod_converse_div,
    lemma_fundamental_div_mod_converse_mod, lemma_mod_division_less_than_divisor,
    lemma_mod_multiples_vanish, lemma_multiply_divide_lt, lemma_small_mod,
};
use crate::altitude_tile::error::NishiokaNagatsuError;
use crate::altitude_tile::raster::{ColorKind, Raster, Rgb};

verus! {

/// One cell of an altitude grid: either the no-data sentinel, or the signed
/// 24-bit integer code that the caller scales by its resolution factor to
/// obtain meters.
#[derive(Clone, Copy, Debug, PartialEq, Eq, Structural)]
pub enum Sample {
    NoData,
    Value(i32),
}

/// The reserved triple (128, 0, 0) marking a cell with no elevation data.
pub open spec fn is_no_data_pixel(p: Rgb) -> bool {
    p.r == 128 && p.g == 0 && p.b == 0
}

/// The 24-bit unsigned big-endian integer held by a pixel's channels.
pub open spec fn code_of(p: Rgb) -> int {
    p.r as int * 0x10000 + p.g as int * 0x100 + p.b as int
}

/// Reads a 24-bit code as a two's-complement signed integer: codes at or
/// above 2^23 stand for negative values.
pub open spec fn signed_of_code(code: int) -> int {
    if code < 0x80_0000 {
        code
    } else {
        code - 0x100_0000
    }
}

/// What decoding one pixel yields.
pub open spec fn decoded_pixel(p: Rgb) -> Sample {
    if is_no_data_pixel(p) {
        Sample::NoData
    } else {
        Sample::Value(signed_of_code(code_of(p)) as i32)
    }
}

/// Decodes one pixel: the sentinel triple yields `NoData`, any other triple
/// the signed value of its 24-bit big-endian code.
pub fn decode_pixel(p: Rgb) -> (s: Sample)
    ensures
        s == decoded_pixel(p),
{
    if p.r == 128 && p.g == 0 && p.b == 0 {
        Sample::NoData
    } else {
        let code: i32 = (p.r as i32) * 0x10000 + (p.g as i32) * 0x100 + (p.b as i32);
        if code < 0x80_0000 {
            Sample::Value(code)
        } else {
            Sample::Value(code - 0x100_0000)
        }
    }
}

/// The low 24 bits of a signed value, as a non-negative integer.
pub open spec fn low24(v: int) -> int {
    v % 0x100_0000
}

/// What encoding one sample yields: the sentinel triple for no-data,
/// otherwise the low 24 bits of the value, big-endian, most-significant
/// byte first, with the sign bit forced into bit 7 of the red byte.
pub open spec fn encoded_pixel(s: Sample) -> Rgb {
    match s {
        Sample::NoData => Rgb { r: 128, g: 0, b: 0 },
        Sample::Value(v) => {
            let u: int = low24(v as int);
            let hi: int = u / 0x10000;
            let top: int = if v < 0 && hi < 128 {
                hi + 128
            } else {
                hi
            };
            Rgb { r: top as u8, g: ((u / 0x100) % 0x100) as u8, b: (u % 0x100) as u8 }
        },
    }
}

/// Encodes one sample into a pixel triple.
pub fn encode_pixel(s: Sample) -> (p: Rgb)
    ensures
        p == encoded_pixel(s),
{
    match s {
        Sample::NoData => Rgb { r: 128, g: 0, b: 0 },
        Sample::Value(v) => {
            // Shifting by 2^31, a multiple of 2^24, moves the value into the
            // non-negative range without changing its low 24 bits, so the
            // unsigned remainder and divisions below match the mathematical
            // ones in `encoded_pixel`.
            let y: u64 = ((v as i64) + 0x8000_0000i64) as u64;
            let u: u64 = y % 0x100_0000;
            let hi: u64 = u / 0x10000;
            proof {
                lemma_mod_multiples_vanish(128, v as int, 0x100_0000);
                assert(0x100_0000int * 128 + v as int == y as int);
                assert(u as int == low24(v as int));
                lemma_mod_division_less_than_divisor(y as int, 0x100_0000);
                lemma_multiply_divide_lt(u as int, 0x10000, 0x100);
                lemma_mod_division_less_than_divisor(u as int / 0x100, 0x100);
                lemma_mod_division_less_than_divisor(u as int, 0x100);
            }
            let top: u8 = if v < 0 && hi < 128 {
                (hi as u8) + 128
            } else {
                hi as u8
            };
            Rgb { r: top, g: ((u / 0x100) % 0x100) as u8, b: (u % 0x100) as u8 }
        },
    }
}

/// Validates the conventional tile shape: 256 by 256 pixels, stored as RGB8
/// or RGBA8. Purely advisory: `decode` and `encode` do not call it and work
/// on any raster shape.
pub fn check(source: &Raster) -> (result: Result<(), NishiokaNagatsuError>)
    ensures
        result.is_ok() <==> source.width == 256 && source.height == 256 && (source.color
            == ColorKind::Rgb8 || source.color == ColorKind::Rgba8),
        source.width != 256 || source.height != 256 ==> result == Err::<(), NishiokaNagatsuError>(
            NishiokaNagatsuError::SizeIsNot256x256Pixels { w: source.width, h: source.height },
        ),
        source.width == 256 && source.height == 256 && source.color != ColorKind::Rgb8
            && source.color != ColorKind::Rgba8 ==> result == Err::<(), NishiokaNagatsuError>(
            NishiokaNagatsuError::ColorTypeIsNotRgb8OrRgba8(source.color),
        ),
{
    if source.width != 256 || source.height != 256 {
        return Err(NishiokaNagatsuError::SizeIsNot256x256Pixels {
            w: source.width,
            h: source.height,
        });
    }
    match source.color {
        ColorKind::Rgb8 | ColorKind::Rgba8 => Ok(()),
        _ => Err(NishiokaNagatsuError::ColorTypeIsNotRgb8OrRgba8(source.color)),
    }
}

/// Decoding a pixel sequence, cell by cell.
pub open spec fn decoded_grid(pixels: Seq<Rgb>) -> Seq<Sample> {
    pixels.map(|i: int, p: Rgb| decoded_pixel(p))
}

/// Encoding a sample sequence, cell by cell.
pub open spec fn encoded_pixels(grid: Seq<Sample>) -> Seq<Rgb> {
    grid.map(|i: int, s: Sample| encoded_pixel(s))
}

/// Decodes a raster into one sample per pixel, preserving the row-major
/// pixel order. Total: every triple other than the sentinel maps to a value.
#[verifier::loop_isolation(false)]
pub fn decode(source: &Raster) -> (result: Vec<Sample>)
    requires
        source.wf(),
    ensures
        result@.len() == source.width as int * source.height as int,
        result@ == decoded_grid(source.pixels@),
{
    let n: usize = source.pixels.len();
    let mut out: Vec<Sample> = Vec::new();
    let mut i: usize = 0;
    while i < n
        invariant
            i <= n,
            out@.len() == i,
            forall|j: int| 0 <= j < i ==> out@[j] == decoded_pixel(source.pixels@[j]),
        decreases n - i,
    {
        out.push(decode_pixel(source.pixels[i]));
        i = i + 1;
    }
    proof {
        assert(out@ =~= decoded_grid(source.pixels@));
    }
    out
}

/// Encodes a sample grid into a raster of the given width, always with the
/// RGB8 layout. The height is the grid length divided by the width, rounding
/// down; remainder cells at the end of the grid are dropped.
#[verifier::loop_isolation(false)]
pub fn encode(source: &Vec<Sample>, width: u32) -> (result: Raster)
    requires
        width > 0,
        source@.len() <= u32::MAX,
    ensures
        result.wf(),
        result.width == width,
        result.height as int == source@.len() as int / width as int,
        result.color == ColorKind::Rgb8,
        result.pixels@ == encoded_pixels(
            source@.take(result.width as int * result.height as int),
        ),
{
    let len32: u32 = source.len() as u32;
    let height: u32 = len32 / width;
    proof {
        lemma_fundamental_div_mod(len32 as int, width as int);
        lemma_mod_division_less_than_divisor(len32 as int, width as int);
        assert(width as int * height as int <= len32 as int);
    }
    let count: usize = (width as usize) * (height as usize);
    let mut pixels: Vec<Rgb> = Vec::new();
    let mut i: usize = 0;
    while i < count
        invariant
            i <= count,
            pixels@.len() == i,
            forall|j: int| 0 <= j < i ==> pixels@[j] == encoded_pixel(source@[j]),
        decreases count - i,
    {
        pixels.push(encode_pixel(source[i]));
        i = i + 1;
    }
    let result = Raster { width, height, color: ColorKind::Rgb8, pixels };
    proof {
        assert(result.pixels@ =~= encoded_pixels(source@.take(count as int)));
    }
    result
}

/// A sample the 24-bit encoding represents exactly: no-data, or a value
/// inside the signed 24-bit range whose code is not the reserved sentinel
/// (which cuts the single value -0x80_0000 off the range).
pub open spec fn in_range(s: Sample) -> bool {
    match s {
        Sample::NoData => true,
        Sample::Value(v) => -0x7F_FFFF <= v <= 0x7F_FFFF,
    }
}

/// The low 24 bits of a value that is itself less than 2^24 in magnitude:
/// the value when it is non-negative, its two's complement otherwise.
proof fn lemma_low24_shift(v: int)
    requires
        -0x100_0000 < v < 0x100_0000,
    ensures
        low24(v) == if v >= 0 {
            v
        } else {
            v + 0x100_0000
        },
{
    if v >= 0 {
        lemma_small_mod(v as nat, 0x100_0000);
    } else {
        lemma_mod_multiples_vanish(1, v, 0x100_0000);
        lemma_small_mod((v + 0x100_0000) as nat, 0x100_0000);
    }
}

/// A 24-bit code is the sum of its three big-endian bytes.
proof fn lemma_byte_recomposition(u: int)
    requires
        0 <= u < 0x100_0000,
    ensures
        u == (u / 0x10000) * 0x10000 + ((u / 0x100) % 0x100) * 0x100 + u % 0x100,
{
    lemma_fundamental_div_mod(u, 0x10000);
    lemma_breakdown(u, 0x100, 0x100);
}

/// Law: decoding inverts encoding on every sample in the representable
/// range; each such sample comes back from its pixel unchanged.
pub proof fn lemma_pixel_round_trip(s: Sample)
    requires
        in_range(s),
    ensures
        decoded_pixel(encoded_pixel(s)) == s,
{
    match s {
        Sample::NoData => {},
        Sample::Value(v) => {
            let u: int = low24(v as int);
            lemma_low24_shift(v as int);
            lemma_byte_recomposition(u);
            lemma_multiply_divide_lt(u, 0x10000, 0x100);
            lemma_mod_division_less_than_divisor(u / 0x100, 0x100);
            lemma_mod_division_less_than_divisor(u, 0x100);
            if v >= 0 {
                lemma_multiply_divide_lt(u, 0x10000, 0x80);
            } else {
                lemma_div_is_ordered(0x80_0000, u, 0x10000);
                lemma_div_multiples_vanish(0x80, 0x10000);
                assert(0x10000int * 0x80 == 0x80_0000);
            }
            let p = encoded_pixel(s);
            assert(code_of(p) == u);
            assert(!is_no_data_pixel(p));
        },
    }
}

/// Law: encoding inverts decoding on every pixel triple whatsoever, so a
/// decoded raster can always be encoded back bit for bit.
pub proof fn lemma_pixel_reencode(p: Rgb)
    ensures
        encoded_pixel(decoded_pixel(p)) == p,
{
    if !is_no_data_pixel(p) {
        let u: int = code_of(p);
        let v: int = signed_of_code(u);
        let rest: int = p.g as int * 0x100 + p.b as int;
        lemma_low24_shift(v);
        lemma_fundamental_div_mod_converse_div(u, 0x10000, p.r as int, rest);
        lemma_fundamental_div_mod_converse_mod(u, 0x10000, p.r as int, rest);
        lemma_breakdown(u, 0x100, 0x100);
        lemma_mod_division_less_than_divisor(u / 0x100, 0x100);
        lemma_mod_division_less_than_divisor(u, 0x100);
        assert((u / 0x100) % 0x100 == p.g as int && u % 0x100 == p.b as int);
        if v < 0 {
            lemma_div_is_ordered(0x80_0000, u, 0x10000);
            lemma_div_multiples_vanish(0x80, 0x10000);
            assert(0x10000int * 0x80 == 0x80_0000);
        }
    }
}

/// Law: every decoded sample lies in the representable range, since the
/// one code outside it is exactly the sentinel.
pub proof fn lemma_decoded_pixel_in_range(p: Rgb)
    ensures
        in_range(decoded_pixel(p)),
{
    if !is_no_data_pixel(p) {
        let u: int = code_of(p);
        let rest: int = p.g as int * 0x100 + p.b as int;
        lemma_fundamental_div_mod_converse_div(u, 0x10000, p.r as int, rest);
        lemma_fundamental_div_mod_converse_mod(u, 0x10000, p.r as int, rest);
        lemma_breakdown(u, 0x100, 0x100);
        lemma_mod_division_less_than_divisor(u / 0x100, 0x100);
        lemma_mod_division_less_than_divisor(u, 0x100);
        if u == 0x80_0000 {
            lemma_div_multiples_vanish(0x80, 0x10000);
            assert(0x10000int * 0x80 == 0x80_0000);
            assert(is_no_data_pixel(p));
        }
    }
}

/// Law: a grid whose samples all lie in the representable range is
/// recovered exactly by decoding its encoding, cell for cell.
pub proof fn lemma_grid_round_trip(grid: Seq<Sample>)
    requires
        forall|i: int| 0 <= i < grid.len() ==> in_range(#[trigger] grid[i]),
    ensures
        decoded_grid(encoded_pixels(grid)) == grid,
{
    let back = decoded_grid(encoded_pixels(grid));
    assert forall|i: int| 0 <= i < grid.len() implies back[i] == grid[i] by {
        lemma_pixel_round_trip(grid[i]);
    }
    assert(back =~= grid);
}

/// Law: any pixel sequence is recovered exactly by encoding its decoding,
/// cell for cell.
pub proof fn lemma_pixels_round_trip(pixels: Seq<Rgb>)
    ensures
        encoded_pixels(decoded_grid(pixels)) == pixels,
{
    let back = encoded_pixels(decoded_grid(pixels));
    assert forall|i: int| 0 <= i < pixels.len() implies back[i] == pixels[i] by {
        lemma_pixel_reencode(pixels[i]);
    }
    assert(back =~= pixels);
}

} // verus!
