//! The reference image: a rasterised glyph, placed on a white square canvas
//! and encoded as a PNG file.
//!
//! Rasterising the glyph from a font is not done here. The library decides
//! where the glyph goes, composes the canvas from the glyph's pixels, and
//! encodes it.

use vstd::prelude::*;
use vstd::string::StrSliceExecFns;
use crate::codec::{encode_grayscale_to_png, has_png_signature, png_bytes};
use crate::error::ScoreError;
use crate::gray::{GrayRaster, GrayView};
use crate::raster::lemma_cell_index;

verus! {

/// A rasterised glyph and where it goes: `(min_x, min_y)` is the canvas
/// position of its top-left pixel. Its pixels hold 255 where the glyph
/// leaves the canvas white and 0 where it covers it fully.
#[derive(Debug)]
pub struct PlacedGlyph {
    pub min_x: i32,
    pub min_y: i32,
    pub pixels: GrayRaster,
}

/// Half of `d`, rounded towards zero.
pub open spec fn half_toward_zero(d: int) -> int {
    if d >= 0 {
        d / 2
    } else {
        -((-d) / 2)
    }
}

/// Where the origin of a glyph has to go, along one axis, for the glyph to
/// sit in the middle of a canvas of `size` pixels. At the origin 0 the
/// glyph's pixels range from `min` to `max`.
pub open spec fn centered_origin(size: int, min: int, max: int) -> int {
    half_toward_zero(size - (max - min)) - min
}

/// The value of the canvas pixel `(px, py)`: that of the glyph pixel which
/// lies there, or white where none does.
pub open spec fn reference_pixel(glyph: Option<(int, int, GrayView)>, px: int, py: int) -> u8 {
    match glyph {
        Some((min_x, min_y, pixels)) => {
            if min_x <= px < min_x + pixels.width && min_y <= py < min_y + pixels.height {
                pixels.pixels[(py - min_y) * pixels.width + (px - min_x)]
            } else {
                255u8
            }
        },
        None => 255u8,
    }
}

/// The canvas of `size` by `size` pixels with the glyph on it. Parts of the
/// glyph that lie outside the canvas are cut off.
pub open spec fn reference_canvas(size: u32, glyph: Option<(int, int, GrayView)>) -> GrayView {
    GrayView {
        width: size as int,
        height: size as int,
        pixels: Seq::new(
            (size * size) as nat,
            |i: int| reference_pixel(glyph, i % (size as int), i / (size as int)),
        ),
    }
}

/// What the contracts see of a glyph.
pub open spec fn placed(glyph: Option<&PlacedGlyph>) -> Option<(int, int, GrayView)> {
    match glyph {
        Some(g) => Some((g.min_x as int, g.min_y as int, g.pixels@)),
        None => None,
    }
}

/// The first character of `character`, which is the one that is scored; the
/// rest of the string is ignored. An empty string is an error.
pub fn target_character(character: &str) -> (first: Result<char, ScoreError>)
    ensures
        character@.len() > 0 ==> first == Ok::<char, ScoreError>(character@[0]),
        character@.len() == 0 ==> first == Err::<char, ScoreError>(ScoreError::EmptyCharacter),
{
    if character.unicode_len() == 0 {
        Err(ScoreError::EmptyCharacter)
    } else {
        Ok(character.get_char(0))
    }
}

/// Where the origin of a glyph has to go, along one axis, to centre the
/// glyph on a canvas of `size` pixels: half of what the canvas has left over
/// beside the glyph, rounded towards zero, less the glyph's own start.
pub fn centering_offset(size: u32, min: i32, max: i32) -> (offset: i64)
    ensures
        offset == centered_origin(size as int, min as int, max as int),
{
    let spare: i64 = size as i64 - (max as i64 - min as i64);
    let half: i64 = if spare >= 0 {
        spare / 2
    } else {
        -((-spare) / 2)
    };
    half - min as i64
}

/// Composes the reference canvas: white, with the glyph's pixels copied to
/// their place. Glyph pixels that fall outside the canvas are left out.
pub fn render_reference(size: u32, glyph: Option<&PlacedGlyph>) -> (canvas: GrayRaster)
    requires
        size * size <= usize::MAX,
    ensures
        canvas@ == reference_canvas(size, placed(glyph)),
{
    let cells: usize = (size as usize) * (size as usize);
    let mut pixels: Vec<u8> = vec![255u8; cells];
    let ghost s = size as int;
    match glyph {
        Some(g) => {
            let glyph_width: u32 = g.pixels.width();
            let glyph_height: u32 = g.pixels.height();
            let ghost spec_glyph = placed(glyph);
            let mut y: u32 = 0;
            while y < glyph_height
                invariant
                    y <= glyph_height,
                    s == size,
                    cells == size * size,
                    pixels@.len() == cells,
                    glyph_width == g.pixels@.width,
                    glyph_height == g.pixels@.height,
                    spec_glyph == Some((g.min_x as int, g.min_y as int, g.pixels@)),
                    forall|i: int|
                        0 <= i < cells ==> pixels@[i] == (if i / s < g.min_y + y {
                            reference_pixel(spec_glyph, i % s, i / s)
                        } else {
                            255u8
                        }),
                decreases glyph_height - y,
            {
                let py: i64 = y as i64 + g.min_y as i64;
                let mut x: u32 = 0;
                while x < glyph_width
                    invariant
                        y < glyph_height,
                        x <= glyph_width,
                        s == size,
                        cells == size * size,
                        pixels@.len() == cells,
                        glyph_width == g.pixels@.width,
                        glyph_height == g.pixels@.height,
                        py == y + g.min_y,
                        spec_glyph == Some((g.min_x as int, g.min_y as int, g.pixels@)),
                        forall|i: int|
                            0 <= i < cells ==> pixels@[i] == (if i / s < py || (i / s == py && i % s
                                < g.min_x + x) {
                                reference_pixel(spec_glyph, i % s, i / s)
                            } else {
                                255u8
                            }),
                    decreases glyph_width - x,
                {
                    let px: i64 = x as i64 + g.min_x as i64;
                    if px >= 0 && px < size as i64 && py >= 0 && py < size as i64 {
                        let value: u8 = g.pixels.get_pixel(x, y);
                        proof {
                            lemma_cell_index(s, s, px as int, py as int);
                        }
                        let target: usize = (py as usize) * (size as usize) + (px as usize);
                        let ghost before = pixels@;
                        pixels.set(target, value);
                        proof {
                            assert forall|i: int| 0 <= i < cells implies pixels@[i] == (if i / s
                                < py || (i / s == py && i % s < g.min_x + x + 1) {
                                reference_pixel(spec_glyph, i % s, i / s)
                            } else {
                                255u8
                            }) by {
                                if i != target {
                                    assert(pixels@[i] == before[i]);
                                    crate::raster::lemma_index_cell(s, s, i);
                                }
                            }
                        }
                    } else {
                        proof {
                            assert forall|i: int| 0 <= i < cells implies pixels@[i] == (if i / s
                                < py || (i / s == py && i % s < g.min_x + x + 1) {
                                reference_pixel(spec_glyph, i % s, i / s)
                            } else {
                                255u8
                            }) by {
                                crate::raster::lemma_index_cell(s, s, i);
                            }
                        }
                    }
                    x = x + 1;
                }
                proof {
                    assert forall|i: int| 0 <= i < cells implies pixels@[i] == (if i / s < g.min_y
                        + y + 1 {
                        reference_pixel(spec_glyph, i % s, i / s)
                    } else {
                        255u8
                    }) by {
                        crate::raster::lemma_index_cell(s, s, i);
                    }
                }
                y = y + 1;
            }
            proof {
                assert forall|i: int| 0 <= i < cells implies pixels@[i] == reference_pixel(
                    spec_glyph,
                    i % s,
                    i / s,
                ) by {
                    crate::raster::lemma_index_cell(s, s, i);
                }
            }
        },
        None => {},
    }
    proof {
        assert(pixels@ =~= reference_canvas(size, placed(glyph)).pixels);
    }
    let canvas: Option<GrayRaster> = GrayRaster::new(size, size, pixels);
    canvas.unwrap()
}

/// Generates the reference image as a PNG file: the glyph on a white canvas
/// of `size` by `size` pixels. A file that comes out begins with the PNG
/// signature. A size of 0 is refused.
pub fn generate_reference_image_internal(size: u32, glyph: Option<&PlacedGlyph>) -> (encoded:
    Result<Vec<u8>, ScoreError>)
    requires
        size * size <= usize::MAX,
    ensures
        match encoded {
            Ok(bytes) => png_bytes(reference_canvas(size, placed(glyph)).pixels, size, size)
                == Some(bytes@) && has_png_signature(bytes@),
            Err(error) => error is Encode && png_bytes(
                reference_canvas(size, placed(glyph)).pixels,
                size,
                size,
            ) is None,
        },
        size == 0 ==> encoded is Err,
{
    let canvas: GrayRaster = render_reference(size, glyph);
    encode_grayscale_to_png(&canvas)
}

} // verus!
