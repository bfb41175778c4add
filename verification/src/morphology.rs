//! Binary morphology with the 3x3 structuring element.

use vstd::prelude::*;
use crate::raster::{cell_index, in_bounds, is_raster, lemma_cell_index, lemma_index_cell, neighbour_pixel, pixel};

verus! {

/// Whether the cell `(x, y)` or one of its eight neighbours is foreground.
/// Neighbours outside the raster count as background.
pub open spec fn dilated_at(mask: Seq<bool>, width: int, height: int, x: int, y: int) -> bool {
    ||| pixel(mask, width, height, x - 1, y - 1)
    ||| pixel(mask, width, height, x, y - 1)
    ||| pixel(mask, width, height, x + 1, y - 1)
    ||| pixel(mask, width, height, x - 1, y)
    ||| pixel(mask, width, height, x, y)
    ||| pixel(mask, width, height, x + 1, y)
    ||| pixel(mask, width, height, x - 1, y + 1)
    ||| pixel(mask, width, height, x, y + 1)
    ||| pixel(mask, width, height, x + 1, y + 1)
}

/// Whether the cell `(x, y)` and all of its eight neighbours are foreground.
/// A neighbour outside the raster counts as background, so a cell on the edge
/// never qualifies.
pub open spec fn eroded_at(mask: Seq<bool>, width: int, height: int, x: int, y: int) -> bool {
    &&& pixel(mask, width, height, x - 1, y - 1)
    &&& pixel(mask, width, height, x, y - 1)
    &&& pixel(mask, width, height, x + 1, y - 1)
    &&& pixel(mask, width, height, x - 1, y)
    &&& pixel(mask, width, height, x, y)
    &&& pixel(mask, width, height, x + 1, y)
    &&& pixel(mask, width, height, x - 1, y + 1)
    &&& pixel(mask, width, height, x, y + 1)
    &&& pixel(mask, width, height, x + 1, y + 1)
}

/// One dilation of `mask`.
pub open spec fn dilate_once(mask: Seq<bool>, width: int, height: int) -> Seq<bool> {
    Seq::new(mask.len(), |i: int| dilated_at(mask, width, height, i % width, i / width))
}

/// One erosion of `mask`.
pub open spec fn erode_once(mask: Seq<bool>, width: int, height: int) -> Seq<bool> {
    Seq::new(mask.len(), |i: int| eroded_at(mask, width, height, i % width, i / width))
}

/// `mask` dilated `iterations` times, each time from the result of the one
/// before.
pub open spec fn dilate(mask: Seq<bool>, width: int, height: int, iterations: nat) -> Seq<bool>
    decreases iterations,
{
    if iterations == 0 {
        mask
    } else {
        dilate_once(dilate(mask, width, height, (iterations - 1) as nat), width, height)
    }
}

/// `mask` eroded `iterations` times, each time from the result of the one
/// before.
pub open spec fn erode(mask: Seq<bool>, width: int, height: int, iterations: nat) -> Seq<bool>
    decreases iterations,
{
    if iterations == 0 {
        mask
    } else {
        erode_once(erode(mask, width, height, (iterations - 1) as nat), width, height)
    }
}

/// Dilating a single foreground cell once gives that cell and its eight
/// neighbours, and nothing at a greater distance.
pub proof fn lemma_dilate_single_cell(
    mask: Seq<bool>,
    width: int,
    height: int,
    cx: int,
    cy: int,
    x: int,
    y: int,
)
    requires
        is_raster(mask, width, height),
        in_bounds(width, height, cx, cy),
        in_bounds(width, height, x, y),
        forall|k: int| 0 <= k < mask.len() ==> (mask[k] <==> k == cy * width + cx),
    ensures
        dilate_once(mask, width, height)[y * width + x] <==> (-1 <= x - cx <= 1 && -1 <= y - cy
            <= 1),
{
    lemma_cell_index(width, height, x, y);
    lemma_cell_index(width, height, cx, cy);
    assert forall|sx: int, sy: int| #[trigger]
        pixel(mask, width, height, sx, sy) <==> (sx == cx && sy == cy) by {
        if in_bounds(width, height, sx, sy) {
            lemma_cell_index(width, height, sx, sy);
        }
    }
}

/// Eroding a single foreground cell once removes it: the result has no
/// foreground.
pub proof fn lemma_erode_single_cell(
    mask: Seq<bool>,
    width: int,
    height: int,
    cx: int,
    cy: int,
    i: int,
)
    requires
        is_raster(mask, width, height),
        in_bounds(width, height, cx, cy),
        forall|k: int| 0 <= k < mask.len() ==> (mask[k] <==> k == cy * width + cx),
        0 <= i < mask.len(),
    ensures
        !erode_once(mask, width, height)[i],
{
    lemma_index_cell(width, height, i);
    let x = i % width;
    let y = i / width;
    lemma_cell_index(width, height, cx, cy);
    if in_bounds(width, height, x + 1, y) {
        lemma_cell_index(width, height, x + 1, y);
    }
    if in_bounds(width, height, x, y) {
        lemma_cell_index(width, height, x, y);
    }
}

/// Eroding once keeps the centre of a solid 3x3 block.
pub proof fn lemma_erode_keeps_block_centre(
    mask: Seq<bool>,
    width: int,
    height: int,
    x: int,
    y: int,
)
    requires
        is_raster(mask, width, height),
        forall|ex: int, ey: int|
            -1 <= ex <= 1 && -1 <= ey <= 1 ==> #[trigger] pixel(mask, width, height, x + ex, y + ey),
    ensures
        in_bounds(width, height, x, y),
        erode_once(mask, width, height)[y * width + x],
{
    assert(pixel(mask, width, height, x + 0, y + 0));
    assert(pixel(mask, width, height, x + (-1), y + (-1)));
    assert(pixel(mask, width, height, x + 0, y + (-1)));
    assert(pixel(mask, width, height, x + 1, y + (-1)));
    assert(pixel(mask, width, height, x + (-1), y + 0));
    assert(pixel(mask, width, height, x + 1, y + 0));
    assert(pixel(mask, width, height, x + (-1), y + 1));
    assert(pixel(mask, width, height, x + 0, y + 1));
    assert(pixel(mask, width, height, x + 1, y + 1));
    lemma_cell_index(width, height, x, y);
}

/// Erosion only removes foreground and dilation only adds it.
pub proof fn lemma_erode_within_dilate(mask: Seq<bool>, width: int, height: int, i: int)
    requires
        is_raster(mask, width, height),
        0 <= i < mask.len(),
    ensures
        erode_once(mask, width, height)[i] ==> mask[i],
        mask[i] ==> dilate_once(mask, width, height)[i],
{
    lemma_index_cell(width, height, i);
}

/// Whether `(x, y)` becomes foreground in one dilation of `mask`.
fn dilated_cell(mask: &[bool], width: usize, height: usize, x: usize, y: usize) -> (b: bool)
    requires
        mask@.len() == width * height,
        x < width,
        y < height,
    ensures
        b == dilated_at(mask@, width as int, height as int, x as int, y as int),
{
    neighbour_pixel(mask, width, height, x, y, -1, -1) || neighbour_pixel(
        mask,
        width,
        height,
        x,
        y,
        0,
        -1,
    ) || neighbour_pixel(mask, width, height, x, y, 1, -1) || neighbour_pixel(
        mask,
        width,
        height,
        x,
        y,
        -1,
        0,
    ) || neighbour_pixel(mask, width, height, x, y, 0, 0) || neighbour_pixel(
        mask,
        width,
        height,
        x,
        y,
        1,
        0,
    ) || neighbour_pixel(mask, width, height, x, y, -1, 1) || neighbour_pixel(
        mask,
        width,
        height,
        x,
        y,
        0,
        1,
    ) || neighbour_pixel(mask, width, height, x, y, 1, 1)
}

/// Whether `(x, y)` stays foreground in one erosion of `mask`.
fn eroded_cell(mask: &[bool], width: usize, height: usize, x: usize, y: usize) -> (b: bool)
    requires
        mask@.len() == width * height,
        x < width,
        y < height,
    ensures
        b == eroded_at(mask@, width as int, height as int, x as int, y as int),
{
    neighbour_pixel(mask, width, height, x, y, -1, -1) && neighbour_pixel(
        mask,
        width,
        height,
        x,
        y,
        0,
        -1,
    ) && neighbour_pixel(mask, width, height, x, y, 1, -1) && neighbour_pixel(
        mask,
        width,
        height,
        x,
        y,
        -1,
        0,
    ) && neighbour_pixel(mask, width, height, x, y, 0, 0) && neighbour_pixel(
        mask,
        width,
        height,
        x,
        y,
        1,
        0,
    ) && neighbour_pixel(mask, width, height, x, y, -1, 1) && neighbour_pixel(
        mask,
        width,
        height,
        x,
        y,
        0,
        1,
    ) && neighbour_pixel(mask, width, height, x, y, 1, 1)
}

/// Writes one dilation (`grow`) or one erosion of `current` into `next`.
fn morph_pass(current: &Vec<bool>, next: &mut Vec<bool>, width: usize, height: usize, grow: bool)
    requires
        current@.len() == width * height,
        old(next)@.len() == current@.len(),
    ensures
        final(next)@ == if grow {
            dilate_once(current@, width as int, height as int)
        } else {
            erode_once(current@, width as int, height as int)
        },
{
    let ghost w = width as int;
    let ghost h = height as int;
    let ghost goal = if grow {
        dilate_once(current@, w, h)
    } else {
        erode_once(current@, w, h)
    };
    let mut y: usize = 0;
    while y < height
        invariant
            y <= height,
            w == width,
            h == height,
            current@.len() == width * height,
            next@.len() == current@.len(),
            goal == if grow {
                dilate_once(current@, w, h)
            } else {
                erode_once(current@, w, h)
            },
            forall|i: int| 0 <= i < y * w ==> next@[i] == goal[i],
        decreases height - y,
    {
        let mut x: usize = 0;
        while x < width
            invariant
                y < height,
                x <= width,
                w == width,
                h == height,
                current@.len() == width * height,
                next@.len() == current@.len(),
                goal == if grow {
                    dilate_once(current@, w, h)
                } else {
                    erode_once(current@, w, h)
                },
                forall|i: int| 0 <= i < y * w + x ==> next@[i] == goal[i],
            decreases width - x,
        {
            let n: usize = current.len();
            assert(width * height == n);
            let idx: usize = cell_index(width, height, x, y);
            proof {
                lemma_cell_index(w, h, x as int, y as int);
            }
            let b: bool = if grow {
                dilated_cell(current.as_slice(), width, height, x, y)
            } else {
                eroded_cell(current.as_slice(), width, height, x, y)
            };
            next.set(idx, b);
            x = x + 1;
        }
        proof {
            assert((y + 1) * w == y * w + w) by (nonlinear_arith);
        }
        y = y + 1;
    }
    proof {
        assert(height * width == width * height) by (nonlinear_arith);
        assert(next@ =~= goal);
    }
}

/// Runs `iterations` passes of dilation (`grow`) or erosion over `binary`,
/// each pass reading the result of the one before.
fn morph(binary: &[bool], width: usize, height: usize, iterations: u32, grow: bool) -> (result: Vec<
    bool,
>)
    requires
        binary@.len() == width * height,
    ensures
        result@ == if grow {
            dilate(binary@, width as int, height as int, iterations as nat)
        } else {
            erode(binary@, width as int, height as int, iterations as nat)
        },
{
    let mut current: Vec<bool> = vstd::slice::slice_to_vec(binary);
    let mut next: Vec<bool> = vec![false; binary.len()];
    let mut done: u32 = 0;
    while done < iterations
        invariant
            done <= iterations,
            binary@.len() == width * height,
            current@.len() == binary@.len(),
            next@.len() == binary@.len(),
            current@ == if grow {
                dilate(binary@, width as int, height as int, done as nat)
            } else {
                erode(binary@, width as int, height as int, done as nat)
            },
        decreases iterations - done,
    {
        morph_pass(&current, &mut next, width, height, grow);
        std::mem::swap(&mut current, &mut next);
        done = done + 1;
    }
    current
}

/// Dilates `binary` `iterations` times with the 3x3 structuring element: in
/// each iteration a cell becomes foreground if it or one of its eight
/// neighbours was foreground after the iteration before. Zero iterations
/// return the mask as it is.
pub fn binary_dilation(binary: &[bool], width: usize, height: usize, iterations: u32) -> (result:
    Vec<bool>)
    requires
        binary@.len() == width * height,
    ensures
        result@ == dilate(binary@, width as int, height as int, iterations as nat),
{
    morph(binary, width, height, iterations, true)
}

/// Erodes `binary` `iterations` times with the 3x3 structuring element: in
/// each iteration a cell stays foreground only if it and all of its eight
/// neighbours were foreground after the iteration before, so cells on the
/// edge of the raster always go. Zero iterations return the mask as it is.
pub fn binary_erosion(binary: &[bool], width: usize, height: usize, iterations: u32) -> (result:
    Vec<bool>)
    requires
        binary@.len() == width * height,
    ensures
        result@ == erode(binary@, width as int, height as int, iterations as nat),
{
    morph(binary, width, height, iterations, false)
}

} // verus!
