//! Character extraction: crops a grayscale image to the box around its ink
//! and rescales that box onto the middle of the comparison canvas.

use vstd::prelude::*;
use vstd::arithmetic::div_mod::lemma_fundamental_div_mod;
use crate::gray::{GrayRaster, GrayView};
use crate::raster::lemma_cell_index;
use crate::scoring::{CANVAS_CELLS, TARGET_SIZE};

verus! {

/// Pixels darker than this count as ink.
pub const INK_THRESHOLD: u8 = 200;

/// The side of the square that the character is fitted into: the canvas less
/// a tenth of padding on every side, rounded down.
pub const AVAILABLE_SIZE: u32 = 102;

/// The value of a canvas cell without ink: white.
pub const BACKGROUND: u8 = 255;

/// Whether the image has ink at `(x, y)`.
pub open spec fn ink_at(image: GrayView, x: int, y: int) -> bool {
    &&& 0 <= x < image.width
    &&& 0 <= y < image.height
    &&& image.pixels[y * image.width + x] < INK_THRESHOLD
}

/// Whether the image has ink at all.
pub open spec fn has_ink(image: GrayView) -> bool {
    exists|x: int, y: int| ink_at(image, x, y)
}

/// A box of pixels, by its first and last column and its first and last row.
pub struct InkBox {
    pub min_x: int,
    pub max_x: int,
    pub min_y: int,
    pub max_y: int,
}

/// Whether `bounds` is the bounding box of the ink: all ink lies inside, and
/// each of its four sides touches ink.
pub open spec fn is_ink_box(image: GrayView, bounds: InkBox) -> bool {
    &&& forall|x: int, y: int| #[trigger]
        ink_at(image, x, y) ==> bounds.min_x <= x <= bounds.max_x && bounds.min_y <= y
            <= bounds.max_y
    &&& exists|y: int| ink_at(image, bounds.min_x, y)
    &&& exists|y: int| ink_at(image, bounds.max_x, y)
    &&& exists|x: int| ink_at(image, x, bounds.min_y)
    &&& exists|x: int| ink_at(image, x, bounds.max_y)
}

/// The length on the canvas of a side of the box that is `extent` pixels
/// long, where the longer side of the box is `longer` pixels long: the box
/// is scaled so that its longer side fills the available square, lengths
/// are rounded down, and no side is shorter than 1.
pub open spec fn scaled_extent(extent: int, longer: int) -> int {
    let scaled = (extent * AVAILABLE_SIZE) / longer;
    if scaled < 1 {
        1
    } else {
        scaled
    }
}

/// The offset in the box that the offset `t` on the canvas is taken from:
/// the nearest source pixel at or before the exact position.
pub open spec fn source_offset(t: int, longer: int) -> int {
    (t * longer) / (AVAILABLE_SIZE as int)
}

/// The value of the canvas cell `(cx, cy)` for the image with the ink box
/// `bounds`. The scaled box lies in the middle of the canvas; a cell inside
/// it holds the value of the source pixel it maps back to, and every other
/// cell is background.
pub open spec fn centered_value(image: GrayView, bounds: InkBox, cx: int, cy: int) -> u8 {
    let box_width = bounds.max_x - bounds.min_x + 1;
    let box_height = bounds.max_y - bounds.min_y + 1;
    let longer = if box_width >= box_height {
        box_width
    } else {
        box_height
    };
    let new_width = scaled_extent(box_width, longer);
    let new_height = scaled_extent(box_height, longer);
    let x_offset = (TARGET_SIZE - new_width) / 2;
    let y_offset = (TARGET_SIZE - new_height) / 2;
    if x_offset <= cx < x_offset + new_width && y_offset <= cy < y_offset + new_height {
        image.pixels[(bounds.min_y + source_offset(cy - y_offset, longer)) * image.width + (
        bounds.min_x + source_offset(cx - x_offset, longer))]
    } else {
        BACKGROUND
    }
}

/// The canvas for the image with the ink box `bounds`.
pub open spec fn centered(image: GrayView, bounds: InkBox) -> Seq<u8> {
    Seq::new(
        CANVAS_CELLS as nat,
        |i: int| centered_value(image, bounds, i % (TARGET_SIZE as int), i / (TARGET_SIZE as int)),
    )
}

/// The bounding box of the ink of an image that has ink.
pub open spec fn ink_box(image: GrayView) -> InkBox {
    choose|bounds: InkBox| is_ink_box(image, bounds)
}

/// The image's character, centred on the canvas: all background where the
/// image has no ink, else the canvas for the bounding box of the ink.
pub open spec fn centered_character(image: GrayView) -> Seq<u8> {
    if has_ink(image) {
        centered(image, ink_box(image))
    } else {
        Seq::new(CANVAS_CELLS as nat, |i: int| BACKGROUND)
    }
}

/// An image has at most one ink box.
pub proof fn lemma_ink_box_unique(image: GrayView, bounds: InkBox)
    requires
        is_ink_box(image, bounds),
    ensures
        has_ink(image),
        ink_box(image) == bounds,
{
    let other = ink_box(image);
    assert(is_ink_box(image, other));
}

/// The canvas of an image without ink is white throughout.
pub proof fn lemma_blank_image_gives_blank_canvas(image: GrayView)
    requires
        !has_ink(image),
    ensures
        centered_character(image).len() == CANVAS_CELLS,
        forall|i: int| 0 <= i < CANVAS_CELLS ==> centered_character(image)[i] == BACKGROUND,
{
}

/// A scaled side is between 1 and the available size, and every offset on
/// it maps back into the box.
pub proof fn lemma_scaled_side(extent: int, longer: int, t: int)
    requires
        1 <= extent <= longer,
        0 <= t < scaled_extent(extent, longer),
    ensures
        1 <= scaled_extent(extent, longer) <= AVAILABLE_SIZE,
        0 <= source_offset(t, longer) < extent,
{
    let scaled = (extent * AVAILABLE_SIZE) / longer;
    lemma_fundamental_div_mod(extent * AVAILABLE_SIZE, longer);
    lemma_fundamental_div_mod(t * longer, AVAILABLE_SIZE as int);
    let q = source_offset(t, longer);
    assert(0 <= scaled <= 102) by (nonlinear_arith)
        requires
            extent * 102 == longer * scaled + (extent * 102) % longer,
            0 <= (extent * 102) % longer < longer,
            1 <= extent <= longer,
    ;
    assert(0 <= q < extent) by (nonlinear_arith)
        requires
            extent * 102 == longer * scaled + (extent * 102) % longer,
            0 <= (extent * 102) % longer < longer,
            t * longer == 102 * q + (t * longer) % 102,
            0 <= (t * longer) % 102 < 102,
            1 <= extent <= longer,
            0 <= t,
            t < scaled || t == 0,
    ;
}

/// Extracts the character from `image` and centres it on the canvas of 128
/// by 128 cells. Pixels darker than 200 are ink. The bounding box of the ink
/// is scaled, both sides alike, so that its longer side fills 102 cells, and
/// placed in the middle of the canvas; each of its cells takes the value of
/// the source pixel that it maps back to. The rest of the canvas is white,
/// and so is all of it where the image has no ink.
pub fn extract_and_center_character(image: &GrayRaster) -> (canvas: Vec<u8>)
    ensures
        canvas@ == centered_character(image@),
        canvas@.len() == CANVAS_CELLS,
{
    let width: u32 = image.width();
    let height: u32 = image.height();
    let pixels: &Vec<u8> = image.as_raw();
    let ghost view = image@;
    let ghost w = width as int;
    let ghost h = height as int;

    let mut min_x: u32 = width;
    let mut max_x: u32 = 0;
    let mut min_y: u32 = height;
    let mut max_y: u32 = 0;
    let mut has_content: bool = false;
    let ghost mut at_min_x: int = 0;
    let ghost mut at_max_x: int = 0;
    let ghost mut at_min_y: int = 0;
    let ghost mut at_max_y: int = 0;

    let mut y: u32 = 0;
    while y < height
        invariant
            y <= height,
            view == image@,
            w == width,
            h == height,
            view.width == w,
            view.height == h,
            pixels@ == view.pixels,
            pixels@.len() == w * h,
            forall|cx: int, cy: int| #[trigger]
                ink_at(view, cx, cy) && cy < y ==> has_content && min_x <= cx <= max_x && min_y
                    <= cy <= max_y,
            has_content ==> ink_at(view, min_x as int, at_min_x) && ink_at(
                view,
                max_x as int,
                at_max_x,
            ) && ink_at(view, at_min_y, min_y as int) && ink_at(view, at_max_y, max_y as int),
        decreases height - y,
    {
        let mut x: u32 = 0;
        while x < width
            invariant
                y < height,
                x <= width,
                view == image@,
                w == width,
                h == height,
                view.width == w,
                view.height == h,
                pixels@ == view.pixels,
                pixels@.len() == w * h,
                forall|cx: int, cy: int| #[trigger]
                    ink_at(view, cx, cy) && (cy < y || (cy == y && cx < x)) ==> has_content
                        && min_x <= cx <= max_x && min_y <= cy <= max_y,
                has_content ==> ink_at(view, min_x as int, at_min_x) && ink_at(
                    view,
                    max_x as int,
                    at_max_x,
                ) && ink_at(view, at_min_y, min_y as int) && ink_at(view, at_max_y, max_y as int),
            decreases width - x,
        {
            proof {
                lemma_cell_index(w, h, x as int, y as int);
            }
            let n: usize = pixels.len();
            let index: usize = (y as usize) * (width as usize) + (x as usize);
            if pixels[index] < INK_THRESHOLD {
                assert(ink_at(view, x as int, y as int));
                if !has_content || x < min_x {
                    min_x = x;
                    proof {
                        at_min_x = y as int;
                    }
                }
                if !has_content || x > max_x {
                    max_x = x;
                    proof {
                        at_max_x = y as int;
                    }
                }
                if !has_content || y < min_y {
                    min_y = y;
                    proof {
                        at_min_y = x as int;
                    }
                }
                if !has_content || y > max_y {
                    max_y = y;
                    proof {
                        at_max_y = x as int;
                    }
                }
                has_content = true;
            }
            x = x + 1;
        }
        y = y + 1;
    }

    let mut canvas: Vec<u8> = vec![BACKGROUND; CANVAS_CELLS];
    if !has_content {
        proof {
            assert forall|cx: int, cy: int| !ink_at(view, cx, cy) by {
                if ink_at(view, cx, cy) {
                    assert(cy < y);
                }
            }
            assert(canvas@ =~= centered_character(view));
        }
        return canvas;
    }
    let ghost bounds = InkBox {
        min_x: min_x as int,
        max_x: max_x as int,
        min_y: min_y as int,
        max_y: max_y as int,
    };
    proof {
        assert(is_ink_box(view, bounds)) by {
            assert forall|cx: int, cy: int| #[trigger] ink_at(view, cx, cy) implies bounds.min_x
                <= cx <= bounds.max_x && bounds.min_y <= cy <= bounds.max_y by {
                assert(cy < y);
            }
        }
        assert(has_ink(view));
    }

    proof {
        assert(ink_at(view, min_x as int, at_min_x) && ink_at(view, at_min_y, min_y as int));
        assert(min_x <= max_x < width && min_y <= max_y < height);
    }
    let box_width: u64 = (max_x - min_x) as u64 + 1;
    let box_height: u64 = (max_y - min_y) as u64 + 1;
    let longer: u64 = if box_width >= box_height {
        box_width
    } else {
        box_height
    };
    assert(box_width * AVAILABLE_SIZE <= 0x1_0000_0000 * 102 && box_height * AVAILABLE_SIZE
        <= 0x1_0000_0000 * 102) by (nonlinear_arith)
        requires
            box_width <= 0x1_0000_0000,
            box_height <= 0x1_0000_0000,
            AVAILABLE_SIZE == 102,
    ;
    let scaled_width: u64 = box_width * (AVAILABLE_SIZE as u64) / longer;
    let scaled_height: u64 = box_height * (AVAILABLE_SIZE as u64) / longer;
    let new_width: u64 = if scaled_width < 1 {
        1
    } else {
        scaled_width
    };
    let new_height: u64 = if scaled_height < 1 {
        1
    } else {
        scaled_height
    };
    proof {
        lemma_scaled_side(box_width as int, longer as int, 0);
        lemma_scaled_side(box_height as int, longer as int, 0);
    }
    let x_offset: u64 = (TARGET_SIZE as u64 - new_width) / 2;
    let y_offset: u64 = (TARGET_SIZE as u64 - new_height) / 2;
    let ghost goal = centered(view, bounds);

    let mut ty: u64 = 0;
    while ty < new_height
        invariant
            ty <= new_height,
            view == image@,
            view.width == width,
            view.height == height,
            pixels@ == view.pixels,
            pixels@.len() == width * height,
            bounds == (InkBox {
                min_x: min_x as int,
                max_x: max_x as int,
                min_y: min_y as int,
                max_y: max_y as int,
            }),
            min_x <= max_x < width,
            min_y <= max_y < height,
            box_width == max_x - min_x + 1,
            box_height == max_y - min_y + 1,
            longer == (if box_width >= box_height { box_width } else { box_height }),
            new_width == scaled_extent(box_width as int, longer as int),
            new_height == scaled_extent(box_height as int, longer as int),
            1 <= new_width <= 102,
            1 <= new_height <= 102,
            x_offset == (TARGET_SIZE - new_width) / 2,
            y_offset == (TARGET_SIZE - new_height) / 2,
            goal == centered(view, bounds),
            canvas@.len() == CANVAS_CELLS,
            forall|i: int|
                0 <= i < CANVAS_CELLS ==> canvas@[i] == (if i / 128 < y_offset + ty {
                    goal[i]
                } else {
                    BACKGROUND
                }),
        decreases new_height - ty,
    {
        proof {
            lemma_scaled_side(box_height as int, longer as int, ty as int);
        }
        let sy: u64 = min_y as u64 + ty * longer / (AVAILABLE_SIZE as u64);
        let mut tx: u64 = 0;
        while tx < new_width
            invariant
                ty < new_height,
                tx <= new_width,
                view == image@,
                view.width == width,
                view.height == height,
                pixels@ == view.pixels,
                pixels@.len() == width * height,
                bounds == (InkBox {
                    min_x: min_x as int,
                    max_x: max_x as int,
                    min_y: min_y as int,
                    max_y: max_y as int,
                }),
                min_x <= max_x < width,
                min_y <= max_y < height,
                box_width == max_x - min_x + 1,
                box_height == max_y - min_y + 1,
                longer == (if box_width >= box_height { box_width } else { box_height }),
                new_width == scaled_extent(box_width as int, longer as int),
                new_height == scaled_extent(box_height as int, longer as int),
                1 <= new_width <= 102,
                1 <= new_height <= 102,
                x_offset == (TARGET_SIZE - new_width) / 2,
                y_offset == (TARGET_SIZE - new_height) / 2,
                sy == min_y + source_offset(ty as int, longer as int),
                min_y <= sy <= max_y,
                goal == centered(view, bounds),
                canvas@.len() == CANVAS_CELLS,
                forall|i: int|
                    0 <= i < CANVAS_CELLS ==> canvas@[i] == (if i / 128 < y_offset + ty || (i / 128
                        == y_offset + ty && x_offset <= i % 128 < x_offset + tx) {
                        goal[i]
                    } else {
                        BACKGROUND
                    }),
            decreases new_width - tx,
        {
            proof {
                lemma_scaled_side(box_width as int, longer as int, tx as int);
            }
            let sx: u64 = min_x as u64 + tx * longer / (AVAILABLE_SIZE as u64);
            proof {
                lemma_cell_index(width as int, height as int, sx as int, sy as int);
            }
            let n: usize = pixels.len();
            let source: usize = (sy as usize) * (width as usize) + (sx as usize);
            let target: usize = ((y_offset + ty) * 128 + (x_offset + tx)) as usize;
            canvas.set(target, pixels[source]);
            tx = tx + 1;
        }
        ty = ty + 1;
    }
    proof {
        assert(canvas@ =~= goal);
        lemma_ink_box_unique(view, bounds);
    }
    canvas
}

} // verus!
