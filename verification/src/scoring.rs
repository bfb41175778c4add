//! The three measures that compare a drawing with its reference: coverage,
//! accuracy, and the overlap that stroke similarity is made of.
//!
//! Both images come as grayscale canvases of 128 by 128 cells. Each is
//! turned into a mask of its dark cells and normalised to a stroke 5 pixels
//! thick, the drawing with sanding and the reference without.

use vstd::prelude::*;
use crate::distance::{distance_to_foreground, distance_transform_edt, lemma_field_values, FAR};
use crate::morphology::{binary_dilation, dilate};
use crate::normalize::{normalize_line_thickness, normalized};
use crate::raster::{count_foreground, foreground_count, lemma_count_bounded, lemma_count_within, lemma_count_zero};
use crate::rating::Ratio;

verus! {

/// Width and height of the canvas that both images are compared on.
pub const TARGET_SIZE: u32 = 128;

/// The number of cells of the canvas.
pub const CANVAS_CELLS: usize = 16384;

/// The thickness, in pixels, that both strokes are normalised to.
pub const STROKE_THICKNESS: u32 = 5;

/// The distance, in pixels, within which a reference cell counts as covered.
pub const COVERAGE_TOLERANCE: u32 = 4;

/// The number of dilations that make the zone around the reference in which
/// a drawn cell counts as accurate.
pub const ACCURACY_MARGIN: u32 = 5;

/// Whether a gray value counts as ink: it is darker than half of full
/// intensity.
pub open spec fn is_dark(value: u8) -> bool {
    value < 128
}

/// The mask of the dark cells of a grayscale canvas.
pub open spec fn binarized(gray: Seq<u8>) -> Seq<bool> {
    Seq::new(gray.len(), |i: int| is_dark(gray[i]))
}

/// The normalised stroke of a drawing: 5 pixels thick, sanded.
pub open spec fn drawn_stroke(gray: Seq<u8>) -> Seq<bool> {
    normalized(
        binarized(gray),
        TARGET_SIZE as int,
        TARGET_SIZE as int,
        STROKE_THICKNESS as int,
        true,
    )
}

/// The normalised stroke of a reference: 5 pixels thick, not sanded.
pub open spec fn reference_stroke(gray: Seq<u8>) -> Seq<bool> {
    normalized(
        binarized(gray),
        TARGET_SIZE as int,
        TARGET_SIZE as int,
        STROKE_THICKNESS as int,
        false,
    )
}

/// The cells that are foreground in both masks.
pub open spec fn both(a: Seq<bool>, b: Seq<bool>) -> Seq<bool> {
    Seq::new(a.len(), |i: int| a[i] && b[i])
}

/// The cells that are foreground in at least one of the masks.
pub open spec fn either(a: Seq<bool>, b: Seq<bool>) -> Seq<bool> {
    Seq::new(a.len(), |i: int| a[i] || b[i])
}

/// The cells of `reference` that lie within the coverage tolerance of a
/// foreground cell of `drawn`.
pub open spec fn covered(reference: Seq<bool>, drawn: Seq<bool>) -> Seq<bool> {
    Seq::new(
        reference.len(),
        |i: int|
            reference[i] && distance_to_foreground(
                drawn,
                TARGET_SIZE as int,
                TARGET_SIZE as int,
                i % (TARGET_SIZE as int),
                i / (TARGET_SIZE as int),
            ) <= 1000 * COVERAGE_TOLERANCE,
    )
}

/// The sum, over the first `k` cells that are foreground in `cells`, of the
/// distance from the cell to the foreground of `to`, in thousandths of a
/// pixel.
pub open spec fn distance_sum(cells: Seq<bool>, to: Seq<bool>, k: int) -> int
    decreases k,
{
    if k <= 0 {
        0
    } else {
        distance_sum(cells, to, k - 1) + if cells[k - 1] {
            distance_to_foreground(
                to,
                TARGET_SIZE as int,
                TARGET_SIZE as int,
                (k - 1) % (TARGET_SIZE as int),
                (k - 1) / (TARGET_SIZE as int),
            )
        } else {
            0
        }
    }
}

/// Coverage: the share of the reference stroke that lies within the
/// tolerance of the drawn stroke. It is 0 where either stroke is empty.
pub open spec fn coverage_score(drawn: Seq<u8>, reference: Seq<u8>) -> Ratio {
    let d = drawn_stroke(drawn);
    let r = reference_stroke(reference);
    if foreground_count(r) == 0 || foreground_count(d) == 0 {
        Ratio { num: 0, den: 1 }
    } else {
        Ratio { num: foreground_count(covered(r, d)) as u32, den: foreground_count(r) as u32 }
    }
}

/// Accuracy: the share of the drawn stroke that lies in the zone around the
/// reference stroke. It is 0 where the drawn stroke is empty.
pub open spec fn accuracy_score(drawn: Seq<u8>, reference: Seq<u8>) -> Ratio {
    let d = drawn_stroke(drawn);
    let r = reference_stroke(reference);
    let zone = dilate(r, TARGET_SIZE as int, TARGET_SIZE as int, ACCURACY_MARGIN as nat);
    if foreground_count(d) == 0 {
        Ratio { num: 0, den: 1 }
    } else {
        Ratio { num: foreground_count(both(d, zone)) as u32, den: foreground_count(d) as u32 }
    }
}

/// What stroke similarity is computed from: how the two strokes overlap, and
/// how far each lies from the other.
#[derive(Clone, Copy, Debug, PartialEq, Eq, Structural)]
pub struct StrokeOverlap {
    /// Cells that belong to both strokes.
    pub intersection: u32,
    /// Cells that belong to at least one of the strokes.
    pub union_cells: u32,
    /// Cells of the drawn stroke.
    pub drawn_cells: u32,
    /// Cells of the reference stroke.
    pub reference_cells: u32,
    /// The distances from each drawn cell to the reference stroke, summed,
    /// in thousandths of a pixel.
    pub drawn_to_reference: u64,
    /// The distances from each reference cell to the drawn stroke, summed,
    /// in thousandths of a pixel.
    pub reference_to_drawn: u64,
}

/// The overlap of the two strokes; none where either stroke is empty, which
/// stands for a similarity of 0.
pub open spec fn stroke_overlap(drawn: Seq<u8>, reference: Seq<u8>) -> Option<StrokeOverlap> {
    let d = drawn_stroke(drawn);
    let r = reference_stroke(reference);
    if foreground_count(d) == 0 || foreground_count(r) == 0 {
        None
    } else {
        Some(
            StrokeOverlap {
                intersection: foreground_count(both(d, r)) as u32,
                union_cells: foreground_count(either(d, r)) as u32,
                drawn_cells: foreground_count(d) as u32,
                reference_cells: foreground_count(r) as u32,
                drawn_to_reference: distance_sum(d, r, d.len() as int) as u64,
                reference_to_drawn: distance_sum(r, d, r.len() as int) as u64,
            },
        )
    }
}

/// The parts in which a similarity is handed on: it is a fraction of a
/// million.
pub const SIMILARITY_RESOLUTION: u32 = 1000000;

/// The mean of `sum` over `cells` as a fraction, numerator first; 0 where
/// there is no cell.
pub open spec fn mean_of(sum: u64, cells: u32) -> (int, int) {
    if cells > 0 {
        (sum as int, cells as int)
    } else {
        (0, 1)
    }
}

/// The argument of the exponential decay for an overlap, as a fraction with
/// the numerator first: the chamfer distance divided by a third of 20
/// pixels. The chamfer distance is the mean of the two mean distances, from
/// the drawn stroke to the reference and back, in pixels.
pub open spec fn chamfer_argument_of(overlap: StrokeOverlap) -> (int, int) {
    let there = mean_of(overlap.drawn_to_reference, overlap.drawn_cells);
    let back = mean_of(overlap.reference_to_drawn, overlap.reference_cells);
    (3 * (there.0 * back.1 + back.0 * there.1), 40000 * (there.1 * back.1))
}

/// The weighted sum of intersection over union, at 40 hundredths, and the
/// chamfer score, at 60 hundredths, as a fraction with the numerator first.
/// Without a cell in the union the intersection counts for nothing if it is
/// empty, and for everything if it is not.
pub open spec fn weighted_overlap(overlap: StrokeOverlap, chamfer_score: Ratio) -> (int, int) {
    if overlap.union_cells > 0 {
        (
            2 * (overlap.intersection * chamfer_score.den) + 3 * (chamfer_score.num
                * overlap.union_cells),
            5 * (overlap.union_cells * chamfer_score.den),
        )
    } else if overlap.intersection > 0 {
        (1, 1)
    } else {
        (3 * chamfer_score.num, 5 * chamfer_score.den)
    }
}

/// Stroke similarity: 0 without an overlap to compare; else the weighted sum
/// of intersection over union and chamfer score, cut off at 1, in
/// millionths rounded to the nearest (a half rounds up).
pub open spec fn similarity_of(overlap: Option<StrokeOverlap>, chamfer_score: Ratio) -> Ratio {
    match overlap {
        None => Ratio { num: 0, den: 1 },
        Some(measured) => {
            let (n, d) = weighted_overlap(measured, chamfer_score);
            let parts = (2 * (n * SIMILARITY_RESOLUTION) + d) / (2 * d);
            Ratio {
                num: (if parts > SIMILARITY_RESOLUTION {
                    SIMILARITY_RESOLUTION as int
                } else {
                    parts
                }) as u32,
                den: SIMILARITY_RESOLUTION,
            }
        },
    }
}

/// A canvas without a dark cell has an empty stroke.
pub proof fn lemma_blank_canvas_has_no_stroke(gray: Seq<u8>)
    requires
        forall|i: int| 0 <= i < gray.len() ==> !is_dark(gray[i]),
    ensures
        foreground_count(drawn_stroke(gray)) == 0,
        foreground_count(reference_stroke(gray)) == 0,
{
    lemma_count_zero(binarized(gray));
}

/// A drawing without a dark cell covers nothing and is accurate nowhere,
/// whatever the reference; and it has no overlap to compare, so that its
/// similarity is 0, whatever the chamfer score. The same holds of two
/// canvases that are both without a dark cell.
pub proof fn lemma_blank_drawing_scores_zero(
    drawn: Seq<u8>,
    reference: Seq<u8>,
    chamfer_score: Ratio,
)
    requires
        forall|i: int| 0 <= i < drawn.len() ==> !is_dark(drawn[i]),
    ensures
        coverage_score(drawn, reference).num == 0,
        accuracy_score(drawn, reference).num == 0,
        stroke_overlap(drawn, reference) is None,
        similarity_of(stroke_overlap(drawn, reference), chamfer_score).num == 0,
{
    lemma_blank_canvas_has_no_stroke(drawn);
}

/// The mask of the dark cells of `gray`.
pub fn binarize(gray: &[u8]) -> (mask: Vec<bool>)
    ensures
        mask@ == binarized(gray@),
{
    let mut mask: Vec<bool> = Vec::new();
    let mut i: usize = 0;
    while i < gray.len()
        invariant
            i <= gray.len(),
            mask@.len() == i,
            forall|k: int| 0 <= k < i ==> mask@[k] == is_dark(gray@[k]),
        decreases gray.len() - i,
    {
        mask.push(gray[i] < 128);
        i = i + 1;
    }
    assert(mask@ =~= binarized(gray@));
    mask
}

/// The number of cells that are foreground in both masks, or with `any` in
/// at least one of them.
fn count_combined(a: &[bool], b: &[bool], any: bool) -> (count: usize)
    requires
        a@.len() == b@.len(),
    ensures
        count == foreground_count(if any { either(a@, b@) } else { both(a@, b@) }),
        count <= a@.len(),
{
    let mut combined: Vec<bool> = Vec::new();
    let mut i: usize = 0;
    while i < a.len()
        invariant
            i <= a.len(),
            a@.len() == b@.len(),
            combined@.len() == i,
            forall|k: int|
                0 <= k < i ==> combined@[k] == (if any { a@[k] || b@[k] } else { a@[k] && b@[k] }),
        decreases a.len() - i,
    {
        let cell: bool = if any {
            a[i] || b[i]
        } else {
            a[i] && b[i]
        };
        combined.push(cell);
        i = i + 1;
    }
    proof {
        assert(combined@ =~= (if any { either(a@, b@) } else { both(a@, b@) }));
        lemma_count_bounded(combined@);
    }
    count_foreground(combined.as_slice())
}

/// The distances from the foreground cells of `cells` to the foreground of
/// `to`, summed.
fn sum_distances(cells: &[bool], to: &[bool]) -> (sum: u64)
    requires
        cells@.len() == CANVAS_CELLS,
        to@.len() == CANVAS_CELLS,
    ensures
        sum == distance_sum(cells@, to@, cells@.len() as int),
{
    let size: usize = TARGET_SIZE as usize;
    assert(size * size == CANVAS_CELLS) by (nonlinear_arith)
        requires
            size == 128,
            CANVAS_CELLS == 16384,
    ;
    let field: Vec<u32> = distance_transform_edt(to, size, size);
    proof {
        lemma_field_values(to@, size as int, size as int, field@);
    }
    let mut sum: u64 = 0;
    let mut i: usize = 0;
    while i < CANVAS_CELLS
        invariant
            i <= CANVAS_CELLS,
            cells@.len() == CANVAS_CELLS,
            field@.len() == CANVAS_CELLS,
            forall|k: int|
                0 <= k < CANVAS_CELLS ==> #[trigger] field@[k] == distance_to_foreground(
                    to@,
                    TARGET_SIZE as int,
                    TARGET_SIZE as int,
                    k % (TARGET_SIZE as int),
                    k / (TARGET_SIZE as int),
                ),
            sum == distance_sum(cells@, to@, i as int),
            sum <= i * FAR,
        decreases CANVAS_CELLS - i,
    {
        if cells[i] {
            sum = sum + field[i] as u64;
        }
        i = i + 1;
    }
    sum
}

/// Coverage: how much of the reference the drawing has traced. The result is
/// the share of the cells of the reference stroke that lie within 4 pixels
/// of the drawn stroke, and 0 where either stroke is empty.
pub fn calculate_coverage_score(drawn: &[u8], reference: &[u8]) -> (score: Ratio)
    requires
        drawn@.len() == CANVAS_CELLS,
        reference@.len() == CANVAS_CELLS,
    ensures
        score == coverage_score(drawn@, reference@),
        score.is_share(),
{
    let size: usize = TARGET_SIZE as usize;
    assert(size * size == CANVAS_CELLS) by (nonlinear_arith)
        requires
            size == 128,
            CANVAS_CELLS == 16384,
    ;
    let drawn_binary: Vec<bool> = binarize(drawn);
    let reference_binary: Vec<bool> = binarize(reference);
    let drawn_norm: Vec<bool> = normalize_line_thickness(
        drawn_binary.as_slice(),
        size,
        size,
        STROKE_THICKNESS,
        true,
    );
    let reference_norm: Vec<bool> = normalize_line_thickness(
        reference_binary.as_slice(),
        size,
        size,
        STROKE_THICKNESS,
        false,
    );
    let ref_cells: usize = count_foreground(reference_norm.as_slice());
    if ref_cells == 0 {
        return Ratio::zero();
    }
    let drawn_cells: usize = count_foreground(drawn_norm.as_slice());
    if drawn_cells == 0 {
        return Ratio::zero();
    }
    let field: Vec<u32> = distance_transform_edt(drawn_norm.as_slice(), size, size);
    proof {
        lemma_field_values(drawn_norm@, size as int, size as int, field@);
    }
    let mut reached: Vec<bool> = Vec::new();
    let mut i: usize = 0;
    while i < CANVAS_CELLS
        invariant
            i <= CANVAS_CELLS,
            reference_norm@.len() == CANVAS_CELLS,
            field@.len() == CANVAS_CELLS,
            reached@.len() == i,
            forall|k: int|
                0 <= k < CANVAS_CELLS ==> #[trigger] field@[k] == distance_to_foreground(
                    drawn_norm@,
                    TARGET_SIZE as int,
                    TARGET_SIZE as int,
                    k % (TARGET_SIZE as int),
                    k / (TARGET_SIZE as int),
                ),
            forall|k: int| 0 <= k < i ==> reached@[k] == covered(reference_norm@, drawn_norm@)[k],
        decreases CANVAS_CELLS - i,
    {
        reached.push(reference_norm[i] && field[i] <= 1000 * COVERAGE_TOLERANCE);
        i = i + 1;
    }
    proof {
        assert(reached@ =~= covered(reference_norm@, drawn_norm@));
        lemma_count_within(reached@, reference_norm@);
        lemma_count_bounded(reference_norm@);
    }
    let hit: usize = count_foreground(reached.as_slice());
    Ratio { num: hit as u32, den: ref_cells as u32 }
}

/// Accuracy: how well the drawing stays on the lines. The result is the
/// share of the cells of the drawn stroke that lie in the reference stroke
/// dilated 5 times, and 0 where the drawn stroke is empty.
pub fn calculate_accuracy_score(drawn: &[u8], reference: &[u8]) -> (score: Ratio)
    requires
        drawn@.len() == CANVAS_CELLS,
        reference@.len() == CANVAS_CELLS,
    ensures
        score == accuracy_score(drawn@, reference@),
        score.is_share(),
{
    let size: usize = TARGET_SIZE as usize;
    assert(size * size == CANVAS_CELLS) by (nonlinear_arith)
        requires
            size == 128,
            CANVAS_CELLS == 16384,
    ;
    let drawn_binary: Vec<bool> = binarize(drawn);
    let reference_binary: Vec<bool> = binarize(reference);
    let drawn_norm: Vec<bool> = normalize_line_thickness(
        drawn_binary.as_slice(),
        size,
        size,
        STROKE_THICKNESS,
        true,
    );
    let reference_norm: Vec<bool> = normalize_line_thickness(
        reference_binary.as_slice(),
        size,
        size,
        STROKE_THICKNESS,
        false,
    );
    let drawn_cells: usize = count_foreground(drawn_norm.as_slice());
    if drawn_cells == 0 {
        return Ratio::zero();
    }
    let zone: Vec<bool> = binary_dilation(reference_norm.as_slice(), size, size, ACCURACY_MARGIN);
    proof {
        lemma_dilate_keeps_length(reference_norm@, size as int, size as int, ACCURACY_MARGIN as nat);
    }
    let inside: usize = count_combined(drawn_norm.as_slice(), zone.as_slice(), false);
    proof {
        lemma_count_within(both(drawn_norm@, zone@), drawn_norm@);
        lemma_count_bounded(drawn_norm@);
    }
    Ratio { num: inside as u32, den: drawn_cells as u32 }
}

/// Dilation keeps the number of cells.
proof fn lemma_dilate_keeps_length(mask: Seq<bool>, width: int, height: int, iterations: nat)
    ensures
        dilate(mask, width, height, iterations).len() == mask.len(),
    decreases iterations,
{
    if iterations > 0 {
        lemma_dilate_keeps_length(mask, width, height, (iterations - 1) as nat);
    }
}

/// Measures what stroke similarity is computed from: the cells that the two
/// strokes share and the cells of their union, and for each stroke the sum
/// of the distances from its cells to the other stroke. Where either stroke
/// is empty there is nothing to compare, and the result is `None`: the
/// similarity is then 0.
pub fn calculate_stroke_similarity(drawn: &[u8], reference: &[u8]) -> (overlap: Option<
    StrokeOverlap,
>)
    requires
        drawn@.len() == CANVAS_CELLS,
        reference@.len() == CANVAS_CELLS,
    ensures
        overlap == stroke_overlap(drawn@, reference@),
{
    let size: usize = TARGET_SIZE as usize;
    assert(size * size == CANVAS_CELLS) by (nonlinear_arith)
        requires
            size == 128,
            CANVAS_CELLS == 16384,
    ;
    let drawn_binary: Vec<bool> = binarize(drawn);
    let reference_binary: Vec<bool> = binarize(reference);
    let drawn_norm: Vec<bool> = normalize_line_thickness(
        drawn_binary.as_slice(),
        size,
        size,
        STROKE_THICKNESS,
        true,
    );
    let ref_norm: Vec<bool> = normalize_line_thickness(
        reference_binary.as_slice(),
        size,
        size,
        STROKE_THICKNESS,
        false,
    );
    let drawn_cells: usize = count_foreground(drawn_norm.as_slice());
    let ref_cells: usize = count_foreground(ref_norm.as_slice());
    if drawn_cells == 0 || ref_cells == 0 {
        return None;
    }
    proof {
        lemma_count_bounded(drawn_norm@);
        lemma_count_bounded(ref_norm@);
    }
    let intersection: usize = count_combined(drawn_norm.as_slice(), ref_norm.as_slice(), false);
    let union_cells: usize = count_combined(drawn_norm.as_slice(), ref_norm.as_slice(), true);
    let drawn_to_reference: u64 = sum_distances(drawn_norm.as_slice(), ref_norm.as_slice());
    let reference_to_drawn: u64 = sum_distances(ref_norm.as_slice(), drawn_norm.as_slice());
    Some(
        StrokeOverlap {
            intersection: intersection as u32,
            union_cells: union_cells as u32,
            drawn_cells: drawn_cells as u32,
            reference_cells: ref_cells as u32,
            drawn_to_reference,
            reference_to_drawn,
        },
    )
}

/// A product of a 64-bit and a 32-bit value, or of two 32-bit values, stays
/// far below the 128-bit range.
proof fn lemma_products_fit(a: int, b: int)
    requires
        0 <= a <= 0xffff_ffff_ffff_ffff,
        0 <= b <= 0xffff_ffff,
    ensures
        0 <= a * b <= 0xffff_ffff_ffff_ffff * 0xffff_ffff,
        a > 0 && b > 0 ==> a * b > 0,
{
    assert(0 <= a * b <= 0xffff_ffff_ffff_ffff * 0xffff_ffff && (a > 0 && b > 0 ==> a * b > 0))
        by (nonlinear_arith)
        requires
            0 <= a <= 0xffff_ffff_ffff_ffff,
            0 <= b <= 0xffff_ffff,
    ;
}

/// The argument of the exponential decay that gives the chamfer score: the
/// chamfer distance of the overlap, divided by a third of 20 pixels. It
/// comes as an exact fraction, numerator first, with a denominator above 0;
/// the chamfer score is `exp` of its negative.
pub fn chamfer_argument(overlap: &StrokeOverlap) -> (arg: (u128, u128))
    ensures
        arg.0 == chamfer_argument_of(*overlap).0,
        arg.1 == chamfer_argument_of(*overlap).1,
        arg.1 > 0,
        overlap.drawn_cells > 0 && overlap.reference_cells > 0 ==> arg.0 == 3 * (
        overlap.drawn_to_reference * overlap.reference_cells + overlap.reference_to_drawn
            * overlap.drawn_cells) && arg.1 == 40000 * (overlap.drawn_cells
            * overlap.reference_cells),
{
    let there: (u128, u128) = if overlap.drawn_cells > 0 {
        (overlap.drawn_to_reference as u128, overlap.drawn_cells as u128)
    } else {
        (0, 1)
    };
    let back: (u128, u128) = if overlap.reference_cells > 0 {
        (overlap.reference_to_drawn as u128, overlap.reference_cells as u128)
    } else {
        (0, 1)
    };
    proof {
        lemma_products_fit(there.0 as int, back.1 as int);
        lemma_products_fit(back.0 as int, there.1 as int);
        lemma_products_fit(there.1 as int, back.1 as int);
    }
    (3 * (there.0 * back.1 + back.0 * there.1), 40000 * (there.1 * back.1))
}

/// Stroke similarity from the overlap and its chamfer score: 40 hundredths
/// of intersection over union and 60 hundredths of the chamfer score, cut
/// off at 1. Without an overlap to compare the similarity is 0, whatever the
/// score.
pub fn combine_similarity(overlap: Option<StrokeOverlap>, chamfer_score: Ratio) -> (similarity:
    Ratio)
    requires
        chamfer_score.well_formed(),
    ensures
        similarity == similarity_of(overlap, chamfer_score),
        similarity.is_share(),
        overlap is None ==> similarity.num == 0,
{
    match overlap {
        None => Ratio::zero(),
        Some(measured) => {
            let score_num: u128 = chamfer_score.num as u128;
            let score_den: u128 = chamfer_score.den as u128;
            let shared: u128 = measured.intersection as u128;
            let joint: u128 = measured.union_cells as u128;
            proof {
                lemma_products_fit(shared as int, score_den as int);
                lemma_products_fit(score_num as int, joint as int);
                lemma_products_fit(joint as int, score_den as int);
            }
            let (n, d): (u128, u128) = if joint > 0 {
                (2 * (shared * score_den) + 3 * (score_num * joint), 5 * (joint * score_den))
            } else if shared > 0 {
                (1, 1)
            } else {
                (3 * score_num, 5 * score_den)
            };
            assert(n * SIMILARITY_RESOLUTION <= 5 * (0xffff_ffff_ffff_ffff * 0xffff_ffff) * 1000000)
                by (nonlinear_arith)
                requires
                    0 <= n <= 5 * (0xffff_ffff_ffff_ffff * 0xffff_ffff),
                    SIMILARITY_RESOLUTION == 1000000,
            ;
            let parts: u128 = (2 * (n * (SIMILARITY_RESOLUTION as u128)) + d) / (2 * d);
            let num: u32 = if parts > SIMILARITY_RESOLUTION as u128 {
                SIMILARITY_RESOLUTION
            } else {
                parts as u32
            };
            Ratio { num, den: SIMILARITY_RESOLUTION }
        },
    }
}

} // verus!
