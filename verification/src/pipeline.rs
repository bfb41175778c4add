//! The scoring of one drawing, from the decoded images to the record that is
//! handed back.
//!
//! Scoring runs in two steps. The first, `measure_images`, measures the
//! drawing against the reference. Between the two, the caller evaluates one
//! exponential, which is floating point and therefore not computed here:
//! the chamfer score is `exp` of the negated `chamfer_argument` of the
//! measured overlap. The second, `score_drawing_internal`, turns overlap and
//! chamfer score into the similarity, combines the three measures, and
//! encodes the reference image.

use vstd::prelude::*;
use crate::codec::{encode_grayscale_to_png, has_png_signature, png_bytes};
use crate::error::ScoreError;
use crate::extract::{centered_character, extract_and_center_character};
use crate::gray::{GrayRaster, GrayView};
use crate::rating::{combine_scores, feedback_text, final_score, star_count, Ratio, ScoringResult};
use crate::scoring::{
    accuracy_score, calculate_accuracy_score, calculate_coverage_score,
    calculate_stroke_similarity, combine_similarity, coverage_score, similarity_of,
    stroke_overlap, StrokeOverlap,
};

verus! {

/// What is measured of a drawing against its reference.
#[derive(Clone, Copy, Debug, PartialEq, Eq, Structural)]
pub struct DrawingMeasures {
    /// The share of the reference that the drawing has traced.
    pub coverage: Ratio,
    /// The share of the drawing that stays on the lines.
    pub accuracy: Ratio,
    /// What similarity is computed from; `None` stands for a similarity of 0.
    pub overlap: Option<StrokeOverlap>,
}

/// The record of a scoring together with the reference image as a PNG file.
#[derive(Debug)]
pub struct WasmScoringResult {
    inner: ScoringResult,
    reference_image: Vec<u8>,
}

/// The measures of the drawing `drawn` against `reference`: each image is
/// cropped to its character and centred on the canvas, and the two canvases
/// are compared.
pub open spec fn measures_of(drawn: GrayView, reference: GrayView) -> DrawingMeasures {
    let d = centered_character(drawn);
    let r = centered_character(reference);
    DrawingMeasures {
        coverage: coverage_score(d, r),
        accuracy: accuracy_score(d, r),
        overlap: stroke_overlap(d, r),
    }
}

impl WasmScoringResult {
    /// The record and the reference image that the result holds.
    pub closed spec fn view(self) -> (ScoringResult, Seq<u8>) {
        (self.inner, self.reference_image@)
    }

    /// The score, from 0 to 100.
    pub fn score(&self) -> (score: u8)
        ensures
            score == self.view().0.score,
    {
        self.inner.score
    }

    /// The stars, from 1 to 5.
    pub fn stars(&self) -> (stars: u8)
        ensures
            stars == self.view().0.stars,
    {
        self.inner.stars
    }

    /// The feedback line.
    pub fn feedback(&self) -> (feedback: String)
        ensures
            feedback@ == self.view().0.feedback@,
    {
        self.inner.feedback.clone()
    }

    /// Coverage as a percentage.
    pub fn coverage(&self) -> (coverage: u8)
        ensures
            coverage == self.view().0.coverage,
    {
        self.inner.coverage
    }

    /// Accuracy as a percentage.
    pub fn accuracy(&self) -> (accuracy: u8)
        ensures
            accuracy == self.view().0.accuracy,
    {
        self.inner.accuracy
    }

    /// Similarity as a percentage.
    pub fn similarity(&self) -> (similarity: u8)
        ensures
            similarity == self.view().0.similarity,
    {
        self.inner.similarity
    }

    /// The reference image as a PNG file.
    pub fn reference_image(&self) -> (image: Vec<u8>)
        ensures
            image@ == self.view().1,
    {
        self.reference_image.clone()
    }
}

/// Measures the drawing against the reference: crops and centres both
/// images, and computes coverage, accuracy and the overlap of the strokes.
pub fn measure_images(drawn: &GrayRaster, reference: &GrayRaster) -> (measures: DrawingMeasures)
    ensures
        measures == measures_of(drawn@, reference@),
        measures.coverage.is_share(),
        measures.accuracy.is_share(),
{
    let drawn_processed: Vec<u8> = extract_and_center_character(drawn);
    let reference_processed: Vec<u8> = extract_and_center_character(reference);
    let coverage: Ratio = calculate_coverage_score(
        drawn_processed.as_slice(),
        reference_processed.as_slice(),
    );
    let accuracy: Ratio = calculate_accuracy_score(
        drawn_processed.as_slice(),
        reference_processed.as_slice(),
    );
    let overlap: Option<StrokeOverlap> = calculate_stroke_similarity(
        drawn_processed.as_slice(),
        reference_processed.as_slice(),
    );
    DrawingMeasures { coverage, accuracy, overlap }
}

/// The second step of scoring. The similarity is computed from the measured
/// overlap and its chamfer score; coverage, accuracy and similarity are
/// combined into the record; and the reference image is encoded to go with
/// it. A reference image that the encoder refuses is an encode error.
pub fn score_drawing_internal(
    measures: &DrawingMeasures,
    chamfer_score: Ratio,
    reference_image: &GrayRaster,
) -> (scored: Result<WasmScoringResult, ScoreError>)
    requires
        measures.coverage.well_formed(),
        measures.accuracy.well_formed(),
        chamfer_score.well_formed(),
    ensures
        match scored {
            Ok(result) => {
                let record = result.view().0;
                let similarity = similarity_of(measures.overlap, chamfer_score);
                &&& record.score == final_score(measures.coverage, measures.accuracy, similarity)
                &&& record.stars == star_count(record.score)
                &&& record.feedback@ == feedback_text(record.stars)
                &&& record.coverage == measures.coverage.rounded_percent()
                &&& record.accuracy == measures.accuracy.rounded_percent()
                &&& record.similarity == similarity.rounded_percent()
                &&& png_bytes(
                    reference_image@.pixels,
                    reference_image@.width as u32,
                    reference_image@.height as u32,
                ) == Some(result.view().1)
                &&& has_png_signature(result.view().1)
            },
            Err(error) => error is Encode && png_bytes(
                reference_image@.pixels,
                reference_image@.width as u32,
                reference_image@.height as u32,
            ) is None,
        },
{
    let similarity: Ratio = combine_similarity(measures.overlap, chamfer_score);
    let inner: ScoringResult = combine_scores(measures.coverage, measures.accuracy, similarity);
    match encode_grayscale_to_png(reference_image) {
        Ok(reference_png) => Ok(WasmScoringResult { inner, reference_image: reference_png }),
        Err(error) => Err(error),
    }
}

} // verus!
