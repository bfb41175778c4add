use wasm_scoring::codec::{decode_drawing, encode_grayscale_to_png};
use wasm_scoring::error::ScoreError;
use wasm_scoring::extract::extract_and_center_character;
use wasm_scoring::gray::GrayRaster;
use wasm_scoring::normalize::normalize_line_thickness;
use wasm_scoring::pipeline::{measure_images, score_drawing_internal};
use wasm_scoring::rating::{combine_scores, get_star_rating, Ratio};
use wasm_scoring::reference::{
    centering_offset, generate_reference_image_internal, render_reference, target_character,
    PlacedGlyph,
};
use wasm_scoring::scoring::{
    binarize, calculate_accuracy_score, calculate_coverage_score, calculate_stroke_similarity,
    chamfer_argument, combine_similarity, StrokeOverlap, TARGET_SIZE,
};

fn as_f32(ratio: Ratio) -> f32 {
    ratio.num as f32 / ratio.den as f32
}

/// The chamfer score of an overlap, as a fraction of a million: the
/// exponential of the negated decay argument.
fn chamfer_score(overlap: Option<StrokeOverlap>) -> Ratio {
    let score = match overlap {
        Some(m) => {
            let (num, den) = chamfer_argument(&m);
            (-(num as f32 / den as f32)).exp()
        }
        None => 0.0,
    };
    Ratio { num: (score * 1_000_000.0).round() as u32, den: 1_000_000 }
}

/// Similarity from the measured overlap: 40% intersection over union, 60%
/// exponential decay of the mean symmetric distance.
fn similarity(overlap: Option<StrokeOverlap>) -> f32 {
    as_f32(combine_similarity(overlap, chamfer_score(overlap)))
}

fn striped() -> Vec<u8> {
    (0..TARGET_SIZE * TARGET_SIZE)
        .map(|i| if i % 10 == 0 { 0 } else { 255 })
        .collect()
}

fn white() -> Vec<u8> {
    vec![255; (TARGET_SIZE * TARGET_SIZE) as usize]
}

#[test]
fn test_get_star_rating_5_stars() {
    let (stars, feedback) = get_star_rating(100);
    assert_eq!(stars, 5);
    assert_eq!(feedback, "Amazing! Perfect!");

    let (stars, feedback) = get_star_rating(80);
    assert_eq!(stars, 5);
    assert_eq!(feedback, "Amazing! Perfect!");
}

#[test]
fn test_get_star_rating_4_stars() {
    let (stars, feedback) = get_star_rating(79);
    assert_eq!(stars, 4);
    assert_eq!(feedback, "Great job!");

    let (stars, feedback) = get_star_rating(65);
    assert_eq!(stars, 4);
    assert_eq!(feedback, "Great job!");
}

#[test]
fn test_get_star_rating_3_stars() {
    let (stars, feedback) = get_star_rating(64);
    assert_eq!(stars, 3);
    assert_eq!(feedback, "Good work!");

    let (stars, feedback) = get_star_rating(50);
    assert_eq!(stars, 3);
    assert_eq!(feedback, "Good work!");
}

#[test]
fn test_get_star_rating_2_stars() {
    let (stars, feedback) = get_star_rating(49);
    assert_eq!(stars, 2);
    assert_eq!(feedback, "Nice try!");

    let (stars, feedback) = get_star_rating(30);
    assert_eq!(stars, 2);
    assert_eq!(feedback, "Nice try!");
}

#[test]
fn test_get_star_rating_1_star() {
    let (stars, feedback) = get_star_rating(29);
    assert_eq!(stars, 1);
    assert_eq!(feedback, "Keep practicing!");

    let (stars, feedback) = get_star_rating(0);
    assert_eq!(stars, 1);
    assert_eq!(feedback, "Keep practicing!");
}

#[test]
fn star_rating_is_total_and_monotone_up_to_100() {
    let mut last = 1;
    for score in 0..=100u8 {
        let (stars, _) = get_star_rating(score);
        assert!(stars >= last && stars <= 5);
        last = stars;
    }
    assert_eq!(get_star_rating(101).0, 1);
    assert_eq!(get_star_rating(255).0, 1);
}

#[test]
fn test_extract_and_center_character_empty() {
    // All white image (no drawing)
    let img = GrayRaster::from_pixel(100, 100, 255u8).unwrap();
    let result = extract_and_center_character(&img);

    // Should return all white
    assert_eq!(result.len(), (TARGET_SIZE * TARGET_SIZE) as usize);
    assert!(result.iter().all(|&v| v as f32 / 255.0 == 1.0));
}

#[test]
fn test_extract_and_center_character_with_content() {
    // Create image with a black square in the center
    let mut pixels = vec![255u8; 100 * 100];
    for y in 40..60 {
        for x in 40..60 {
            pixels[y * 100 + x] = 0;
        }
    }
    let img = GrayRaster::new(100, 100, pixels).unwrap();

    let result = extract_and_center_character(&img);

    // Should have some dark pixels (< 0.5)
    let dark_count = result.iter().filter(|&&v| (v as f32 / 255.0) < 0.5).count();
    assert!(dark_count > 0);
}

#[test]
fn extract_scales_a_square_to_the_available_size() {
    let mut pixels = vec![255u8; 100 * 100];
    for y in 40..60 {
        for x in 40..60 {
            pixels[y * 100 + x] = 0;
        }
    }
    let img = GrayRaster::new(100, 100, pixels).unwrap();
    let result = extract_and_center_character(&img);
    // 20 pixels are scaled to 102 cells, from cell 13 to cell 114
    for cy in 0..128 {
        for cx in 0..128 {
            let inside = (13..115).contains(&cx) && (13..115).contains(&cy);
            assert_eq!(result[cy * 128 + cx], if inside { 0 } else { 255 });
        }
    }
}

#[test]
fn extract_keeps_the_aspect_ratio_and_the_gray_values() {
    // a bar of 40 by 10 pixels with two gray values, on a 50x30 image
    let mut pixels = vec![255u8; 50 * 30];
    for y in 5..15 {
        for x in 3..43 {
            pixels[y * 50 + x] = if x < 23 { 10 } else { 150 };
        }
    }
    let img = GrayRaster::new(50, 30, pixels).unwrap();
    let result = extract_and_center_character(&img);
    // scaled to 102 by 25 cells, at (13, 51)
    let dark: usize = result.iter().filter(|&&v| v != 255).count();
    assert_eq!(dark, 102 * 25);
    assert_eq!(result[51 * 128 + 13], 10);
    assert_eq!(result[75 * 128 + 114], 150);
    assert_eq!(result[50 * 128 + 13], 255);
    assert_eq!(result[76 * 128 + 13], 255);
    assert_eq!(result[51 * 128 + 12], 255);
    assert_eq!(result[51 * 128 + 115], 255);
    // cell 50 of 102 maps back to source pixel 3 + 50 * 40 / 102 = 22
    assert_eq!(result[60 * 128 + 13 + 50], 10);
    assert_eq!(result[60 * 128 + 13 + 51], 150);
}

#[test]
fn extract_of_a_single_pixel_fills_the_available_square() {
    let mut pixels = vec![255u8; 9];
    pixels[4] = 199;
    let img = GrayRaster::new(3, 3, pixels).unwrap();
    let result = extract_and_center_character(&img);
    let dark: usize = result.iter().filter(|&&v| v == 199).count();
    assert_eq!(dark, 102 * 102);
    // 200 is no ink any more
    let mut pixels = vec![255u8; 9];
    pixels[4] = 200;
    let img = GrayRaster::new(3, 3, pixels).unwrap();
    assert!(extract_and_center_character(&img).iter().all(|&v| v == 255));
}

#[test]
fn extract_of_an_image_without_pixels_is_white() {
    let img = GrayRaster::new(0, 0, Vec::new()).unwrap();
    let result = extract_and_center_character(&img);
    assert_eq!(result.len(), 128 * 128);
    assert!(result.iter().all(|&v| v == 255));
}

#[test]
fn gray_raster_checks_its_size() {
    assert!(GrayRaster::new(3, 2, vec![0; 6]).is_some());
    assert!(GrayRaster::new(3, 2, vec![0; 5]).is_none());
    assert!(GrayRaster::new(3, 2, vec![0; 7]).is_none());
    let img = GrayRaster::new(3, 2, vec![1, 2, 3, 4, 5, 6]).unwrap();
    assert_eq!(img.width(), 3);
    assert_eq!(img.height(), 2);
    assert_eq!(img.get_pixel(2, 0), 3);
    assert_eq!(img.get_pixel(0, 1), 4);
    assert_eq!(img.as_raw(), &vec![1, 2, 3, 4, 5, 6]);
    let flat = GrayRaster::from_pixel(4, 2, 9).unwrap();
    assert_eq!(flat.as_raw(), &vec![9u8; 8]);
}

#[test]
fn test_normalize_line_thickness_empty() {
    let binary = vec![false; 100];
    let result = normalize_line_thickness(&binary, 10, 10, 5, false);

    // Should remain empty
    assert!(result.iter().all(|&x| !x));
}

#[test]
fn test_normalize_line_thickness_with_content() {
    // Create a thick horizontal line
    let mut binary = vec![false; 100];
    for y in 3..7 {
        for x in 2..8 {
            binary[y * 10 + x] = true;
        }
    }

    let result = normalize_line_thickness(&binary, 10, 10, 3, false);

    // Should have fewer true pixels than the input (thinned)
    let input_count: usize = binary.iter().filter(|&&x| x).count();
    let result_count: usize = result.iter().filter(|&&x| x).count();

    // The line should be thinner but still present
    assert!(result_count > 0);
    assert!(result_count <= input_count);
}

#[test]
fn normalize_with_thickness_one_gives_the_skeleton() {
    let mut binary = vec![false; 100];
    for y in 3..7 {
        for x in 2..8 {
            binary[y * 10 + x] = true;
        }
    }
    let thin = normalize_line_thickness(&binary, 10, 10, 1, false);
    assert_eq!(thin, wasm_scoring::thinning::skeletonize(&binary, 10, 10));
    let same = normalize_line_thickness(&binary, 10, 10, 0, false);
    assert_eq!(same, thin);
}

#[test]
fn normalize_grows_a_band_around_the_skeleton() {
    // a line of one pixel is its own skeleton
    let mut binary = vec![false; 81];
    for x in 2..7 {
        binary[4 * 9 + x] = true;
    }
    // thickness 2: distance at most 1, the axial neighbours only
    let band = normalize_line_thickness(&binary, 9, 9, 2, false);
    let mut expected = vec![false; 81];
    for x in 1..8 {
        expected[4 * 9 + x] = true;
    }
    for x in 2..7 {
        expected[3 * 9 + x] = true;
        expected[5 * 9 + x] = true;
    }
    assert_eq!(band, expected);
    // thickness 3: distance at most 1.5, the diagonal neighbours too
    let band = normalize_line_thickness(&binary, 9, 9, 3, false);
    let mut expected = vec![false; 81];
    for y in 3..6 {
        for x in 1..8 {
            expected[y * 9 + x] = true;
        }
    }
    assert_eq!(band, expected);
}

#[test]
fn binarize_splits_at_half_intensity() {
    assert_eq!(
        binarize(&[0, 127, 128, 255]),
        vec![true, true, false, false]
    );
}

#[test]
fn test_calculate_coverage_score_perfect() {
    // Identical images should give high coverage
    let image = striped();

    let score = as_f32(calculate_coverage_score(&image, &image));

    // Should be very high (close to 1.0)
    assert!(score > 0.9);
}

#[test]
fn test_calculate_coverage_score_empty_drawn() {
    let drawn = white(); // all white
    let reference = striped();

    let score = as_f32(calculate_coverage_score(&drawn, &reference));

    // Should be 0 (nothing drawn)
    assert_eq!(score, 0.0);
}

#[test]
fn test_calculate_accuracy_score_perfect() {
    // Identical images should give high accuracy
    let image = striped();

    let score = as_f32(calculate_accuracy_score(&image, &image));

    // Should be very high (close to 1.0)
    assert!(score > 0.9);
}

#[test]
fn test_calculate_accuracy_score_empty_drawn() {
    let drawn = white(); // all white
    let reference = striped();

    let score = as_f32(calculate_accuracy_score(&drawn, &reference));

    // Should be 0 (nothing drawn)
    assert_eq!(score, 0.0);
}

#[test]
fn test_calculate_stroke_similarity_identical() {
    // Identical images should give high similarity
    let image = striped();

    let score = similarity(calculate_stroke_similarity(&image, &image));

    // Should be high (close to 1.0)
    assert!(score > 0.8);
}

#[test]
fn test_calculate_stroke_similarity_empty() {
    let drawn = white(); // all white
    let reference = white();

    let overlap = calculate_stroke_similarity(&drawn, &reference);
    assert_eq!(overlap, None);
    let score = similarity(overlap);

    // Should be 0 (no content to compare)
    assert_eq!(score, 0.0);
}

#[test]
fn empty_reference_scores_zero_coverage_and_no_overlap() {
    let drawn = striped();
    let reference = white();
    assert_eq!(calculate_coverage_score(&drawn, &reference), Ratio { num: 0, den: 1 });
    assert_eq!(calculate_stroke_similarity(&drawn, &reference), None);
    assert_eq!(calculate_stroke_similarity(&reference, &drawn), None);
    // the drawing has nothing to stay on
    assert_eq!(calculate_accuracy_score(&drawn, &reference).num, 0);
}

fn bar(x0: usize, x1: usize, y0: usize, y1: usize) -> Vec<u8> {
    let mut image = white();
    for y in y0..y1 {
        for x in x0..x1 {
            image[y * 128 + x] = 0;
        }
    }
    image
}

#[test]
fn measures_of_two_bars_far_apart() {
    // two horizontal bars, 60 rows apart: nothing is covered or accurate
    let drawn = bar(20, 100, 20, 25);
    let reference = bar(20, 100, 80, 85);
    let coverage = calculate_coverage_score(&drawn, &reference);
    let accuracy = calculate_accuracy_score(&drawn, &reference);
    assert_eq!(coverage.num, 0);
    assert!(coverage.den > 0);
    assert_eq!(accuracy.num, 0);
    assert!(accuracy.den > 0);
    let overlap = calculate_stroke_similarity(&drawn, &reference).unwrap();
    assert_eq!(overlap.intersection, 0);
    assert_eq!(overlap.union_cells, overlap.drawn_cells + overlap.reference_cells);
    // every cell is more than 50 pixels from the other stroke
    assert!(overlap.drawn_to_reference > 50_000 * overlap.drawn_cells as u64);
    assert!(overlap.reference_to_drawn > 50_000 * overlap.reference_cells as u64);
    assert!(similarity(Some(overlap)) < 0.01);
}

#[test]
fn measures_of_a_reference_against_itself() {
    // the reference is not sanded, so a clean bar compared with itself as a
    // reference on both sides would overlap fully; as a drawing it is sanded
    let image = bar(20, 100, 60, 65);
    let coverage = calculate_coverage_score(&image, &image);
    let accuracy = calculate_accuracy_score(&image, &image);
    assert!(coverage.num <= coverage.den);
    assert!(accuracy.num <= accuracy.den);
    assert_eq!(accuracy.num, accuracy.den);
    let overlap = calculate_stroke_similarity(&image, &image).unwrap();
    assert!(overlap.intersection <= overlap.drawn_cells);
    assert!(overlap.intersection <= overlap.reference_cells);
    assert_eq!(
        overlap.union_cells + overlap.intersection,
        overlap.drawn_cells + overlap.reference_cells
    );
}

#[test]
fn chamfer_argument_is_the_distance_over_a_third_of_twenty() {
    // mean distances of 2 and 4 pixels: a chamfer distance of 3, and 3 / (20 / 3) = 0.45
    let overlap = StrokeOverlap {
        intersection: 0,
        union_cells: 30,
        drawn_cells: 10,
        reference_cells: 20,
        drawn_to_reference: 20_000,
        reference_to_drawn: 80_000,
    };
    let (num, den) = chamfer_argument(&overlap);
    assert_eq!(num, 3 * (20_000 * 20 + 80_000 * 10));
    assert_eq!(den, 40_000 * 10 * 20);
    assert_eq!(num * 100, den * 45);
    // a stroke without cells has a mean distance of 0
    let lopsided = StrokeOverlap { drawn_cells: 0, drawn_to_reference: 7, ..overlap };
    assert_eq!(chamfer_argument(&lopsided), (3 * 80_000, 40_000 * 20));
    let nothing = StrokeOverlap { reference_cells: 0, ..lopsided };
    assert_eq!(chamfer_argument(&nothing), (0, 40_000));
}

#[test]
fn combine_similarity_weighs_overlap_and_score() {
    let overlap = StrokeOverlap {
        intersection: 10,
        union_cells: 40,
        drawn_cells: 25,
        reference_cells: 25,
        drawn_to_reference: 0,
        reference_to_drawn: 0,
    };
    let half = Ratio { num: 1, den: 2 };
    // 0.4 * 0.25 + 0.6 * 0.5 = 0.4
    assert_eq!(
        combine_similarity(Some(overlap), half),
        Ratio { num: 400_000, den: 1_000_000 }
    );
    // 0.4 * 0.25 + 0.6 * 1 = 0.7
    assert_eq!(combine_similarity(Some(overlap), Ratio { num: 1, den: 1 }).num, 700_000);
    // 0.4 * 0.25 + 0.6 / 3 = 0.3
    assert_eq!(combine_similarity(Some(overlap), Ratio { num: 1, den: 3 }).num, 300_000);
    // 0.4 / 3 + 0 = 0.1333333
    let third = StrokeOverlap { intersection: 1, union_cells: 3, ..overlap };
    assert_eq!(combine_similarity(Some(third), Ratio::zero()).num, 133_333);
    // full overlap and full score
    let full = StrokeOverlap { intersection: 40, ..overlap };
    assert_eq!(combine_similarity(Some(full), Ratio { num: 1, den: 1 }).num, 1_000_000);
    // a sum above 1 is cut off
    assert_eq!(combine_similarity(Some(full), Ratio { num: 5, den: 1 }).num, 1_000_000);
    // nothing to compare: 0, whatever the score
    assert_eq!(combine_similarity(None, Ratio { num: 1, den: 1 }), Ratio { num: 0, den: 1 });
    // no cell in the union
    let empty = StrokeOverlap { intersection: 0, union_cells: 0, ..overlap };
    assert_eq!(combine_similarity(Some(empty), half).num, 300_000);
    let odd = StrokeOverlap { intersection: 1, union_cells: 0, ..overlap };
    assert_eq!(combine_similarity(Some(odd), half).num, 1_000_000);
}

#[test]
fn combine_scores_weighs_and_rounds() {
    let full = Ratio { num: 1, den: 1 };
    let none = Ratio { num: 0, den: 1 };
    let half = Ratio { num: 1, den: 2 };
    let result = combine_scores(full, full, full);
    assert_eq!(result.score, 100);
    assert_eq!(result.stars, 5);
    assert_eq!(result.feedback, "Amazing! Perfect!");
    assert_eq!((result.coverage, result.accuracy, result.similarity), (100, 100, 100));

    let result = combine_scores(none, none, none);
    assert_eq!(result.score, 0);
    assert_eq!(result.stars, 1);
    assert_eq!(result.feedback, "Keep practicing!");

    // 35 + 0 + 15 = 50
    let result = combine_scores(full, none, half);
    assert_eq!(result.score, 50);
    assert_eq!(result.stars, 3);
    assert_eq!((result.coverage, result.accuracy, result.similarity), (100, 0, 50));

    // 35 * 0.5 + 35 * 0.5 + 30 * 0.5 = 50
    assert_eq!(combine_scores(half, half, half).score, 50);
    // 35 / 3 + 35 / 3 + 30 / 3 = 33.33
    let third = Ratio { num: 1, den: 3 };
    let result = combine_scores(third, third, third);
    assert_eq!(result.score, 33);
    assert_eq!(result.coverage, 33);
    // 35 * 0.9 + 35 * 0.8 + 30 * 0.65 = 79.0
    let result = combine_scores(
        Ratio { num: 9, den: 10 },
        Ratio { num: 8, den: 10 },
        Ratio { num: 65, den: 100 },
    );
    assert_eq!(result.score, 79);
    assert_eq!(result.stars, 4);
    // a half rounds up: 35 * 0.5 + 35 * 0.5 + 30 * 0.65 = 54.5
    let result = combine_scores(half, half, Ratio { num: 65, den: 100 });
    assert_eq!(result.score, 55);
    // a sum above 1 is cut off
    let result = combine_scores(Ratio { num: 3, den: 1 }, full, full);
    assert_eq!(result.score, 100);
    assert_eq!(result.coverage, 100);
}

#[test]
fn ratio_percent_rounds_to_the_nearest() {
    assert_eq!(Ratio { num: 0, den: 7 }.percent(), 0);
    assert_eq!(Ratio { num: 1, den: 8 }.percent(), 13);
    assert_eq!(Ratio { num: 1, den: 200 }.percent(), 1);
    assert_eq!(Ratio { num: 1, den: 201 }.percent(), 0);
    assert_eq!(Ratio { num: 999, den: 1000 }.percent(), 100);
    assert_eq!(Ratio { num: 5, den: 2 }.percent(), 100);
    assert_eq!(Ratio::zero(), Ratio { num: 0, den: 1 });
}

#[test]
fn test_encode_grayscale_to_png() {
    let img = GrayRaster::from_pixel(10, 10, 128u8).unwrap();
    let result = encode_grayscale_to_png(&img);

    assert!(result.is_ok());
    let png_bytes = result.unwrap();

    // PNG header signature
    assert!(png_bytes.len() > 8);
    assert_eq!(&png_bytes[0..8], &[137, 80, 78, 71, 13, 10, 26, 10]);
}

#[test]
fn encode_refuses_an_image_without_pixels() {
    let img = GrayRaster::new(0, 0, Vec::new()).unwrap();
    match encode_grayscale_to_png(&img) {
        Err(ScoreError::Encode(_)) => {}
        other => panic!("expected an encode error, got {:?}", other),
    }
    let img = GrayRaster::new(0, 5, Vec::new()).unwrap();
    assert!(encode_grayscale_to_png(&img).is_err());
}

#[test]
fn decode_gives_back_what_was_encoded() {
    let pixels: Vec<u8> = (0..35).map(|i| (i * 7) as u8).collect();
    let img = GrayRaster::new(7, 5, pixels.clone()).unwrap();
    let png = encode_grayscale_to_png(&img).unwrap();
    assert_ne!(png, pixels);
    let back = decode_drawing(&png).unwrap();
    assert_eq!(back.width(), 7);
    assert_eq!(back.height(), 5);
    assert_eq!(back.as_raw(), &pixels);
}

#[test]
fn decode_agrees_with_the_image_crate() {
    let pixels: Vec<u8> = (0..24).map(|i| (i * 10) as u8).collect();
    let theirs_in = image::GrayImage::from_raw(6, 4, pixels.clone()).unwrap();
    let mut buffer = Vec::new();
    let encoder = image::codecs::png::PngEncoder::new(&mut buffer);
    image::ImageEncoder::write_image(encoder, theirs_in.as_raw(), 6, 4, image::ExtendedColorType::L8)
        .unwrap();
    let ours = encode_grayscale_to_png(&GrayRaster::new(6, 4, pixels.clone()).unwrap()).unwrap();
    assert_eq!(ours, buffer);
    let theirs = image::load_from_memory(&ours).unwrap().to_luma8();
    let back = decode_drawing(&ours).unwrap();
    assert_eq!((back.width(), back.height()), theirs.dimensions());
    assert_eq!(back.as_raw(), theirs.as_raw());
}

#[test]
fn decode_reads_other_formats_than_png() {
    // a BMP file of 2 by 2 pixels, 24 bits each, stored bottom row first
    let mut bmp: Vec<u8> = Vec::new();
    bmp.extend_from_slice(b"BM");
    bmp.extend_from_slice(&70u32.to_le_bytes()); // file size
    bmp.extend_from_slice(&0u32.to_le_bytes()); // reserved
    bmp.extend_from_slice(&54u32.to_le_bytes()); // offset of the pixels
    bmp.extend_from_slice(&40u32.to_le_bytes()); // size of the info header
    bmp.extend_from_slice(&2i32.to_le_bytes()); // width
    bmp.extend_from_slice(&2i32.to_le_bytes()); // height
    bmp.extend_from_slice(&1u16.to_le_bytes()); // planes
    bmp.extend_from_slice(&24u16.to_le_bytes()); // bits per pixel
    bmp.extend_from_slice(&0u32.to_le_bytes()); // no compression
    bmp.extend_from_slice(&16u32.to_le_bytes()); // size of the pixels
    bmp.extend_from_slice(&2835i32.to_le_bytes());
    bmp.extend_from_slice(&2835i32.to_le_bytes());
    bmp.extend_from_slice(&0u32.to_le_bytes());
    bmp.extend_from_slice(&0u32.to_le_bytes());
    bmp.extend_from_slice(&[255, 255, 255, 0, 0, 0, 0, 0]); // bottom row: white, black
    bmp.extend_from_slice(&[0, 0, 0, 255, 255, 255, 0, 0]); // top row: black, white
    assert_eq!(bmp.len(), 70);
    let back = decode_drawing(&bmp).unwrap();
    assert_eq!((back.width(), back.height()), (2, 2));
    assert_eq!(back.as_raw(), &vec![0, 255, 255, 0]);
}

#[test]
fn decode_refuses_what_is_no_image() {
    match decode_drawing(&[1, 2, 3, 4, 5]) {
        Err(ScoreError::Decode(_)) => {}
        other => panic!("expected a decode error, got {:?}", other),
    }
    assert!(decode_drawing(&[]).is_err());
    let error = decode_drawing(&[0; 64]).unwrap_err();
    assert!(error.message().starts_with("Failed to decode image: "));
}

#[test]
fn error_messages() {
    assert_eq!(ScoreError::FontParse.message(), "Failed to parse font data");
    assert_eq!(ScoreError::EmptyCharacter.message(), "Empty character string");
    assert_eq!(
        ScoreError::Decode("bad".to_string()).message(),
        "Failed to decode image: bad"
    );
    assert_eq!(
        ScoreError::Encode("worse".to_string()).message(),
        "Failed to encode PNG: worse"
    );
}

#[test]
fn target_character_is_the_first_one() {
    assert_eq!(target_character("A").unwrap(), 'A');
    assert_eq!(target_character("Abc").unwrap(), 'A');
    assert_eq!(target_character("\u{e9}t\u{e9}").unwrap(), '\u{e9}');
    match target_character("") {
        Err(ScoreError::EmptyCharacter) => {}
        other => panic!("expected an empty character error, got {:?}", other),
    }
}

#[test]
fn centering_offset_centres_the_glyph() {
    // a glyph from 10 to 60 on a canvas of 200: 75 spare on each side
    assert_eq!(centering_offset(200, 10, 60), 65);
    assert_eq!(centering_offset(200, -5, 45), 80);
    // odd spare space rounds down
    assert_eq!(centering_offset(200, 0, 51), 74);
    // a glyph wider than the canvas: half of -1 is 0, half of -3 is -1
    assert_eq!(centering_offset(10, 0, 11), 0);
    assert_eq!(centering_offset(10, 2, 15), -3);
    assert_eq!(centering_offset(0, 0, 0), 0);
}

#[test]
fn render_reference_places_and_clips_the_glyph() {
    let blank = render_reference(4, None);
    assert_eq!(blank.as_raw(), &vec![255u8; 16]);
    assert_eq!((blank.width(), blank.height()), (4, 4));

    let glyph = PlacedGlyph {
        min_x: 1,
        min_y: 2,
        pixels: GrayRaster::new(2, 2, vec![10, 20, 30, 40]).unwrap(),
    };
    let canvas = render_reference(4, Some(&glyph));
    let mut expected = vec![255u8; 16];
    expected[2 * 4 + 1] = 10;
    expected[2 * 4 + 2] = 20;
    expected[3 * 4 + 1] = 30;
    expected[3 * 4 + 2] = 40;
    assert_eq!(canvas.as_raw(), &expected);

    // partly off the canvas, at the top left and at the bottom right
    let glyph = PlacedGlyph {
        min_x: -1,
        min_y: -1,
        pixels: GrayRaster::new(2, 2, vec![10, 20, 30, 40]).unwrap(),
    };
    let canvas = render_reference(3, Some(&glyph));
    assert_eq!(canvas.as_raw(), &vec![40, 255, 255, 255, 255, 255, 255, 255, 255]);
    let glyph = PlacedGlyph {
        min_x: 2,
        min_y: 2,
        pixels: GrayRaster::new(2, 2, vec![10, 20, 30, 40]).unwrap(),
    };
    let canvas = render_reference(3, Some(&glyph));
    assert_eq!(canvas.as_raw(), &vec![255, 255, 255, 255, 255, 255, 255, 255, 10]);
    let glyph = PlacedGlyph {
        min_x: 7,
        min_y: -9,
        pixels: GrayRaster::new(2, 2, vec![10, 20, 30, 40]).unwrap(),
    };
    assert_eq!(render_reference(3, Some(&glyph)).as_raw(), &vec![255u8; 9]);
}

#[test]
fn generate_reference_image_is_a_png_of_the_canvas() {
    let glyph = PlacedGlyph {
        min_x: 3,
        min_y: 4,
        pixels: GrayRaster::new(2, 3, vec![0, 50, 100, 150, 200, 250]).unwrap(),
    };
    let png = generate_reference_image_internal(16, Some(&glyph)).unwrap();
    assert_eq!(&png[0..8], &[137, 80, 78, 71, 13, 10, 26, 10]);
    let back = decode_drawing(&png).unwrap();
    assert_eq!(back.as_raw(), render_reference(16, Some(&glyph)).as_raw());
    assert!(generate_reference_image_internal(0, None).is_err());
}

fn drawing_of(image: &[u8]) -> GrayRaster {
    GrayRaster::new(128, 128, image.to_vec()).unwrap()
}

#[test]
fn scoring_identical_images_end_to_end() {
    let image = drawing_of(&bar(30, 90, 50, 60));
    let measures = measure_images(&image, &image);
    let coverage = as_f32(measures.coverage);
    let accuracy = as_f32(measures.accuracy);
    let similar = similarity(measures.overlap);
    assert!(coverage > 0.9);
    assert!(accuracy > 0.9);
    assert!(similar > 0.8);
    let score = chamfer_score(measures.overlap);
    let ratio = combine_similarity(measures.overlap, score);
    let scored = score_drawing_internal(&measures, score, &image).unwrap();
    assert!(scored.score() >= 80);
    assert_eq!(scored.stars(), 5);
    assert_eq!(scored.feedback(), "Amazing! Perfect!");
    assert_eq!(scored.coverage(), measures.coverage.percent());
    assert_eq!(scored.accuracy(), measures.accuracy.percent());
    assert_eq!(scored.similarity(), ratio.percent());
    assert_eq!(ratio.den, 1_000_000);
    assert_eq!(scored.reference_image(), encode_grayscale_to_png(&image).unwrap());
}

#[test]
fn scoring_a_blank_drawing_end_to_end() {
    let reference = drawing_of(&bar(30, 90, 50, 60));
    let blank = GrayRaster::from_pixel(64, 64, 255).unwrap();
    let measures = measure_images(&blank, &reference);
    assert_eq!(measures.coverage.num, 0);
    assert_eq!(measures.accuracy.num, 0);
    assert_eq!(measures.overlap, None);
    let scored = score_drawing_internal(&measures, Ratio::zero(), &reference).unwrap();
    assert_eq!(scored.score(), 0);
    assert_eq!(scored.stars(), 1);
    assert_eq!(scored.feedback(), "Keep practicing!");
    // a reference that cannot be encoded fails the scoring
    let nothing = GrayRaster::new(0, 0, Vec::new()).unwrap();
    match score_drawing_internal(&measures, Ratio::zero(), &nothing) {
        Err(ScoreError::Encode(_)) => {}
        other => panic!("expected an encode error, got {:?}", other.map(|r| r.score())),
    }
}
