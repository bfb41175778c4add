use wasm_scoring::bridging::{bridge_gaps, find_bridge_target};
use wasm_scoring::distance::{distance_transform_edt, FAR};
use wasm_scoring::endpoints::find_endpoints;
use wasm_scoring::line::draw_line;
use wasm_scoring::morphology::{binary_dilation, binary_erosion};
use wasm_scoring::pruning::{prune_branches, prune_to_budget};
use wasm_scoring::raster::count_foreground;
use wasm_scoring::thinning::{
    count_neighbors, count_transitions, get_neighbors, should_remove_subiteration1,
    should_remove_subiteration2, skeletonize,
};

fn pixels(field: &[u32]) -> Vec<f32> {
    field.iter().map(|&d| d as f32 / 1000.0).collect()
}

#[test]
fn test_distance_transform_single_point() {
    // 5x5 grid with single point in center
    let mut binary = vec![false; 25];
    binary[12] = true; // center point (2, 2)

    let result = pixels(&distance_transform_edt(&binary, 5, 5));

    // Center should be 0
    assert_eq!(result[12], 0.0);

    // Adjacent pixels should be ~1.0
    assert!((result[7] - 1.0).abs() < 0.01); // top
    assert!((result[11] - 1.0).abs() < 0.01); // left
    assert!((result[13] - 1.0).abs() < 0.01); // right
    assert!((result[17] - 1.0).abs() < 0.01); // bottom

    // Diagonal pixels should be ~1.414
    assert!((result[6] - 1.414).abs() < 0.01); // top-left
    assert!((result[8] - 1.414).abs() < 0.01); // top-right
    assert!((result[16] - 1.414).abs() < 0.01); // bottom-left
    assert!((result[18] - 1.414).abs() < 0.01); // bottom-right
}

#[test]
fn test_distance_transform_empty_image() {
    let binary = vec![false; 25];
    let result = pixels(&distance_transform_edt(&binary, 5, 5));

    // All distances should be very large
    for val in result {
        assert!(val > 100.0);
    }
}

#[test]
fn test_distance_transform_full_image() {
    let binary = vec![true; 25];
    let result = pixels(&distance_transform_edt(&binary, 5, 5));

    // All distances should be 0
    for val in result {
        assert_eq!(val, 0.0);
    }
}

#[test]
fn distance_transform_exact_values() {
    // 4x3 grid, single foreground cell in the top-left corner
    let mut binary = vec![false; 12];
    binary[0] = true;
    let result = distance_transform_edt(&binary, 4, 3);
    assert_eq!(
        result,
        vec![0, 1000, 2000, 3000, 1000, 1414, 2414, 3414, 2000, 2414, 2828, 3828]
    );
}

#[test]
fn distance_transform_reaches_up_and_left() {
    // single foreground cell in the bottom-right corner: only the second
    // scan can carry it
    let mut binary = vec![false; 12];
    binary[11] = true;
    let result = distance_transform_edt(&binary, 4, 3);
    assert_eq!(
        result,
        vec![3828, 2828, 2414, 2000, 3414, 2414, 1414, 1000, 3000, 2000, 1000, 0]
    );
}

#[test]
fn distance_transform_takes_the_nearest_of_two() {
    // 7x1 row with foreground at both ends
    let mut binary = vec![false; 7];
    binary[0] = true;
    binary[6] = true;
    let result = distance_transform_edt(&binary, 7, 1);
    assert_eq!(result, vec![0, 1000, 2000, 3000, 2000, 1000, 0]);
}

#[test]
fn distance_transform_far_is_the_sentinel() {
    let binary = vec![false; 6];
    let result = distance_transform_edt(&binary, 3, 2);
    assert!(result.iter().all(|&d| d == FAR));
    assert_eq!(FAR, u32::MAX);
}

#[test]
fn distance_transform_of_nothing_is_empty() {
    let binary: Vec<bool> = Vec::new();
    assert!(distance_transform_edt(&binary, 0, 0).is_empty());
    assert!(distance_transform_edt(&binary, 0, 5).is_empty());
    assert!(distance_transform_edt(&binary, 5, 0).is_empty());
}

#[test]
fn test_binary_dilation_single_point() {
    let mut binary = vec![false; 25];
    binary[12] = true; // center point (2, 2)

    let result = binary_dilation(&binary, 5, 5, 1);

    // Center and all neighbors should be true
    assert!(result[12]); // center
    assert!(result[6]); // top-left
    assert!(result[7]); // top
    assert!(result[8]); // top-right
    assert!(result[11]); // left
    assert!(result[13]); // right
    assert!(result[16]); // bottom-left
    assert!(result[17]); // bottom
    assert!(result[18]); // bottom-right

    // Corners should still be false
    assert!(!result[0]); // top-left corner
    assert!(!result[4]); // top-right corner
    assert!(!result[20]); // bottom-left corner
    assert!(!result[24]); // bottom-right corner
}

#[test]
fn test_binary_dilation_multiple_iterations() {
    let mut binary = vec![false; 49]; // 7x7
    binary[24] = true; // center point (3, 3)

    let result = binary_dilation(&binary, 7, 7, 2);

    // After 2 iterations, should expand by 2 pixels in all directions
    // Check that center 5x5 area is mostly true
    let true_count: usize = result.iter().filter(|&&x| x).count();
    assert!(true_count >= 20);
}

#[test]
fn dilation_exact_counts() {
    let mut binary = vec![false; 49]; // 7x7
    binary[24] = true;
    assert_eq!(count_foreground(&binary_dilation(&binary, 7, 7, 0)), 1);
    assert_eq!(count_foreground(&binary_dilation(&binary, 7, 7, 1)), 9);
    assert_eq!(count_foreground(&binary_dilation(&binary, 7, 7, 2)), 25);
    assert_eq!(count_foreground(&binary_dilation(&binary, 7, 7, 3)), 49);
    assert_eq!(count_foreground(&binary_dilation(&binary, 7, 7, 9)), 49);
}

#[test]
fn dilation_is_clipped_at_the_edge() {
    let mut binary = vec![false; 12]; // 4x3
    binary[0] = true;
    let result = binary_dilation(&binary, 4, 3, 1);
    let expected = vec![
        true, true, false, false, true, true, false, false, false, false, false, false,
    ];
    assert_eq!(result, expected);
}

#[test]
fn morphology_zero_iterations_is_identity() {
    let binary = vec![true, false, false, true, true, false];
    assert_eq!(binary_dilation(&binary, 3, 2, 0), binary);
    assert_eq!(binary_erosion(&binary, 3, 2, 0), binary);
}

#[test]
fn morphology_of_nothing_is_empty() {
    let binary: Vec<bool> = Vec::new();
    assert!(binary_dilation(&binary, 0, 0, 3).is_empty());
    assert!(binary_erosion(&binary, 0, 0, 3).is_empty());
    assert!(binary_dilation(&binary, 0, 4, 1).is_empty());
}

#[test]
fn test_binary_erosion_removes_single_pixel() {
    let mut binary = vec![false; 25];
    binary[12] = true; // single center pixel

    let result = binary_erosion(&binary, 5, 5, 1);

    // Single pixel should be eroded away
    assert!(!result[12]);
}

#[test]
fn test_binary_erosion_preserves_solid_block() {
    // 5x5 grid with solid 3x3 block in center
    let mut binary = vec![false; 25];
    for y in 1..4 {
        for x in 1..4 {
            binary[y * 5 + x] = true;
        }
    }

    let result = binary_erosion(&binary, 5, 5, 1);

    // Center should still be true after 1 erosion
    assert!(result[12]);
}

#[test]
fn erosion_leaves_only_the_block_centre() {
    let mut binary = vec![false; 25];
    for y in 1..4 {
        for x in 1..4 {
            binary[y * 5 + x] = true;
        }
    }
    let result = binary_erosion(&binary, 5, 5, 1);
    let mut expected = vec![false; 25];
    expected[12] = true;
    assert_eq!(result, expected);
    assert_eq!(count_foreground(&binary_erosion(&binary, 5, 5, 2)), 0);
}

#[test]
fn erosion_removes_the_edge_of_a_full_raster() {
    let binary = vec![true; 16];
    let result = binary_erosion(&binary, 4, 4, 1);
    let mut expected = vec![false; 16];
    expected[5] = true;
    expected[6] = true;
    expected[9] = true;
    expected[10] = true;
    assert_eq!(result, expected);
}

#[test]
fn test_skeletonize_horizontal_line() {
    // 5x15 grid with horizontal line
    let mut binary = vec![false; 75];
    for x in 2..13 {
        for y in 1..4 {
            binary[y * 15 + x] = true;
        }
    }

    let result = skeletonize(&binary, 15, 5);

    // Should produce a thin horizontal line
    let true_count: usize = result.iter().filter(|&&x| x).count();
    assert!(true_count > 0);
    assert!(true_count < 20); // Should be much thinner than the bar
}

#[test]
fn test_skeletonize_empty_image() {
    let binary = vec![false; 25];
    let result = skeletonize(&binary, 5, 5);

    // Should remain empty
    assert!(result.iter().all(|&x| !x));
}

#[test]
fn skeletonize_bar_is_thin_and_inside_the_bar() {
    let mut binary = vec![false; 75];
    for x in 2..13 {
        for y in 1..4 {
            binary[y * 15 + x] = true;
        }
    }
    let result = skeletonize(&binary, 15, 5);
    assert!(count_foreground(&result) < count_foreground(&binary));
    for i in 0..75 {
        assert!(!result[i] || binary[i]);
    }
    // a further run changes nothing
    assert_eq!(skeletonize(&result, 15, 5), result);
    // no column of the skeleton holds more than one cell
    for x in 0..15 {
        let in_column = (0..5).filter(|&y| result[y * 15 + x]).count();
        assert!(in_column <= 1);
    }
}

#[test]
fn skeletonize_leaves_the_border_alone() {
    // a full raster: the border ring can never be removed
    let binary = vec![true; 36];
    let result = skeletonize(&binary, 6, 6);
    for y in 0..6 {
        for x in 0..6 {
            if x == 0 || y == 0 || x == 5 || y == 5 {
                assert!(result[y * 6 + x]);
            }
        }
    }
}

#[test]
fn skeletonize_small_rasters_are_unchanged() {
    let binary = vec![true; 8];
    assert_eq!(skeletonize(&binary, 4, 2), binary);
    assert_eq!(skeletonize(&binary, 2, 4), binary);
    let nothing: Vec<bool> = Vec::new();
    assert!(skeletonize(&nothing, 0, 0).is_empty());
}

#[test]
fn test_find_endpoints_line() {
    // Create a simple horizontal line
    let mut skeleton = vec![false; 25];
    skeleton[11] = true; // (1, 2)
    skeleton[12] = true; // (2, 2)
    skeleton[13] = true; // (3, 2)

    let endpoints = find_endpoints(&skeleton, 5, 5);

    // Should find 2 endpoints
    assert_eq!(endpoints.len(), 2);
    assert!(endpoints.contains(&(1, 2)));
    assert!(endpoints.contains(&(3, 2)));
}

#[test]
fn test_find_endpoints_circle() {
    // Create a small closed loop (no endpoints)
    let mut skeleton = vec![false; 49]; // 7x7
    // Create a small square loop
    skeleton[15] = true; // (1, 2)
    skeleton[16] = true; // (2, 2)
    skeleton[17] = true; // (3, 2)
    skeleton[22] = true; // (1, 3)
    skeleton[24] = true; // (3, 3)
    skeleton[29] = true; // (1, 4)
    skeleton[30] = true; // (2, 4)
    skeleton[31] = true; // (3, 4)

    let endpoints = find_endpoints(&skeleton, 7, 7);

    // Closed loop should have no endpoints
    assert_eq!(endpoints.len(), 0);
}

#[test]
fn find_endpoints_come_in_row_major_order() {
    let mut skeleton = vec![false; 49]; // 7x7
    // vertical line from (3, 1) to (3, 5), and a lone pair at (1, 3), (1, 4)
    for y in 1..6 {
        skeleton[y * 7 + 3] = true;
    }
    skeleton[3 * 7 + 1] = true;
    skeleton[4 * 7 + 1] = true;
    let endpoints = find_endpoints(&skeleton, 7, 7);
    assert_eq!(endpoints, vec![(3, 1), (1, 3), (1, 4), (3, 5)]);
}

#[test]
fn find_endpoints_skips_the_border() {
    let mut skeleton = vec![false; 25];
    // line along the top row: all of it on the border
    skeleton[0] = true;
    skeleton[1] = true;
    skeleton[2] = true;
    assert!(find_endpoints(&skeleton, 5, 5).is_empty());
    // an isolated cell has no neighbour at all
    let mut lone = vec![false; 25];
    lone[12] = true;
    assert!(find_endpoints(&lone, 5, 5).is_empty());
    assert!(find_endpoints(&vec![true; 4], 2, 2).is_empty());
}

#[test]
fn test_count_transitions() {
    // All false - 0 transitions
    let neighbors = [false, false, false, false, false, false, false, false];
    assert_eq!(count_transitions(&neighbors), 0);

    // Alternating - 4 transitions
    let neighbors = [true, false, true, false, true, false, true, false];
    assert_eq!(count_transitions(&neighbors), 4);

    // Single true - 1 transition
    let neighbors = [true, false, false, false, false, false, false, false];
    assert_eq!(count_transitions(&neighbors), 1);

    // Two adjacent true - 1 transition
    let neighbors = [true, true, false, false, false, false, false, false];
    assert_eq!(count_transitions(&neighbors), 1);
}

#[test]
fn count_transitions_wraps_around() {
    // the walk closes from the last neighbour to the first
    let neighbors = [true, false, false, false, false, false, false, true];
    assert_eq!(count_transitions(&neighbors), 1);
    let neighbors = [true, true, true, true, true, true, true, true];
    assert_eq!(count_transitions(&neighbors), 0);
    let neighbors = [false, true, false, false, true, true, false, false];
    assert_eq!(count_transitions(&neighbors), 2);
}

#[test]
fn test_count_neighbors() {
    let neighbors = [false, false, false, false, false, false, false, false];
    assert_eq!(count_neighbors(&neighbors), 0);

    let neighbors = [true, true, true, true, true, true, true, true];
    assert_eq!(count_neighbors(&neighbors), 8);

    let neighbors = [true, false, true, false, true, false, true, false];
    assert_eq!(count_neighbors(&neighbors), 4);
}

#[test]
fn get_neighbors_goes_clockwise_from_the_top() {
    // 3x3 raster, numbered cells around the centre
    let mut binary = vec![false; 9];
    binary[1] = true; // top
    binary[5] = true; // right
    binary[6] = true; // bottom-left
    let around = get_neighbors(&binary, 1, 1, 3);
    assert_eq!(
        around,
        [true, false, true, false, false, true, false, false]
    );
}

#[test]
fn removal_conditions_differ_between_the_sub_iterations() {
    // centre with top, top-right, right set: a corner at the upper right
    let mut binary = vec![false; 9];
    binary[4] = true;
    binary[1] = true;
    binary[2] = true;
    binary[5] = true;
    assert!(should_remove_subiteration1(&binary, 1, 1, 3));
    assert!(should_remove_subiteration2(&binary, 1, 1, 3));
    // centre with top, right, bottom: only the second sub-iteration removes
    let mut binary = vec![false; 9];
    binary[4] = true;
    binary[1] = true;
    binary[2] = true;
    binary[5] = true;
    binary[8] = true;
    binary[7] = true;
    assert!(!should_remove_subiteration1(&binary, 1, 1, 3));
    assert!(should_remove_subiteration2(&binary, 1, 1, 3));
    // a single neighbour: too few to remove
    let mut binary = vec![false; 9];
    binary[4] = true;
    binary[1] = true;
    assert!(!should_remove_subiteration1(&binary, 1, 1, 3));
    assert!(!should_remove_subiteration2(&binary, 1, 1, 3));
}

#[test]
fn test_bridge_gaps_simple() {
    // Create two line segments with a gap
    let mut skeleton = vec![false; 49]; // 7x7
    skeleton[8] = true; // (1, 1)
    skeleton[9] = true; // (2, 1)
    skeleton[12] = true; // (5, 1)
    skeleton[13] = true; // (6, 1)

    bridge_gaps(&mut skeleton, 7, 7, 5);

    // Gap should be bridged, total true count should increase
    let true_count: usize = skeleton.iter().filter(|&&x| x).count();
    assert!(true_count > 4);
}

#[test]
fn bridge_gaps_fills_the_gap_exactly() {
    let mut skeleton = vec![false; 49]; // 7x7
    skeleton[8] = true;
    skeleton[9] = true;
    skeleton[12] = true;
    skeleton[13] = true;
    bridge_gaps(&mut skeleton, 7, 7, 5);
    let mut expected = vec![false; 49];
    for x in 1..7 {
        expected[7 + x] = true;
    }
    assert_eq!(skeleton, expected);
}

#[test]
fn bridge_gaps_leaves_a_gap_that_is_too_wide() {
    let mut skeleton = vec![false; 81]; // 9x9
    skeleton[9 + 1] = true;
    skeleton[9 + 2] = true;
    skeleton[9 + 6] = true;
    skeleton[9 + 7] = true;
    let before = skeleton.clone();
    // from (2, 1) the nearest cell outside the neighbourhood is (6, 1), 4 away
    bridge_gaps(&mut skeleton, 9, 9, 3);
    assert_eq!(skeleton, before);
    bridge_gaps(&mut skeleton, 9, 9, 0);
    assert_eq!(skeleton, before);
}

#[test]
fn bridge_target_is_the_nearest_within_reach() {
    let mut skeleton = vec![false; 81]; // 9x9
    skeleton[4 * 9 + 4] = true; // the endpoint (4, 4)
    skeleton[4 * 9 + 7] = true; // (7, 4): 3 away
    skeleton[6 * 9 + 4] = true; // (4, 6): 2 away
    skeleton[5 * 9 + 5] = true; // (5, 5): a direct neighbour
    assert_eq!(find_bridge_target(&skeleton, 9, 9, 4, 4, 5), Some((4, 6)));
    // (7, 7) lies in the window of 3 but at a distance above 3
    let mut corner = vec![false; 81];
    corner[4 * 9 + 4] = true;
    corner[7 * 9 + 7] = true;
    assert_eq!(find_bridge_target(&corner, 9, 9, 4, 4, 3), None);
    assert_eq!(find_bridge_target(&corner, 9, 9, 4, 4, 5), Some((7, 7)));
}

#[test]
fn bridge_target_ties_go_to_the_first_in_row_major_order() {
    let mut skeleton = vec![false; 81]; // 9x9
    skeleton[4 * 9 + 4] = true;
    skeleton[4 * 9 + 6] = true; // (6, 4)
    skeleton[4 * 9 + 2] = true; // (2, 4)
    skeleton[2 * 9 + 4] = true; // (4, 2)
    skeleton[6 * 9 + 4] = true; // (4, 6)
    assert_eq!(find_bridge_target(&skeleton, 9, 9, 4, 4, 4), Some((4, 2)));
    skeleton[2 * 9 + 4] = false;
    assert_eq!(find_bridge_target(&skeleton, 9, 9, 4, 4, 4), Some((2, 4)));
}

#[test]
fn draw_line_sets_the_cells_of_the_line() {
    let mut image = vec![false; 35]; // 7x5
    draw_line(&mut image, 7, 0, 0, 6, 2);
    let drawn: Vec<usize> = (0..35).filter(|&i| image[i]).collect();
    // (0,0) (1,0) (2,1) (3,1) (4,1) (5,2) (6,2)
    assert_eq!(drawn, vec![0, 1, 9, 10, 11, 19, 20]);

    let mut back = vec![false; 35];
    draw_line(&mut back, 7, 6, 2, 0, 0);
    let drawn: Vec<usize> = (0..35).filter(|&i| back[i]).collect();
    // (6,2) (5,2) (4,1) (3,1) (2,1) (1,0) (0,0)
    assert_eq!(drawn, vec![0, 1, 9, 10, 11, 19, 20]);
}

#[test]
fn draw_line_handles_steep_flat_and_single_cells() {
    let mut image = vec![false; 25];
    draw_line(&mut image, 5, 2, 0, 2, 4);
    let drawn: Vec<usize> = (0..25).filter(|&i| image[i]).collect();
    assert_eq!(drawn, vec![2, 7, 12, 17, 22]);

    let mut image = vec![false; 25];
    draw_line(&mut image, 5, 4, 4, 0, 0);
    let drawn: Vec<usize> = (0..25).filter(|&i| image[i]).collect();
    assert_eq!(drawn, vec![0, 6, 12, 18, 24]);

    let mut image = vec![false; 25];
    draw_line(&mut image, 5, 3, 3, 3, 3);
    let drawn: Vec<usize> = (0..25).filter(|&i| image[i]).collect();
    assert_eq!(drawn, vec![18]);

    let mut image = vec![false; 25];
    image[0] = true;
    draw_line(&mut image, 5, 1, 4, 0, 1);
    let drawn: Vec<usize> = (0..25).filter(|&i| image[i]).collect();
    // (1,4) (1,3) (0,2) (0,1), on top of what was there
    assert_eq!(drawn, vec![0, 5, 10, 16, 21]);
}

#[test]
fn test_prune_branches() {
    // Create a T-shape (main line with a branch)
    let mut skeleton = vec![false; 49]; // 7x7
    // Horizontal line
    skeleton[22] = true; // (1, 3)
    skeleton[23] = true; // (2, 3)
    skeleton[24] = true; // (3, 3)
    skeleton[25] = true; // (4, 3)
    skeleton[26] = true; // (5, 3)
    // Vertical branch
    skeleton[17] = true; // (3, 2)
    skeleton[10] = true; // (3, 1)

    let initial_count: usize = skeleton.iter().filter(|&&x| x).count();

    prune_branches(&mut skeleton, 7, 7, 2, 50);

    let final_count: usize = skeleton.iter().filter(|&&x| x).count();

    // Should have removed some pixels
    assert!(final_count <= initial_count);
}

#[test]
fn prune_branches_stays_within_the_budget() {
    let mut skeleton = vec![false; 49]; // 7x7
    for i in [22, 23, 24, 25, 26, 17, 10] {
        skeleton[i] = true;
    }
    // 7 cells, 50 hundredths: at most 3 go. The first round has the three
    // ends (3,1), (1,3), (5,3) and uses the budget up.
    prune_branches(&mut skeleton, 7, 7, 2, 50);
    let left: Vec<usize> = (0..49).filter(|&i| skeleton[i]).collect();
    assert_eq!(left, vec![17, 23, 24, 25]);
}

#[test]
fn prune_branches_cuts_the_round_that_would_go_over() {
    let mut skeleton = vec![false; 49];
    for i in [22, 23, 24, 25, 26, 17, 10] {
        skeleton[i] = true;
    }
    // 7 cells, 30 hundredths: 2 cells. The round has three endpoints and
    // removes the first two in row-major order.
    prune_branches(&mut skeleton, 7, 7, 5, 30);
    let left: Vec<usize> = (0..49).filter(|&i| skeleton[i]).collect();
    assert_eq!(left, vec![17, 23, 24, 25, 26]);
}

#[test]
fn prune_branches_without_budget_or_rounds_changes_nothing() {
    let mut skeleton = vec![false; 49];
    for i in [22, 23, 24, 25, 26, 17, 10] {
        skeleton[i] = true;
    }
    let before = skeleton.clone();
    prune_branches(&mut skeleton, 7, 7, 4, 0);
    assert_eq!(skeleton, before);
    prune_branches(&mut skeleton, 7, 7, 0, 100);
    assert_eq!(skeleton, before);
    // 14 hundredths of 7 cells is less than one cell
    prune_branches(&mut skeleton, 7, 7, 4, 14);
    assert_eq!(skeleton, before);
}

#[test]
fn prune_to_budget_runs_round_after_round() {
    let mut skeleton = vec![false; 81]; // 9x9
    for x in 1..8 {
        skeleton[4 * 9 + x] = true;
    }
    prune_to_budget(&mut skeleton, 9, 9, 2, 100);
    let left: Vec<usize> = (0..81).filter(|&i| skeleton[i]).collect();
    assert_eq!(left, vec![39, 40, 41]);
    prune_to_budget(&mut skeleton, 9, 9, 10, 100);
    // the last cell has no neighbour left and is no endpoint
    let left: Vec<usize> = (0..81).filter(|&i| skeleton[i]).collect();
    assert_eq!(left, vec![40]);
}
