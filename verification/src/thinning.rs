//! Zhang-Suen thinning: reduces a stroke to a centreline one pixel wide.
//!
//! A pass has two sub-iterations. Each decides from the mask as it stood at
//! its own start which interior foreground cells go, and only then removes
//! them. Passes repeat until one removes nothing.

use vstd::prelude::*;
use crate::raster::{
    cell_index, foreground_count, lemma_cell_index, lemma_count_within, lemma_count_zero,
    lemma_index_cell,
};

verus! {

/// Whether `(x, y)` is an interior cell: one that has all of its eight
/// neighbours inside the raster.
pub open spec fn is_interior(width: int, height: int, x: int, y: int) -> bool {
    1 <= x < width - 1 && 1 <= y < height - 1
}

/// The eight neighbours of the interior cell `(x, y)`, clockwise from the
/// top: top, top-right, right, bottom-right, bottom, bottom-left, left,
/// top-left.
pub open spec fn neighbours(mask: Seq<bool>, width: int, x: int, y: int) -> Seq<bool> {
    seq![
        mask[(y - 1) * width + x],
        mask[(y - 1) * width + x + 1],
        mask[y * width + x + 1],
        mask[(y + 1) * width + x + 1],
        mask[(y + 1) * width + x],
        mask[(y + 1) * width + x - 1],
        mask[y * width + x - 1],
        mask[(y - 1) * width + x - 1],
    ]
}

/// The number of foreground cells among the first `k` of eight neighbours.
pub open spec fn neighbours_before(around: Seq<bool>, k: int) -> int
    decreases k,
{
    if k <= 0 {
        0
    } else {
        neighbours_before(around, k - 1) + if around[k - 1] {
            1int
        } else {
            0int
        }
    }
}

/// The number of foreground cells among the eight neighbours.
pub open spec fn neighbour_count(around: Seq<bool>) -> int {
    neighbours_before(around, 8)
}

/// The number of places among the first `k` where, walking the eight
/// neighbours in a circle, a background cell is followed by a foreground
/// cell.
pub open spec fn transitions_before(around: Seq<bool>, k: int) -> int
    decreases k,
{
    if k <= 0 {
        0
    } else {
        transitions_before(around, k - 1) + if !around[k - 1] && around[k % 8] {
            1int
        } else {
            0int
        }
    }
}

/// The number of changes from background to foreground on the circular walk
/// through the eight neighbours.
pub open spec fn transition_count(around: Seq<bool>) -> int {
    transitions_before(around, 8)
}

/// Whether a sub-iteration removes a foreground cell with the neighbours
/// `around`: between 2 and 6 of them are foreground, the circular walk has
/// exactly one change from background to foreground, and the sub-iteration's
/// two triples of axial neighbours each have a background cell. The first
/// sub-iteration looks at top-right-bottom and right-bottom-left, the second
/// at top-right-left and top-bottom-left.
pub open spec fn removes(around: Seq<bool>, second: bool) -> bool {
    &&& 2 <= neighbour_count(around) <= 6
    &&& transition_count(around) == 1
    &&& if second {
        !(around[0] && around[2] && around[6]) && !(around[0] && around[4] && around[6])
    } else {
        !(around[0] && around[2] && around[4]) && !(around[2] && around[4] && around[6])
    }
}

/// Whether a sub-iteration on `mask` removes the cell with index `i`: it is
/// an interior foreground cell whose neighbours meet the condition.
pub open spec fn removed_at(mask: Seq<bool>, width: int, height: int, second: bool, i: int) -> bool {
    &&& mask[i]
    &&& is_interior(width, height, i % width, i / width)
    &&& removes(neighbours(mask, width, i % width, i / width), second)
}

/// One sub-iteration: every removal is decided on `mask` as it is given.
pub open spec fn thin_step(mask: Seq<bool>, width: int, height: int, second: bool) -> Seq<bool> {
    Seq::new(mask.len(), |i: int| mask[i] && !removed_at(mask, width, height, second, i))
}

/// One pass: the first sub-iteration, then the second on its result.
pub open spec fn thin_pass(mask: Seq<bool>, width: int, height: int) -> Seq<bool> {
    thin_step(thin_step(mask, width, height, false), width, height, true)
}

/// The skeleton of `mask`: passes repeat as long as a pass removes a cell.
pub open spec fn skeleton(mask: Seq<bool>, width: int, height: int) -> Seq<bool>
    decreases foreground_count(mask),
{
    let next = thin_pass(mask, width, height);
    if foreground_count(next) < foreground_count(mask) {
        skeleton(next, width, height)
    } else {
        mask
    }
}

/// The count of transitions for the simplest neighbourhoods: none without
/// foreground, one around a single foreground cell or around two adjacent
/// ones, wherever on the circle they lie, and four where foreground and
/// background alternate.
pub proof fn lemma_transitions_of_patterns(around: Seq<bool>, at: int)
    requires
        around.len() == 8,
        0 <= at < 8,
    ensures
        (forall|i: int| 0 <= i < 8 ==> !around[i]) ==> transition_count(around) == 0,
        (forall|i: int| 0 <= i < 8 ==> (around[i] <==> i == at)) ==> transition_count(around) == 1,
        (forall|i: int| 0 <= i < 8 ==> (around[i] <==> i == at || i == (at + 1) % 8))
            ==> transition_count(around) == 1,
        (forall|i: int| 0 <= i < 8 ==> (around[i] <==> i % 2 == at % 2)) ==> transition_count(
            around,
        ) == 4,
{
    reveal_with_fuel(transitions_before, 9);
    assert(around[0] || !around[0]);
    assert(around[1] || !around[1]);
    assert(around[2] || !around[2]);
    assert(around[3] || !around[3]);
    assert(around[4] || !around[4]);
    assert(around[5] || !around[5]);
    assert(around[6] || !around[6]);
    assert(around[7] || !around[7]);
}

/// A pass only removes foreground, so it lowers the count unless it leaves
/// the mask as it is.
pub proof fn lemma_pass_within(mask: Seq<bool>, width: int, height: int)
    ensures
        thin_pass(mask, width, height).len() == mask.len(),
        forall|i: int| 0 <= i < mask.len() && thin_pass(mask, width, height)[i] ==> mask[i],
        foreground_count(thin_pass(mask, width, height)) <= foreground_count(mask),
        foreground_count(thin_pass(mask, width, height)) == foreground_count(mask) <==> thin_pass(
            mask,
            width,
            height,
        ) == mask,
{
    lemma_count_within(thin_pass(mask, width, height), mask);
}

/// The skeleton is a mask that a further pass leaves unchanged.
pub proof fn lemma_skeleton_is_stable(mask: Seq<bool>, width: int, height: int)
    ensures
        thin_pass(skeleton(mask, width, height), width, height) == skeleton(mask, width, height),
    decreases foreground_count(mask),
{
    let next = thin_pass(mask, width, height);
    lemma_pass_within(mask, width, height);
    if foreground_count(next) < foreground_count(mask) {
        lemma_skeleton_is_stable(next, width, height);
    }
}

/// Thinning removes foreground and never adds any: the skeleton lies within
/// the mask, and cells that are not interior keep their value.
pub proof fn lemma_skeleton_within(mask: Seq<bool>, width: int, height: int)
    ensures
        skeleton(mask, width, height).len() == mask.len(),
        forall|i: int| 0 <= i < mask.len() && skeleton(mask, width, height)[i] ==> mask[i],
        forall|i: int|
            0 <= i < mask.len() && !is_interior(width, height, i % width, i / width) ==> skeleton(
                mask,
                width,
                height,
            )[i] == mask[i],
        foreground_count(skeleton(mask, width, height)) <= foreground_count(mask),
    decreases foreground_count(mask),
{
    let next = thin_pass(mask, width, height);
    lemma_pass_within(mask, width, height);
    if foreground_count(next) < foreground_count(mask) {
        lemma_skeleton_within(next, width, height);
    }
}

/// A mask without foreground is its own skeleton.
pub proof fn lemma_skeleton_of_background(mask: Seq<bool>, width: int, height: int)
    requires
        forall|i: int| 0 <= i < mask.len() ==> !mask[i],
    ensures
        skeleton(mask, width, height) == mask,
{
    lemma_count_zero(mask);
}

/// The eight neighbours of the interior cell `(x, y)`, clockwise from the
/// top.
pub fn get_neighbors(binary: &[bool], x: usize, y: usize, width: usize) -> (around: [bool; 8])
    requires
        1 <= x,
        x + 1 < width,
        1 <= y,
        (y + 2) * width <= binary@.len(),
    ensures
        around@ == neighbours(binary@, width as int, x as int, y as int),
{
    let n: usize = binary.len();
    assert((y - 1) * width + width == y * width && y * width + width == (y + 1) * width && (y + 1)
        * width + width == (y + 2) * width && 0 <= (y - 1) * width) by (nonlinear_arith)
        requires
            y >= 1,
            width >= 0,
    ;
    let row: usize = y * width;
    let above: usize = row - width;
    let below: usize = row + width;
    let around: [bool; 8] = [
        binary[above + x],
        binary[above + x + 1],
        binary[row + x + 1],
        binary[below + x + 1],
        binary[below + x],
        binary[below + x - 1],
        binary[row + x - 1],
        binary[above + x - 1],
    ];
    assert(around@ =~= neighbours(binary@, width as int, x as int, y as int));
    around
}

/// Counts the changes from background to foreground on the circular walk
/// through the eight neighbours.
pub fn count_transitions(neighbors: &[bool; 8]) -> (count: u32)
    ensures
        count == transition_count(neighbors@),
{
    let mut count: u32 = 0;
    let mut i: usize = 0;
    while i < 8
        invariant
            i <= 8,
            count <= i,
            count == transitions_before(neighbors@, i as int),
        decreases 8 - i,
    {
        if !neighbors[i] && neighbors[(i + 1) % 8] {
            count = count + 1;
        }
        i = i + 1;
    }
    count
}

/// Counts the foreground cells among the eight neighbours.
pub fn count_neighbors(neighbors: &[bool; 8]) -> (count: u32)
    ensures
        count == neighbour_count(neighbors@),
{
    let mut count: u32 = 0;
    let mut i: usize = 0;
    while i < 8
        invariant
            i <= 8,
            count <= i,
            count == neighbours_before(neighbors@, i as int),
        decreases 8 - i,
    {
        if neighbors[i] {
            count = count + 1;
        }
        i = i + 1;
    }
    count
}

/// Whether the first sub-iteration removes a foreground cell at the interior
/// position `(x, y)`.
pub fn should_remove_subiteration1(binary: &[bool], x: usize, y: usize, width: usize) -> (gone:
    bool)
    requires
        1 <= x,
        x + 1 < width,
        1 <= y,
        (y + 2) * width <= binary@.len(),
    ensures
        gone == removes(neighbours(binary@, width as int, x as int, y as int), false),
{
    let neighbors = get_neighbors(binary, x, y, width);
    let n: u32 = count_neighbors(&neighbors);
    let t: u32 = count_transitions(&neighbors);
    n >= 2 && n <= 6 && t == 1 && !(neighbors[0] && neighbors[2] && neighbors[4]) && !(neighbors[2]
        && neighbors[4] && neighbors[6])
}

/// Whether the second sub-iteration removes a foreground cell at the
/// interior position `(x, y)`.
pub fn should_remove_subiteration2(binary: &[bool], x: usize, y: usize, width: usize) -> (gone:
    bool)
    requires
        1 <= x,
        x + 1 < width,
        1 <= y,
        (y + 2) * width <= binary@.len(),
    ensures
        gone == removes(neighbours(binary@, width as int, x as int, y as int), true),
{
    let neighbors = get_neighbors(binary, x, y, width);
    let n: u32 = count_neighbors(&neighbors);
    let t: u32 = count_transitions(&neighbors);
    n >= 2 && n <= 6 && t == 1 && !(neighbors[0] && neighbors[2] && neighbors[6]) && !(neighbors[0]
        && neighbors[4] && neighbors[6])
}

/// Runs one sub-iteration on `current` in place and tells whether it removed
/// a cell. The cells to remove are marked on the mask as it is given; only
/// then are they cleared.
fn thin_in_place(current: &mut Vec<bool>, width: usize, height: usize, second: bool) -> (changed:
    bool)
    requires
        old(current)@.len() == width * height,
    ensures
        final(current)@ == thin_step(old(current)@, width as int, height as int, second),
        changed == (final(current)@ != old(current)@),
{
    let n: usize = current.len();
    let ghost w = width as int;
    let ghost h = height as int;
    let ghost before = current@;
    if width < 3 || height < 3 {
        proof {
            assert forall|i: int| 0 <= i < n implies !removed_at(before, w, h, second, i) by {
                lemma_index_cell(w, h, i);
            }
            assert(current@ =~= thin_step(before, w, h, second));
        }
        return false;
    }
    let mut marked: Vec<bool> = vec![false; n];
    proof {
        assert(w <= w * h) by (nonlinear_arith)
            requires
                h >= 1,
                w >= 0,
        ;
        assert forall|i: int| 0 <= i < 1 * w implies !removed_at(before, w, h, second, i) by {
            lemma_cell_index(w, h, i, 0);
        }
    }
    let mut y: usize = 1;
    while y < height - 1
        invariant
            1 <= y <= height - 1,
            3 <= width,
            w == width,
            h == height,
            n == width * height,
            current@ == before,
            before.len() == n,
            marked@.len() == n,
            forall|i: int| 0 <= i < y * w ==> marked@[i] == removed_at(before, w, h, second, i),
            forall|i: int| y * w <= i < n ==> !marked@[i],
        decreases height - y,
    {
        proof {
            assert(y * w + w <= n) by (nonlinear_arith)
                requires
                    y + 1 <= h,
                    w >= 0,
                    n == w * h,
            ;
            assert forall|i: int| y * w <= i < y * w + 1 implies !removed_at(
                before,
                w,
                h,
                second,
                i,
            ) by {
                lemma_cell_index(w, h, 0, y as int);
            }
        }
        let mut x: usize = 1;
        while x < width - 1
            invariant
                1 <= y < height - 1,
                1 <= x <= width - 1,
                3 <= width,
                y * w + w <= n,
                w == width,
                h == height,
                n == width * height,
                current@ == before,
                before.len() == n,
                marked@.len() == n,
                forall|i: int|
                    0 <= i < y * w + x ==> marked@[i] == removed_at(before, w, h, second, i),
                forall|i: int| y * w + x <= i < n ==> !marked@[i],
            decreases width - x,
        {
            let idx: usize = cell_index(width, height, x, y);
            proof {
                lemma_cell_index(w, h, x as int, y as int);
                assert((y + 2) * w <= h * w && h * w == w * h) by (nonlinear_arith)
                    requires
                        y + 2 <= h,
                        w >= 0,
                ;
            }
            if current[idx] {
                let gone: bool = if second {
                    should_remove_subiteration2(current.as_slice(), x, y, width)
                } else {
                    should_remove_subiteration1(current.as_slice(), x, y, width)
                };
                if gone {
                    marked.set(idx, true);
                }
            }
            x = x + 1;
        }
        proof {
            assert((y + 1) * w == y * w + w) by (nonlinear_arith);
            assert forall|i: int| y * w + x <= i < (y + 1) * w implies !removed_at(
                before,
                w,
                h,
                second,
                i,
            ) by {
                lemma_cell_index(w, h, w - 1, y as int);
            }
        }
        y = y + 1;
    }
    proof {
        assert(height * width == width * height) by (nonlinear_arith);
        assert((height - 1) * w == h * w - w) by (nonlinear_arith)
            requires
                h == height,
        ;
        assert forall|i: int| 0 <= i < n implies marked@[i] == removed_at(
            before,
            w,
            h,
            second,
            i,
        ) by {
            lemma_index_cell(w, h, i);
            if i >= (height - 1) * w {
                lemma_cell_index(w, h, i % w, i / w);
                if i / w < h - 1 {
                    assert((i / w) * w + w <= (h - 1) * w) by (nonlinear_arith)
                        requires
                            i / w + 1 <= h - 1,
                            w >= 0,
                    ;
                }
            }
        }
    }
    let mut changed: bool = false;
    let mut i: usize = 0;
    while i < n
        invariant
            i <= n,
            w == width,
            h == height,
            before.len() == n,
            current@.len() == n,
            marked@.len() == n,
            forall|k: int| 0 <= k < n ==> marked@[k] == removed_at(before, w, h, second, k),
            forall|k: int| 0 <= k < i ==> current@[k] == (before[k] && !marked@[k]),
            forall|k: int| i <= k < n ==> current@[k] == before[k],
            changed == (exists|k: int| 0 <= k < i && #[trigger] marked@[k]),
        decreases n - i,
    {
        if marked[i] {
            current.set(i, false);
            changed = true;
        }
        i = i + 1;
    }
    proof {
        assert(current@ =~= thin_step(before, w, h, second));
        if changed {
            let k = choose|k: int| 0 <= k < n && #[trigger] marked@[k];
            assert(before[k] && !current@[k]);
        } else {
            assert(current@ =~= before);
        }
    }
    changed
}

/// Thins `binary` to its skeleton with the Zhang-Suen algorithm. Passes of
/// two sub-iterations repeat until a pass removes no cell. Only interior
/// cells are ever removed; the one-pixel border of the raster stays as it
/// is.
pub fn skeletonize(binary: &[bool], width: usize, height: usize) -> (result: Vec<bool>)
    requires
        binary@.len() == width * height,
    ensures
        result@ == skeleton(binary@, width as int, height as int),
{
    let mut current: Vec<bool> = vstd::slice::slice_to_vec(binary);
    let ghost w = width as int;
    let ghost h = height as int;
    let mut changed: bool = true;
    while changed
        invariant
            w == width,
            h == height,
            current@.len() == width * height,
            skeleton(current@, w, h) == skeleton(binary@, w, h),
            !changed ==> skeleton(current@, w, h) == current@,
        decreases foreground_count(current@) + (if changed { 1nat } else { 0nat }),
    {
        let ghost before = current@;
        let first: bool = thin_in_place(&mut current, width, height, false);
        let second: bool = thin_in_place(&mut current, width, height, true);
        changed = first || second;
        proof {
            lemma_pass_within(before, w, h);
            assert(current@ == thin_pass(before, w, h));
            if changed {
                lemma_count_within(thin_step(before, w, h, false), before);
                lemma_count_within(current@, thin_step(before, w, h, false));
            }
        }
    }
    current
}

} // verus!
