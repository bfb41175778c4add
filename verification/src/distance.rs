//! Chamfer distance field: for every cell, the distance to the nearest
//! foreground cell, where a step along an axis costs 1000 and a diagonal step
//! costs 1414 (thousandths of a pixel).
//!
//! The field is computed in two raster scans. The proofs show that the scans
//! reach the true minimum over all foreground cells: the chamfer distance
//! obeys the triangle inequality, and a cheapest path between two cells can be
//! ordered so that its steps to the right and downwards come first.

use vstd::prelude::*;
use crate::raster::{
    cell_index, in_bounds, is_raster, lemma_cell_index, lemma_index_cell, neighbour_cell, pixel,
};

verus! {

/// Cost of one step along an axis, in thousandths of a pixel.
pub const AXIAL_COST: u32 = 1000;

/// Cost of one diagonal step, in thousandths of a pixel.
pub const DIAGONAL_COST: u32 = 1414;

/// The value of a cell that no foreground cell reaches: effectively infinite.
pub const FAR: u32 = 0xffff_ffff;

/// The chamfer distance between two cells that lie `dx` columns and `dy` rows
/// apart: diagonal steps as far as both offsets allow, axial steps for the
/// rest.
pub open spec fn chamfer(dx: int, dy: int) -> int {
    let ax = if dx < 0 { -dx } else { dx };
    let ay = if dy < 0 { -dy } else { dy };
    if ax >= ay {
        1000 * (ax - ay) + 1414 * ay
    } else {
        1000 * (ay - ax) + 1414 * ax
    }
}

/// Whether `d` is the distance from `(x, y)` to the nearest foreground cell of
/// `mask`, cut off at `FAR`: no foreground cell is nearer than `d`, and unless
/// `d` is `FAR` some foreground cell is exactly that far.
pub open spec fn is_distance_to_foreground(
    mask: Seq<bool>,
    width: int,
    height: int,
    x: int,
    y: int,
    d: int,
) -> bool {
    &&& 0 <= d <= FAR
    &&& forall|sx: int, sy: int| #[trigger]
        pixel(mask, width, height, sx, sy) ==> d <= chamfer(x - sx, y - sy)
    &&& (d == FAR || exists|sx: int, sy: int| #[trigger]
        pixel(mask, width, height, sx, sy) && chamfer(x - sx, y - sy) == d)
}

/// The distance from `(x, y)` to the nearest foreground cell of `mask`, cut
/// off at `FAR`.
pub open spec fn distance_to_foreground(mask: Seq<bool>, width: int, height: int, x: int, y: int) -> int {
    choose|d: int| is_distance_to_foreground(mask, width, height, x, y, d)
}

/// Whether `field` is the distance field of `mask`.
pub open spec fn is_distance_field(mask: Seq<bool>, width: int, height: int, field: Seq<u32>) -> bool {
    &&& field.len() == width * height
    &&& forall|i: int|
        0 <= i < field.len() ==> is_distance_to_foreground(
            mask,
            width,
            height,
            i % width,
            i / width,
            #[trigger] field[i] as int,
        )
}

/// A cell has one distance to the foreground and no other.
pub proof fn lemma_distance_unique(mask: Seq<bool>, width: int, height: int, x: int, y: int, d: int)
    requires
        is_distance_to_foreground(mask, width, height, x, y, d),
    ensures
        distance_to_foreground(mask, width, height, x, y) == d,
{
    let e = distance_to_foreground(mask, width, height, x, y);
    assert(is_distance_to_foreground(mask, width, height, x, y, e));
}

/// A distance field holds, cell by cell, the distance to the foreground.
pub proof fn lemma_field_values(mask: Seq<bool>, width: int, height: int, field: Seq<u32>)
    requires
        is_distance_field(mask, width, height, field),
    ensures
        forall|i: int|
            0 <= i < field.len() ==> #[trigger] field[i] == distance_to_foreground(
                mask,
                width,
                height,
                i % width,
                i / width,
            ),
{
    assert forall|i: int| 0 <= i < field.len() implies #[trigger] field[i]
        == distance_to_foreground(mask, width, height, i % width, i / width) by {
        lemma_distance_unique(mask, width, height, i % width, i / width, field[i] as int);
    }
}

/// The chamfer distance approximates the Euclidean distance with a bounded
/// relative error: it is never more than 0.04% below it and never more than
/// 8.3% above it. Stated over squares, with the chamfer distance in
/// thousandths of a pixel: its square lies between 999396 and 1171600 times
/// the squared Euclidean distance in pixels.
pub proof fn lemma_chamfer_near_euclidean(dx: int, dy: int)
    ensures
        999396 * (dx * dx + dy * dy) <= chamfer(dx, dy) * chamfer(dx, dy),
        chamfer(dx, dy) * chamfer(dx, dy) <= 1171600 * (dx * dx + dy * dy),
{
    let ax = if dx < 0 { -dx } else { dx };
    let ay = if dy < 0 { -dy } else { dy };
    let l = if ax >= ay { ax } else { ay };
    let s = if ax >= ay { ay } else { ax };
    let c = chamfer(dx, dy);
    assert(c == 1000 * l + 414 * s);
    let ll = l * l;
    let ls = l * s;
    let ss = s * s;
    assert(dx * dx + dy * dy == ll + ss) by (nonlinear_arith)
        requires
            (l == dx || l == -dx) && (s == dy || s == -dy) || (l == dy || l == -dy) && (s == dx || s
                == -dx),
            ll == l * l,
            ss == s * s,
    ;
    assert(c * c == 1000000 * ll + 828000 * ls + 171396 * ss) by (nonlinear_arith)
        requires
            c == 1000 * l + 414 * s,
            ll == l * l,
            ls == l * s,
            ss == s * s,
    ;
    assert(ls >= ss && ll >= 0 && ss >= 0) by (nonlinear_arith)
        requires
            l >= s,
            s >= 0,
            ll == l * l,
            ls == l * s,
            ss == s * s,
    ;
    let t = 343200 * l - 828000 * s;
    assert(t * t == 117786240000 * ll - 568339200000 * ls + 685584000000 * ss) by (nonlinear_arith)
        requires
            t == 343200 * l - 828000 * s,
            ll == l * l,
            ls == l * s,
            ss == s * s,
    ;
    assert(t * t >= 0) by (nonlinear_arith);
}

/// Foreground cells are at distance 0: on a mask that is foreground
/// throughout, the field is 0 throughout.
pub proof fn lemma_distance_at_foreground(
    mask: Seq<bool>,
    width: int,
    height: int,
    field: Seq<u32>,
    i: int,
)
    requires
        is_raster(mask, width, height),
        is_distance_field(mask, width, height, field),
        0 <= i < mask.len(),
        mask[i],
    ensures
        field[i] == 0,
{
    lemma_index_cell(width, height, i);
    assert(is_distance_to_foreground(mask, width, height, i % width, i / width, field[i] as int));
    assert(pixel(mask, width, height, i % width, i / width));
}

/// On a mask without foreground every cell of the field holds `FAR`.
pub proof fn lemma_distance_without_foreground(
    mask: Seq<bool>,
    width: int,
    height: int,
    field: Seq<u32>,
    i: int,
)
    requires
        is_raster(mask, width, height),
        is_distance_field(mask, width, height, field),
        forall|k: int| 0 <= k < mask.len() ==> !mask[k],
        0 <= i < mask.len(),
    ensures
        field[i] == FAR,
{
    assert(is_distance_to_foreground(mask, width, height, i % width, i / width, field[i] as int));
    assert forall|sx: int, sy: int| !#[trigger] pixel(mask, width, height, sx, sy) by {
        if in_bounds(width, height, sx, sy) {
            lemma_cell_index(width, height, sx, sy);
        }
    }
}

/// On a mask whose only foreground cell is `(cx, cy)`, the field holds at
/// `(x, y)` the chamfer distance between the two cells (as long as that is
/// below `FAR`): 1000 at the four axial neighbours of `(cx, cy)` and 1414 at
/// its four diagonal neighbours.
pub proof fn lemma_distance_to_single_cell(
    mask: Seq<bool>,
    width: int,
    height: int,
    field: Seq<u32>,
    cx: int,
    cy: int,
    x: int,
    y: int,
)
    requires
        is_raster(mask, width, height),
        is_distance_field(mask, width, height, field),
        in_bounds(width, height, cx, cy),
        in_bounds(width, height, x, y),
        forall|k: int| 0 <= k < mask.len() ==> (mask[k] <==> k == cy * width + cx),
        chamfer(x - cx, y - cy) < FAR,
    ensures
        field[y * width + x] == chamfer(x - cx, y - cy),
        (x - cx == 1 || cx - x == 1) && y == cy ==> field[y * width + x] == 1000,
        (y - cy == 1 || cy - y == 1) && x == cx ==> field[y * width + x] == 1000,
        (x - cx == 1 || cx - x == 1) && (y - cy == 1 || cy - y == 1) ==> field[y * width + x]
            == 1414,
{
    lemma_cell_index(width, height, x, y);
    lemma_cell_index(width, height, cx, cy);
    let i = y * width + x;
    let d = field[i] as int;
    assert(is_distance_to_foreground(mask, width, height, i % width, i / width, d));
    assert(pixel(mask, width, height, cx, cy));
    assert forall|sx: int, sy: int| #[trigger] pixel(mask, width, height, sx, sy) implies sx == cx
        && sy == cy by {
        lemma_cell_index(width, height, sx, sy);
    }
}

/// Offsets that a path of steps to the right and downwards covers at its
/// cheapest: the target lies below the source or on its row, inside the cone
/// that the two downward diagonals span.
spec fn scanned_first(dx: int, dy: int) -> bool {
    dy >= 0 && dx >= -dy
}

/// No foreground cell that the first scan can carry to `(x, y)` is nearer
/// than `v`.
#[verifier::opaque]
spec fn below_scanned(mask: Seq<bool>, width: int, height: int, x: int, y: int, v: int) -> bool {
    forall|sx: int, sy: int| #[trigger]
        pixel(mask, width, height, sx, sy) && scanned_first(x - sx, y - sy) ==> v <= chamfer(
            x - sx,
            y - sy,
        )
}

/// No foreground cell is nearer to `(x, y)` than `v`.
#[verifier::opaque]
spec fn below_all(mask: Seq<bool>, width: int, height: int, x: int, y: int, v: int) -> bool {
    forall|sx: int, sy: int| #[trigger]
        pixel(mask, width, height, sx, sy) ==> v <= chamfer(x - sx, y - sy)
}

/// `v` is `FAR`, or the foreground cell `s` is no farther from `(x, y)` than
/// `v`.
spec fn reached_from(
    mask: Seq<bool>,
    width: int,
    height: int,
    x: int,
    y: int,
    v: int,
    s: (int, int),
) -> bool {
    v == FAR || (pixel(mask, width, height, s.0, s.1) && chamfer(x - s.0, y - s.1) <= v)
}

/// The sum of a cell's value and a step cost, cut off at `FAR`.
spec fn stepped(v: int, cost: int) -> int {
    if v + cost > FAR {
        FAR as int
    } else {
        v + cost
    }
}

/// The triangle inequality for one step: moving the target to one of its
/// eight neighbours adds at most the cost of that step.
proof fn lemma_chamfer_step(dx: int, dy: int, ex: int, ey: int)
    requires
        -1 <= ex <= 1,
        -1 <= ey <= 1,
    ensures
        chamfer(dx + ex, dy + ey) <= chamfer(dx, dy) + (if ex != 0 && ey != 0 {
            1414
        } else {
            1000int
        }),
{
}

/// One cell of the first scan: the new value of `(x, y)` is below every
/// foreground cell that the scan can carry there, given that this holds of
/// the neighbours visited before it.
proof fn lemma_first_scan_cell(
    mask: Seq<bool>,
    width: int,
    height: int,
    x: int,
    y: int,
    left: int,
    up: int,
    up_left: int,
    up_right: int,
    v: int,
)
    requires
        in_bounds(width, height, x, y),
        pixel(mask, width, height, x, y) ==> v == 0,
        x > 0 ==> below_scanned(mask, width, height, x - 1, y, left) && v <= stepped(left, 1000),
        y > 0 ==> below_scanned(mask, width, height, x, y - 1, up) && v <= stepped(up, 1000),
        x > 0 && y > 0 ==> below_scanned(mask, width, height, x - 1, y - 1, up_left) && v
            <= stepped(up_left, 1414),
        x < width - 1 && y > 0 ==> below_scanned(mask, width, height, x + 1, y - 1, up_right) && v
            <= stepped(up_right, 1414),
    ensures
        below_scanned(mask, width, height, x, y, v),
{
    reveal(below_scanned);
    assert forall|sx: int, sy: int| #[trigger]
        pixel(mask, width, height, sx, sy) && scanned_first(x - sx, y - sy) implies v <= chamfer(
        x - sx,
        y - sy,
    ) by {
        let dx = x - sx;
        let dy = y - sy;
        if dx == 0 && dy == 0 {
        } else if dx > dy {
            assert(scanned_first((x - 1) - sx, y - sy));
            assert(left <= chamfer((x - 1) - sx, y - sy));
        } else if dx == dy {
            assert(scanned_first((x - 1) - sx, (y - 1) - sy));
            assert(up_left <= chamfer((x - 1) - sx, (y - 1) - sy));
        } else if dx == -dy {
            assert(scanned_first((x + 1) - sx, (y - 1) - sy));
            assert(up_right <= chamfer((x + 1) - sx, (y - 1) - sy));
        } else {
            assert(scanned_first(x - sx, (y - 1) - sy));
            assert(up <= chamfer(x - sx, (y - 1) - sy));
        }
    }
}

/// One cell of the second scan: the new value of `(x, y)` is below every
/// foreground cell, given the first scan's value there and the final values
/// of the neighbours visited before it.
proof fn lemma_second_scan_cell(
    mask: Seq<bool>,
    width: int,
    height: int,
    x: int,
    y: int,
    before: int,
    right: int,
    down: int,
    down_right: int,
    down_left: int,
    v: int,
)
    requires
        in_bounds(width, height, x, y),
        below_scanned(mask, width, height, x, y, before),
        v <= before,
        x < width - 1 ==> below_all(mask, width, height, x + 1, y, right) && v <= stepped(
            right,
            1000,
        ),
        y < height - 1 ==> below_all(mask, width, height, x, y + 1, down) && v <= stepped(
            down,
            1000,
        ),
        x < width - 1 && y < height - 1 ==> below_all(mask, width, height, x + 1, y + 1, down_right)
            && v <= stepped(down_right, 1414),
        x > 0 && y < height - 1 ==> below_all(mask, width, height, x - 1, y + 1, down_left) && v
            <= stepped(down_left, 1414),
    ensures
        below_all(mask, width, height, x, y, v),
{
    reveal(below_scanned);
    reveal(below_all);
    assert forall|sx: int, sy: int| #[trigger] pixel(mask, width, height, sx, sy) implies v
        <= chamfer(x - sx, y - sy) by {
        let dx = x - sx;
        let dy = y - sy;
        if scanned_first(dx, dy) {
        } else if dy >= 0 {
            // to the left of the cone: the last step goes left
            assert(right <= chamfer((x + 1) - sx, y - sy));
        } else if dx > 0 && dx >= -dy {
            // above and to the right: the last step goes up and right
            assert(down_left <= chamfer((x - 1) - sx, (y + 1) - sy));
        } else if dx < 0 && -dx > -dy {
            assert(right <= chamfer((x + 1) - sx, y - sy));
        } else if dx < 0 && -dx == -dy {
            assert(down_right <= chamfer((x + 1) - sx, (y + 1) - sy));
        } else {
            assert(down <= chamfer(x - sx, (y + 1) - sy));
        }
    }
}

/// A value taken over from a neighbour, plus the step, is reached from the
/// foreground cell that the neighbour's value is reached from.
proof fn lemma_reached_via(
    mask: Seq<bool>,
    width: int,
    height: int,
    x: int,
    y: int,
    ex: int,
    ey: int,
    neighbour: int,
    s: (int, int),
)
    requires
        -1 <= ex <= 1,
        -1 <= ey <= 1,
        0 <= neighbour <= FAR,
        reached_from(mask, width, height, x - ex, y - ey, neighbour, s),
    ensures
        reached_from(
            mask,
            width,
            height,
            x,
            y,
            stepped(neighbour, if ex != 0 && ey != 0 {
                1414
            } else {
                1000int
            }),
            s,
        ),
{
    lemma_chamfer_step((x - ex) - s.0, (y - ey) - s.1, ex, ey);
}

/// The smallest of `current`, the axial neighbours' values plus the axial
/// cost, and the diagonal neighbours' values plus the diagonal cost, each sum
/// cut off at `FAR`. A neighbour outside the raster is `None`.
fn relax(
    current: u32,
    axial_a: Option<u32>,
    axial_b: Option<u32>,
    diagonal_a: Option<u32>,
    diagonal_b: Option<u32>,
) -> (v: u32)
    ensures
        v <= current,
        axial_a matches Some(a) ==> v <= stepped(a as int, 1000),
        axial_b matches Some(b) ==> v <= stepped(b as int, 1000),
        diagonal_a matches Some(c) ==> v <= stepped(c as int, 1414),
        diagonal_b matches Some(d) ==> v <= stepped(d as int, 1414),
        v == current || (axial_a matches Some(a) && v == stepped(a as int, 1000)) || (axial_b matches Some(
            b,
        ) && v == stepped(b as int, 1000)) || (diagonal_a matches Some(c) && v == stepped(
            c as int,
            1414,
        )) || (diagonal_b matches Some(d) && v == stepped(d as int, 1414)),
{
    let mut best: u32 = current;
    if let Some(a) = axial_a {
        let through: u32 = a.saturating_add(AXIAL_COST);
        if through < best {
            best = through;
        }
    }
    if let Some(b) = axial_b {
        let through: u32 = b.saturating_add(AXIAL_COST);
        if through < best {
            best = through;
        }
    }
    if let Some(c) = diagonal_a {
        let through: u32 = c.saturating_add(DIAGONAL_COST);
        if through < best {
            best = through;
        }
    }
    if let Some(d) = diagonal_b {
        let through: u32 = d.saturating_add(DIAGONAL_COST);
        if through < best {
            best = through;
        }
    }
    best
}

/// Writes `v` to the cell `(x, y)` of `field` and records the foreground cell
/// `via` that the value is reached from.
proof fn lemma_cell_written(
    mask: Seq<bool>,
    width: int,
    height: int,
    before: Seq<u32>,
    after: Seq<u32>,
    from: Seq<(int, int)>,
    x: int,
    y: int,
    via: (int, int),
)
    requires
        in_bounds(width, height, x, y),
        before.len() == width * height,
        from.len() == before.len(),
        after == before.update(y * width + x, after[y * width + x]),
        reached_from(mask, width, height, x, y, after[y * width + x] as int, via),
        forall|i: int|
            0 <= i < before.len() ==> reached_from(
                mask,
                width,
                height,
                i % width,
                i / width,
                #[trigger] before[i] as int,
                from[i],
            ),
    ensures
        forall|i: int|
            0 <= i < after.len() ==> reached_from(
                mask,
                width,
                height,
                i % width,
                i / width,
                #[trigger] after[i] as int,
                from.update(y * width + x, via)[i],
            ),
{
    lemma_cell_index(width, height, x, y);
    assert forall|i: int| 0 <= i < after.len() implies reached_from(
        mask,
        width,
        height,
        i % width,
        i / width,
        #[trigger] after[i] as int,
        from.update(y * width + x, via)[i],
    ) by {
        if i != y * width + x {
            assert(after[i] == before[i]);
        }
    }
}

/// The foreground cell that a relaxed value is reached from: that of the
/// cell itself if the value stayed, else that of the neighbour it came over.
proof fn lemma_relaxed_reached(
    mask: Seq<bool>,
    width: int,
    height: int,
    field: Seq<u32>,
    from: Seq<(int, int)>,
    x: int,
    y: int,
    current: int,
    ey: int,
    v: int,
) -> (via: (int, int))
    requires
        in_bounds(width, height, x, y),
        field.len() == width * height,
        from.len() == field.len(),
        ey == 1 || ey == -1,
        forall|i: int|
            0 <= i < field.len() ==> reached_from(
                mask,
                width,
                height,
                i % width,
                i / width,
                #[trigger] field[i] as int,
                from[i],
            ),
        current == FAR || current == field[y * width + x],
        v == current || (in_bounds(width, height, x - ey, y) && v == stepped(
            field[y * width + (x - ey)] as int,
            1000,
        )) || (in_bounds(width, height, x, y - ey) && v == stepped(
            field[(y - ey) * width + x] as int,
            1000,
        )) || (in_bounds(width, height, x - ey, y - ey) && v == stepped(
            field[(y - ey) * width + (x - ey)] as int,
            1414,
        )) || (in_bounds(width, height, x + ey, y - ey) && v == stepped(
            field[(y - ey) * width + (x + ey)] as int,
            1414,
        )),
    ensures
        reached_from(mask, width, height, x, y, v, via),
{
    lemma_cell_index(width, height, x, y);
    if v == current {
        from[y * width + x]
    } else if in_bounds(width, height, x - ey, y) && v == stepped(
        field[y * width + (x - ey)] as int,
        1000,
    ) {
        lemma_cell_index(width, height, x - ey, y);
        let i = y * width + (x - ey);
        lemma_reached_via(mask, width, height, x, y, ey, 0, field[i] as int, from[i]);
        from[i]
    } else if in_bounds(width, height, x, y - ey) && v == stepped(
        field[(y - ey) * width + x] as int,
        1000,
    ) {
        lemma_cell_index(width, height, x, y - ey);
        let i = (y - ey) * width + x;
        lemma_reached_via(mask, width, height, x, y, 0, ey, field[i] as int, from[i]);
        from[i]
    } else if in_bounds(width, height, x - ey, y - ey) && v == stepped(
        field[(y - ey) * width + (x - ey)] as int,
        1414,
    ) {
        lemma_cell_index(width, height, x - ey, y - ey);
        let i = (y - ey) * width + (x - ey);
        lemma_reached_via(mask, width, height, x, y, ey, ey, field[i] as int, from[i]);
        from[i]
    } else {
        lemma_cell_index(width, height, x + ey, y - ey);
        let i = (y - ey) * width + (x + ey);
        lemma_reached_via(mask, width, height, x, y, -ey, ey, field[i] as int, from[i]);
        from[i]
    }
}

/// The values that the first scan has settled, seen from the cell `(x, y)`
/// that it visits next.
spec fn first_scan_done(mask: Seq<bool>, width: int, height: int, field: Seq<u32>, done: int) -> bool {
    forall|i: int|
        0 <= i < done ==> below_scanned(mask, width, height, i % width, i / width, #[trigger] field[i] as int)
}

/// The values that the second scan has settled: those from index `done` on.
spec fn second_scan_done(mask: Seq<bool>, width: int, height: int, field: Seq<u32>, done: int) -> bool {
    forall|i: int|
        done <= i < field.len() ==> below_all(mask, width, height, i % width, i / width, #[trigger] field[i] as int)
}

/// The first scan settles one more cell.
proof fn lemma_first_scan_advances(
    mask: Seq<bool>,
    width: int,
    height: int,
    before: Seq<u32>,
    x: int,
    y: int,
    v: u32,
)
    requires
        in_bounds(width, height, x, y),
        before.len() == width * height,
        first_scan_done(mask, width, height, before, y * width + x),
        pixel(mask, width, height, x, y) ==> v == 0,
        in_bounds(width, height, x - 1, y) ==> v <= stepped(before[y * width + (x - 1)] as int, 1000),
        in_bounds(width, height, x, y - 1) ==> v <= stepped(before[(y - 1) * width + x] as int, 1000),
        in_bounds(width, height, x - 1, y - 1) ==> v <= stepped(
            before[(y - 1) * width + (x - 1)] as int,
            1414,
        ),
        in_bounds(width, height, x + 1, y - 1) ==> v <= stepped(
            before[(y - 1) * width + (x + 1)] as int,
            1414,
        ),
    ensures
        first_scan_done(mask, width, height, before.update(y * width + x, v), y * width + x + 1),
{
    let after = before.update(y * width + x, v);
    lemma_cell_index(width, height, x, y);
    if x > 0 {
        lemma_cell_index(width, height, x - 1, y);
    }
    if y > 0 {
        lemma_cell_index(width, height, x, y - 1);
        assert((y - 1) * width + x == y * width + x - width) by (nonlinear_arith);
    }
    if x > 0 && y > 0 {
        lemma_cell_index(width, height, x - 1, y - 1);
    }
    if x < width - 1 && y > 0 {
        lemma_cell_index(width, height, x + 1, y - 1);
    }
    lemma_first_scan_cell(
        mask,
        width,
        height,
        x,
        y,
        before[y * width + (x - 1)] as int,
        before[(y - 1) * width + x] as int,
        before[(y - 1) * width + (x - 1)] as int,
        before[(y - 1) * width + (x + 1)] as int,
        v as int,
    );
    assert forall|i: int| 0 <= i < y * width + x + 1 implies below_scanned(
        mask,
        width,
        height,
        i % width,
        i / width,
        #[trigger] after[i] as int,
    ) by {
        if i != y * width + x {
            assert(after[i] == before[i]);
        }
    }
}

/// The second scan settles one more cell.
proof fn lemma_second_scan_advances(
    mask: Seq<bool>,
    width: int,
    height: int,
    before: Seq<u32>,
    x: int,
    y: int,
    v: u32,
)
    requires
        in_bounds(width, height, x, y),
        before.len() == width * height,
        first_scan_done(mask, width, height, before, y * width + x + 1),
        second_scan_done(mask, width, height, before, y * width + x + 1),
        v <= before[y * width + x],
        in_bounds(width, height, x + 1, y) ==> v <= stepped(before[y * width + (x + 1)] as int, 1000),
        in_bounds(width, height, x, y + 1) ==> v <= stepped(before[(y + 1) * width + x] as int, 1000),
        in_bounds(width, height, x + 1, y + 1) ==> v <= stepped(
            before[(y + 1) * width + (x + 1)] as int,
            1414,
        ),
        in_bounds(width, height, x - 1, y + 1) ==> v <= stepped(
            before[(y + 1) * width + (x - 1)] as int,
            1414,
        ),
    ensures
        first_scan_done(mask, width, height, before.update(y * width + x, v), y * width + x),
        second_scan_done(mask, width, height, before.update(y * width + x, v), y * width + x),
{
    let after = before.update(y * width + x, v);
    lemma_cell_index(width, height, x, y);
    if x < width - 1 {
        lemma_cell_index(width, height, x + 1, y);
    }
    if y < height - 1 {
        lemma_cell_index(width, height, x, y + 1);
        assert((y + 1) * width + x == y * width + x + width) by (nonlinear_arith);
    }
    if x < width - 1 && y < height - 1 {
        lemma_cell_index(width, height, x + 1, y + 1);
    }
    if x > 0 && y < height - 1 {
        lemma_cell_index(width, height, x - 1, y + 1);
    }
    lemma_second_scan_cell(
        mask,
        width,
        height,
        x,
        y,
        before[y * width + x] as int,
        before[y * width + (x + 1)] as int,
        before[(y + 1) * width + x] as int,
        before[(y + 1) * width + (x + 1)] as int,
        before[(y + 1) * width + (x - 1)] as int,
        v as int,
    );
    assert forall|i: int| 0 <= i < y * width + x implies below_scanned(
        mask,
        width,
        height,
        i % width,
        i / width,
        #[trigger] after[i] as int,
    ) by {
        assert(after[i] == before[i]);
    }
    assert forall|i: int| y * width + x <= i < after.len() implies below_all(
        mask,
        width,
        height,
        i % width,
        i / width,
        #[trigger] after[i] as int,
    ) by {
        if i != y * width + x {
            assert(after[i] == before[i]);
        }
    }
}

/// The chamfer distance field of `binary`: each cell of the result holds the
/// distance, in thousandths of a pixel, from that cell to the nearest
/// foreground cell. Foreground cells hold 0; where the mask has no foreground
/// at all, every cell holds `FAR`.
pub fn distance_transform_edt(binary: &[bool], width: usize, height: usize) -> (result: Vec<u32>)
    requires
        binary@.len() == width * height,
    ensures
        is_distance_field(binary@, width as int, height as int, result@),
{
    let n: usize = binary.len();
    let mut result: Vec<u32> = vec![FAR; n];
    let ghost w = width as int;
    let ghost h = height as int;
    let ghost mask = binary@;
    let ghost mut from: Seq<(int, int)> = Seq::new(n as nat, |i: int| (0int, 0int));

    let mut y: usize = 0;
    while y < height
        invariant
            y <= height,
            n == width * height,
            mask == binary@,
            mask.len() == n,
            w == width,
            h == height,
            result@.len() == n,
            from.len() == n,
            first_scan_done(mask, w, h, result@, y * w),
            forall|i: int|
                0 <= i < n ==> reached_from(mask, w, h, i % w, i / w, #[trigger] result@[i] as int, from[i]),
        decreases height - y,
    {
        let mut x: usize = 0;
        while x < width
            invariant
                y < height,
                x <= width,
                n == width * height,
                mask == binary@,
                mask.len() == n,
                w == width,
                h == height,
                result@.len() == n,
                from.len() == n,
                first_scan_done(mask, w, h, result@, y * w + x),
                forall|i: int|
                    0 <= i < n ==> reached_from(
                        mask,
                        w,
                        h,
                        i % w,
                        i / w,
                        #[trigger] result@[i] as int,
                        from[i],
                    ),
            decreases width - x,
        {
            let idx: usize = cell_index(width, height, x, y);
            let ghost before = result@;
            let ghost via: (int, int);
            let v: u32 = if binary[idx] {
                proof {
                    via = (x as int, y as int);
                }
                0
            } else {
                let left = neighbour_cell(result.as_slice(), width, height, x, y, -1, 0);
                let up = neighbour_cell(result.as_slice(), width, height, x, y, 0, -1);
                let up_left = neighbour_cell(result.as_slice(), width, height, x, y, -1, -1);
                let up_right = neighbour_cell(result.as_slice(), width, height, x, y, 1, -1);
                let best: u32 = relax(FAR, left, up, up_left, up_right);
                proof {
                    via = lemma_relaxed_reached(mask, w, h, before, from, x as int, y as int, FAR as int, 1, best as int);
                }
                best
            };
            result.set(idx, v);
            proof {
                lemma_first_scan_advances(mask, w, h, before, x as int, y as int, v);
                lemma_cell_written(mask, w, h, before, result@, from, x as int, y as int, via);
                from = from.update(idx as int, via);
            }
            x = x + 1;
        }
        proof {
            assert((y + 1) * w == y * w + w) by (nonlinear_arith);
        }
        y = y + 1;
    }

    let mut y: usize = height;
    while y > 0
        invariant
            y <= height,
            n == width * height,
            mask == binary@,
            mask.len() == n,
            w == width,
            h == height,
            result@.len() == n,
            from.len() == n,
            first_scan_done(mask, w, h, result@, y * w),
            second_scan_done(mask, w, h, result@, y * w),
            forall|i: int|
                0 <= i < n ==> reached_from(mask, w, h, i % w, i / w, #[trigger] result@[i] as int, from[i]),
        decreases y,
    {
        y = y - 1;
        proof {
            assert((y + 1) * w == y * w + w) by (nonlinear_arith);
        }
        let mut x: usize = width;
        while x > 0
            invariant
                y < height,
                x <= width,
                n == width * height,
                mask == binary@,
                mask.len() == n,
                w == width,
                h == height,
                result@.len() == n,
                from.len() == n,
                first_scan_done(mask, w, h, result@, y * w + x),
                second_scan_done(mask, w, h, result@, y * w + x),
                forall|i: int|
                    0 <= i < n ==> reached_from(
                        mask,
                        w,
                        h,
                        i % w,
                        i / w,
                        #[trigger] result@[i] as int,
                        from[i],
                    ),
            decreases x,
        {
            x = x - 1;
            let idx: usize = cell_index(width, height, x, y);
            let ghost before = result@;
            let right = neighbour_cell(result.as_slice(), width, height, x, y, 1, 0);
            let down = neighbour_cell(result.as_slice(), width, height, x, y, 0, 1);
            let down_right = neighbour_cell(result.as_slice(), width, height, x, y, 1, 1);
            let down_left = neighbour_cell(result.as_slice(), width, height, x, y, -1, 1);
            let v: u32 = relax(result[idx], right, down, down_right, down_left);
            result.set(idx, v);
            proof {
                let via = lemma_relaxed_reached(mask, w, h, before, from, x as int, y as int, before[idx as int] as int, -1, v as int);
                lemma_second_scan_advances(mask, w, h, before, x as int, y as int, v);
                lemma_cell_written(mask, w, h, before, result@, from, x as int, y as int, via);
                from = from.update(idx as int, via);
            }
        }
    }

    proof {
        assert forall|i: int| 0 <= i < result@.len() implies is_distance_to_foreground(
            mask,
            w,
            h,
            i % w,
            i / w,
            #[trigger] result@[i] as int,
        ) by {
            let v = result@[i] as int;
            reveal(below_all);
            assert(below_all(mask, w, h, i % w, i / w, v));
            assert(reached_from(mask, w, h, i % w, i / w, v, from[i]));
            if v != FAR {
                assert(pixel(mask, w, h, from[i].0, from[i].1));
            }
        }
    }
    result
}

} // verus!
