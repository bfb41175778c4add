//! Row-major rasters: addressing, and counting of foreground pixels.

use vstd::prelude::*;

verus! {

/// Whether `(x, y)` lies inside a raster of `width` by `height` cells.
pub open spec fn in_bounds(width: int, height: int, x: int, y: int) -> bool {
    0 <= x < width && 0 <= y < height
}

/// Whether `data` is a row-major raster of `width` by `height` cells.
pub open spec fn is_raster<T>(data: Seq<T>, width: int, height: int) -> bool {
    width >= 0 && height >= 0 && data.len() == width * height
}

/// The pixel at `(x, y)`. A position outside the raster is absent, and reads
/// as background.
pub open spec fn pixel(mask: Seq<bool>, width: int, height: int, x: int, y: int) -> bool {
    in_bounds(width, height, x, y) && mask[y * width + x]
}

/// The number of foreground cells of `mask`.
pub open spec fn foreground_count(mask: Seq<bool>) -> nat
    decreases mask.len(),
{
    if mask.len() == 0 {
        0
    } else {
        foreground_count(mask.drop_last()) + if mask.last() {
            1nat
        } else {
            0nat
        }
    }
}

/// The count is at most the number of cells.
pub proof fn lemma_count_bounded(mask: Seq<bool>)
    ensures
        foreground_count(mask) <= mask.len(),
    decreases mask.len(),
{
    if mask.len() > 0 {
        lemma_count_bounded(mask.drop_last());
    }
}

/// A mask without foreground counts 0, and a mask that counts 0 has no
/// foreground.
pub proof fn lemma_count_zero(mask: Seq<bool>)
    ensures
        foreground_count(mask) == 0 <==> (forall|i: int| 0 <= i < mask.len() ==> !mask[i]),
    decreases mask.len(),
{
    if mask.len() > 0 {
        lemma_count_zero(mask.drop_last());
        if foreground_count(mask) == 0 {
            assert forall|i: int| 0 <= i < mask.len() implies !mask[i] by {
                if i < mask.len() - 1 {
                    assert(mask.drop_last()[i] == mask[i]);
                }
            }
        } else if forall|i: int| 0 <= i < mask.len() ==> !mask[i] {
            assert forall|i: int| 0 <= i < mask.drop_last().len() implies !mask.drop_last()[i] by {
                assert(mask.drop_last()[i] == mask[i]);
            }
        }
    }
}

/// A mask that lies within another counts no more than it, and fewer where
/// it lacks one of the other's foreground cells.
pub proof fn lemma_count_within(inner: Seq<bool>, outer: Seq<bool>)
    requires
        inner.len() == outer.len(),
        forall|i: int| 0 <= i < inner.len() && inner[i] ==> outer[i],
    ensures
        foreground_count(inner) <= foreground_count(outer),
        inner != outer ==> foreground_count(inner) < foreground_count(outer),
        foreground_count(inner) == foreground_count(outer) ==> inner == outer,
    decreases inner.len(),
{
    if inner.len() > 0 {
        let a = inner.drop_last();
        let b = outer.drop_last();
        assert forall|i: int| 0 <= i < a.len() && a[i] implies b[i] by {
            assert(a[i] == inner[i] && b[i] == outer[i]);
        }
        lemma_count_within(a, b);
        if a == b && inner.last() == outer.last() {
            assert(inner =~= a.push(inner.last()));
            assert(outer =~= b.push(outer.last()));
        }
    } else {
        assert(inner =~= outer);
    }
}

/// Clearing a foreground cell lowers the count by one; clearing a
/// background cell changes nothing.
pub proof fn lemma_count_cleared(mask: Seq<bool>, i: int)
    requires
        0 <= i < mask.len(),
    ensures
        foreground_count(mask.update(i, false)) + (if mask[i] {
            1nat
        } else {
            0nat
        }) == foreground_count(mask),
    decreases mask.len(),
{
    let after = mask.update(i, false);
    if i == mask.len() - 1 {
        assert(after.drop_last() =~= mask.drop_last());
    } else {
        assert(after.drop_last() =~= mask.drop_last().update(i, false));
        lemma_count_cleared(mask.drop_last(), i);
    }
}

/// A cell inside the raster has its row-major index inside the buffer, and
/// the index gives the cell back.
pub proof fn lemma_cell_index(width: int, height: int, x: int, y: int)
    requires
        in_bounds(width, height, x, y),
    ensures
        0 <= y * width + x < width * height,
        (y * width + x) / width == y,
        (y * width + x) % width == x,
{
    assert(0 <= y * width && y * width + width <= height * width) by (nonlinear_arith)
        requires
            0 <= y < height,
            0 < width,
    ;
    assert(height * width == width * height) by (nonlinear_arith);
    vstd::arithmetic::div_mod::lemma_fundamental_div_mod_converse(y * width + x, width, y, x);
}

/// An index inside the buffer is the index of exactly one cell of the raster.
pub proof fn lemma_index_cell(width: int, height: int, i: int)
    requires
        0 <= i < width * height,
        0 <= width,
        0 <= height,
    ensures
        in_bounds(width, height, i % width, i / width),
        (i / width) * width + i % width == i,
{
    assert(width > 0) by (nonlinear_arith)
        requires
            0 <= i < width * height,
            0 <= width,
    ;
    vstd::arithmetic::div_mod::lemma_fundamental_div_mod(i, width);
    let q = i / width;
    let r = i % width;
    assert(width * q == q * width) by (nonlinear_arith);
    assert(0 <= q < height) by (nonlinear_arith)
        requires
            q * width + r == i,
            0 <= r < width,
            0 <= i < width * height,
            0 <= height,
    ;
}

/// The row-major index of the cell `(x, y)`.
pub fn cell_index(width: usize, height: usize, x: usize, y: usize) -> (index: usize)
    requires
        x < width,
        y < height,
        width * height <= usize::MAX,
    ensures
        index == y * width + x,
        index < width * height,
{
    proof {
        lemma_cell_index(width as int, height as int, x as int, y as int);
    }
    y * width + x
}

/// The value of `data` at `(x + ex, y + ey)`, or `None` where that cell lies
/// outside the raster.
pub fn neighbour_cell<T: Copy>(
    data: &[T],
    width: usize,
    height: usize,
    x: usize,
    y: usize,
    ex: i8,
    ey: i8,
) -> (v: Option<T>)
    requires
        data@.len() == width * height,
        x < width,
        y < height,
        -1 <= ex <= 1,
        -1 <= ey <= 1,
    ensures
        in_bounds(width as int, height as int, x + ex, y + ey) ==> v == Some(
            data@[(y + ey) * width + (x + ex)],
        ) && 0 <= (y + ey) * width + (x + ex) < data@.len(),
        !in_bounds(width as int, height as int, x + ex, y + ey) ==> v is None,
{
    if (ex < 0 && x == 0) || (ex > 0 && x + 1 >= width) || (ey < 0 && y == 0) || (ey > 0 && y + 1
        >= height) {
        return None;
    }
    let nx: usize = if ex < 0 {
        x - 1
    } else if ex > 0 {
        x + 1
    } else {
        x
    };
    let ny: usize = if ey < 0 {
        y - 1
    } else if ey > 0 {
        y + 1
    } else {
        y
    };
    let n: usize = data.len();
    assert(width * height == n);
    let idx: usize = cell_index(width, height, nx, ny);
    Some(data[idx])
}

/// The pixel of `mask` at `(x + ex, y + ey)`; background where that cell
/// lies outside the raster.
pub fn neighbour_pixel(
    mask: &[bool],
    width: usize,
    height: usize,
    x: usize,
    y: usize,
    ex: i8,
    ey: i8,
) -> (b: bool)
    requires
        mask@.len() == width * height,
        x < width,
        y < height,
        -1 <= ex <= 1,
        -1 <= ey <= 1,
    ensures
        b == pixel(mask@, width as int, height as int, x + ex, y + ey),
{
    match neighbour_cell(mask, width, height, x, y, ex, ey) {
        Some(b) => b,
        None => false,
    }
}

/// Counts the foreground cells of `mask`.
pub fn count_foreground(mask: &[bool]) -> (count: usize)
    ensures
        count == foreground_count(mask@),
{
    let mut count: usize = 0;
    let mut i: usize = 0;
    while i < mask.len()
        invariant
            i <= mask.len(),
            count <= i,
            count == foreground_count(mask@.take(i as int)),
        decreases mask.len() - i,
    {
        assert(mask@.take(i as int + 1).drop_last() =~= mask@.take(i as int));
        if mask[i] {
            count = count + 1;
        }
        i = i + 1;
    }
    assert(mask@.take(i as int) =~= mask@);
    count
}

} // verus!
