//! Endpoints of a skeleton: interior foreground cells with exactly one
//! foreground cell among their eight neighbours.

use vstd::prelude::*;
use crate::raster::{cell_index, lemma_cell_index, lemma_index_cell};
use crate::thinning::{count_neighbors, get_neighbors, is_interior, neighbour_count, neighbours};

verus! {

/// Whether the cell with index `i` is an endpoint of `mask`.
pub open spec fn is_endpoint(mask: Seq<bool>, width: int, height: int, i: int) -> bool {
    &&& mask[i]
    &&& is_interior(width, height, i % width, i / width)
    &&& neighbour_count(neighbours(mask, width, i % width, i / width)) == 1
}

/// The endpoints of `mask` among the cells with an index below `k`, as
/// `(x, y)` in row-major order.
pub open spec fn endpoints_before(mask: Seq<bool>, width: int, height: int, k: int) -> Seq<
    (usize, usize),
>
    decreases k,
{
    if k <= 0 {
        Seq::empty()
    } else {
        let rest = endpoints_before(mask, width, height, k - 1);
        if is_endpoint(mask, width, height, k - 1) {
            rest.push((((k - 1) % width) as usize, ((k - 1) / width) as usize))
        } else {
            rest
        }
    }
}

/// The endpoints of `mask`, as `(x, y)` in row-major order.
pub open spec fn endpoints(mask: Seq<bool>, width: int, height: int) -> Seq<(usize, usize)> {
    endpoints_before(mask, width, height, mask.len() as int)
}

/// The list holds each endpoint once and nothing else, in the order of
/// their indices: every entry is an endpoint with an index below `k`,
/// entries further back have larger indices, and every endpoint below `k`
/// is an entry.
pub proof fn lemma_endpoints_listed(mask: Seq<bool>, width: int, height: int, k: int)
    requires
        0 <= k <= width * height,
        0 <= width,
        0 <= height,
        width * height <= usize::MAX,
    ensures
        endpoints_before(mask, width, height, k).len() <= k,
        forall|j: int|
            0 <= j < endpoints_before(mask, width, height, k).len() ==> {
                let e = #[trigger] endpoints_before(mask, width, height, k)[j];
                &&& is_interior(width, height, e.0 as int, e.1 as int)
                &&& e.1 * width + e.0 < k
                &&& is_endpoint(mask, width, height, e.1 * width + e.0)
            },
        forall|j1: int, j2: int|
            0 <= j1 < j2 < endpoints_before(mask, width, height, k).len() ==> {
                let e1 = #[trigger] endpoints_before(mask, width, height, k)[j1];
                let e2 = #[trigger] endpoints_before(mask, width, height, k)[j2];
                e1.1 * width + e1.0 < e2.1 * width + e2.0
            },
        forall|i: int|
            0 <= i < k && is_endpoint(mask, width, height, i) ==> exists|j: int|
                0 <= j < endpoints_before(mask, width, height, k).len() && {
                    let e = #[trigger] endpoints_before(mask, width, height, k)[j];
                    e.1 * width + e.0 == i
                },
    decreases k,
{
    if k > 0 {
        lemma_endpoints_listed(mask, width, height, k - 1);
        lemma_index_cell(width, height, k - 1);
        let rest = endpoints_before(mask, width, height, k - 1);
        let all = endpoints_before(mask, width, height, k);
        assert(width <= usize::MAX && height <= usize::MAX) by (nonlinear_arith)
            requires
                0 <= k - 1 < width * height,
                width * height <= usize::MAX,
                0 <= width,
                0 <= height,
        ;
        assert forall|i: int| 0 <= i < k && is_endpoint(mask, width, height, i) implies exists|
            j: int,
        |
            0 <= j < all.len() && {
                let e = #[trigger] all[j];
                e.1 * width + e.0 == i
            } by {
            if i < k - 1 {
                let j = choose|j: int|
                    0 <= j < rest.len() && {
                        let e = #[trigger] rest[j];
                        e.1 * width + e.0 == i
                    };
                assert(all[j] == rest[j]);
            } else {
                let j = all.len() - 1;
                assert(all[j] == (((k - 1) % width) as usize, ((k - 1) / width) as usize));
            }
        }
    }
}

/// Where no cell from index `from` up to `to` is an endpoint, the list does
/// not grow between the two.
proof fn lemma_no_endpoints_between(mask: Seq<bool>, width: int, height: int, from: int, to: int)
    requires
        0 <= from <= to,
        forall|i: int| from <= i < to ==> !is_endpoint(mask, width, height, i),
    ensures
        endpoints_before(mask, width, height, to) == endpoints_before(mask, width, height, from),
    decreases to - from,
{
    if from < to {
        lemma_no_endpoints_between(mask, width, height, from, to - 1);
    }
}

/// Finds the endpoints of `skeleton`: the interior foreground cells that have
/// exactly one foreground cell among their eight neighbours. They come as
/// `(x, y)`, in row-major order.
pub fn find_endpoints(skeleton: &[bool], width: usize, height: usize) -> (found: Vec<(usize, usize)>)
    requires
        skeleton@.len() == width * height,
    ensures
        found@ == endpoints(skeleton@, width as int, height as int),
{
    let n: usize = skeleton.len();
    let ghost w = width as int;
    let ghost h = height as int;
    let ghost mask = skeleton@;
    let mut found: Vec<(usize, usize)> = Vec::new();
    if width < 3 || height < 3 {
        proof {
            assert forall|i: int| 0 <= i < n implies !is_endpoint(mask, w, h, i) by {
                lemma_index_cell(w, h, i);
            }
            lemma_no_endpoints_between(mask, w, h, 0, n as int);
        }
        return found;
    }
    proof {
        assert(w <= w * h) by (nonlinear_arith)
            requires
                h >= 1,
                w >= 0,
        ;
        assert forall|i: int| 0 <= i < w implies !is_endpoint(mask, w, h, i) by {
            lemma_cell_index(w, h, i, 0);
        }
        lemma_no_endpoints_between(mask, w, h, 0, w);
        assert(1 * w == w);
    }
    let mut y: usize = 1;
    while y < height - 1
        invariant
            1 <= y <= height - 1,
            3 <= width,
            w == width,
            h == height,
            n == width * height,
            mask == skeleton@,
            mask.len() == n,
            found@ == endpoints_before(mask, w, h, y * w),
        decreases height - y,
    {
        proof {
            assert(y * w + w <= n && 0 <= y * w) by (nonlinear_arith)
                requires
                    0 <= y,
                    y + 1 <= h,
                    w >= 0,
                    n == w * h,
            ;
            assert forall|i: int| y * w <= i < y * w + 1 implies !is_endpoint(mask, w, h, i) by {
                lemma_cell_index(w, h, 0, y as int);
            }
            lemma_no_endpoints_between(mask, w, h, y * w, y * w + 1);
        }
        let mut x: usize = 1;
        while x < width - 1
            invariant
                1 <= y < height - 1,
                1 <= x <= width - 1,
                3 <= width,
                w == width,
                h == height,
                n == width * height,
                0 <= y * w,
                y * w + w <= n,
                mask == skeleton@,
                mask.len() == n,
                found@ == endpoints_before(mask, w, h, y * w + x),
            decreases width - x,
        {
            let idx: usize = cell_index(width, height, x, y);
            proof {
                lemma_cell_index(w, h, x as int, y as int);
                assert((y + 2) * w <= h * w && h * w == w * h) by (nonlinear_arith)
                    requires
                        y + 2 <= h,
                        w >= 0,
                ;
            }
            if skeleton[idx] {
                let around = get_neighbors(skeleton, x, y, width);
                if count_neighbors(&around) == 1 {
                    found.push((x, y));
                }
            }
            x = x + 1;
        }
        proof {
            assert((y + 1) * w == y * w + w) by (nonlinear_arith);
            assert forall|i: int| y * w + x <= i < (y + 1) * w implies !is_endpoint(
                mask,
                w,
                h,
                i,
            ) by {
                lemma_cell_index(w, h, w - 1, y as int);
            }
            lemma_no_endpoints_between(mask, w, h, y * w + x, (y + 1) * w);
        }
        y = y + 1;
    }
    proof {
        assert((height - 1) * w == h * w - w && h * w == w * h) by (nonlinear_arith)
            requires
                h == height,
        ;
        assert forall|i: int| (height - 1) * w <= i < n implies !is_endpoint(mask, w, h, i) by {
            lemma_index_cell(w, h, i);
            if i / w < h - 1 {
                assert((i / w) * w + w <= (h - 1) * w) by (nonlinear_arith)
                    requires
                        i / w + 1 <= h - 1,
                        w >= 0,
                ;
            }
        }
        lemma_no_endpoints_between(mask, w, h, (height - 1) * w, n as int);
    }
    found
}

} // verus!
