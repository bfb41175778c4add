//! Gap bridging: connects each endpoint of a skeleton to the nearest
//! foreground cell within reach that is not already its neighbour.

use vstd::prelude::*;
use crate::endpoints::{endpoints, find_endpoints, lemma_endpoints_listed};
use crate::line::{draw_line, span, with_line};
use crate::raster::{cell_index, pixel};
use crate::thinning::is_interior;

verus! {

/// The square of the Euclidean distance between `(ex, ey)` and `(tx, ty)`.
pub open spec fn squared_distance(ex: int, ey: int, tx: int, ty: int) -> int {
    span(ex, tx) * span(ex, tx) + span(ey, ty) * span(ey, ty)
}

/// Whether the endpoint `(ex, ey)` may be connected to `(tx, ty)`: the cell is
/// foreground, lies in the window of `gap` cells to each side but outside
/// the endpoint's own 3x3 neighbourhood, and its Euclidean distance from the
/// endpoint is at most `gap`.
pub open spec fn is_bridge_candidate(
    mask: Seq<bool>,
    width: int,
    height: int,
    ex: int,
    ey: int,
    gap: int,
    tx: int,
    ty: int,
) -> bool {
    &&& pixel(mask, width, height, tx, ty)
    &&& span(ex, tx) <= gap
    &&& span(ey, ty) <= gap
    &&& !(span(ex, tx) <= 1 && span(ey, ty) <= 1)
    &&& squared_distance(ex, ey, tx, ty) <= gap * gap
}

/// Whether `(tx, ty)` is to be chosen over `(ux, uy)`: it is nearer to the
/// endpoint, or as near and not later in row-major order.
pub open spec fn preferred(ex: int, ey: int, tx: int, ty: int, ux: int, uy: int) -> bool {
    let dt = squared_distance(ex, ey, tx, ty);
    let du = squared_distance(ex, ey, ux, uy);
    dt < du || (dt == du && (ty < uy || (ty == uy && tx <= ux)))
}

/// Whether `(tx, ty)` is the cell that the endpoint `(ex, ey)` is connected
/// to: a candidate that is preferred over every candidate.
pub open spec fn is_bridge_target(
    mask: Seq<bool>,
    width: int,
    height: int,
    ex: int,
    ey: int,
    gap: int,
    tx: int,
    ty: int,
) -> bool {
    &&& is_bridge_candidate(mask, width, height, ex, ey, gap, tx, ty)
    &&& forall|ux: int, uy: int| #[trigger]
        is_bridge_candidate(mask, width, height, ex, ey, gap, ux, uy) ==> preferred(
            ex,
            ey,
            tx,
            ty,
            ux,
            uy,
        )
}

/// The cell that the endpoint `(ex, ey)` is connected to, if there is one.
pub open spec fn bridge_target(
    mask: Seq<bool>,
    width: int,
    height: int,
    ex: int,
    ey: int,
    gap: int,
) -> Option<(int, int)> {
    if exists|tx: int, ty: int| is_bridge_target(mask, width, height, ex, ey, gap, tx, ty) {
        let (tx, ty) = choose|tx: int, ty: int|
            is_bridge_target(mask, width, height, ex, ey, gap, tx, ty);
        Some((tx, ty))
    } else {
        None
    }
}

/// `mask` after the endpoint `end` has been handled: with a line to its
/// target, or unchanged where it has none.
pub open spec fn bridge_one(mask: Seq<bool>, width: int, height: int, end: (usize, usize), gap: int) -> Seq<
    bool,
> {
    match bridge_target(mask, width, height, end.0 as int, end.1 as int, gap) {
        Some(target) => with_line(mask, width, end.0 as int, end.1 as int, target.0, target.1),
        None => mask,
    }
}

/// `mask` after the endpoints `ends` have been handled one after the other,
/// each on the mask as the ones before it left it.
pub open spec fn bridged(mask: Seq<bool>, width: int, height: int, ends: Seq<(usize, usize)>, gap: int) -> Seq<
    bool,
>
    decreases ends.len(),
{
    if ends.len() == 0 {
        mask
    } else {
        bridge_one(bridged(mask, width, height, ends.drop_last(), gap), width, height, ends.last(), gap)
    }
}

/// An endpoint has at most one target.
pub proof fn lemma_bridge_target_unique(
    mask: Seq<bool>,
    width: int,
    height: int,
    ex: int,
    ey: int,
    gap: int,
    tx: int,
    ty: int,
)
    requires
        is_bridge_target(mask, width, height, ex, ey, gap, tx, ty),
    ensures
        bridge_target(mask, width, height, ex, ey, gap) == Some((tx, ty)),
{
    let (ux, uy) = choose|ux: int, uy: int|
        is_bridge_target(mask, width, height, ex, ey, gap, ux, uy);
    assert(is_bridge_target(mask, width, height, ex, ey, gap, ux, uy));
    assert(preferred(ex, ey, tx, ty, ux, uy));
    assert(preferred(ex, ey, ux, uy, tx, ty));
}

/// Bridging only adds foreground.
pub proof fn lemma_bridged_keeps_foreground(
    mask: Seq<bool>,
    width: int,
    height: int,
    ends: Seq<(usize, usize)>,
    gap: int,
)
    ensures
        bridged(mask, width, height, ends, gap).len() == mask.len(),
        forall|i: int|
            0 <= i < mask.len() && mask[i] ==> bridged(mask, width, height, ends, gap)[i],
    decreases ends.len(),
{
    if ends.len() > 0 {
        lemma_bridged_keeps_foreground(mask, width, height, ends.drop_last(), gap);
    }
}

/// Whether `(ux, uy)` comes before `(tx, ty)` in row-major order.
spec fn scanned(tx: int, ty: int, ux: int, uy: int) -> bool {
    uy < ty || (uy == ty && ux < tx)
}

/// Whether `best` is the choice among the candidates that come before
/// `(tx, ty)`: none where there is no such candidate, else the one that is
/// preferred over all of them.
spec fn is_choice_before(
    mask: Seq<bool>,
    width: int,
    height: int,
    ex: int,
    ey: int,
    gap: int,
    tx: int,
    ty: int,
    best: Option<(usize, usize)>,
) -> bool {
    match best {
        None => forall|ux: int, uy: int| #[trigger]
            is_bridge_candidate(mask, width, height, ex, ey, gap, ux, uy) ==> !scanned(
                tx,
                ty,
                ux,
                uy,
            ),
        Some(b) => {
            &&& is_bridge_candidate(mask, width, height, ex, ey, gap, b.0 as int, b.1 as int)
            &&& scanned(tx, ty, b.0 as int, b.1 as int)
            &&& forall|ux: int, uy: int| #[trigger]
                is_bridge_candidate(mask, width, height, ex, ey, gap, ux, uy) && scanned(
                    tx,
                    ty,
                    ux,
                    uy,
                ) ==> preferred(ex, ey, b.0 as int, b.1 as int, ux, uy)
        },
    }
}

/// Whether the endpoint `(ex, ey)` may be connected to `(tx, ty)`, and the
/// square of the distance between the two.
fn bridge_candidate(
    skeleton: &[bool],
    width: usize,
    height: usize,
    ex: usize,
    ey: usize,
    max_gap: u32,
    tx: usize,
    ty: usize,
) -> (found: (bool, u128))
    requires
        skeleton@.len() == width * height,
        tx < width,
        ty < height,
        span(ex as int, tx as int) <= max_gap,
        span(ey as int, ty as int) <= max_gap,
    ensures
        found.0 == is_bridge_candidate(
            skeleton@,
            width as int,
            height as int,
            ex as int,
            ey as int,
            max_gap as int,
            tx as int,
            ty as int,
        ),
        found.1 == squared_distance(ex as int, ey as int, tx as int, ty as int),
{
    let n: usize = skeleton.len();
    assert(width * height == n);
    let idx: usize = cell_index(width, height, tx, ty);
    let across: u128 = if ex <= tx {
        (tx - ex) as u128
    } else {
        (ex - tx) as u128
    };
    let down: u128 = if ey <= ty {
        (ty - ey) as u128
    } else {
        (ey - ty) as u128
    };
    let reach: u128 = max_gap as u128;
    assert(across * across <= 0xffff_ffff * 0xffff_ffff && down * down <= 0xffff_ffff * 0xffff_ffff
        && reach * reach <= 0xffff_ffff * 0xffff_ffff) by (nonlinear_arith)
        requires
            0 <= across <= 0xffff_ffff,
            0 <= down <= 0xffff_ffff,
            0 <= reach <= 0xffff_ffff,
    ;
    let d2: u128 = across * across + down * down;
    let near: bool = across <= 1 && down <= 1;
    (skeleton[idx] && !near && d2 <= reach * reach, d2)
}

/// Finds the cell that the endpoint `(ex, ey)` is to be connected to: among
/// the foreground cells within `max_gap` of it that are not its direct
/// neighbours, the nearest; among several as near, the first in row-major
/// order.
pub fn find_bridge_target(
    skeleton: &[bool],
    width: usize,
    height: usize,
    ex: usize,
    ey: usize,
    max_gap: u32,
) -> (target: Option<(usize, usize)>)
    requires
        skeleton@.len() == width * height,
        ex < width,
        ey < height,
    ensures
        bridge_target(skeleton@, width as int, height as int, ex as int, ey as int, max_gap as int)
            == match target {
            Some(t) => Some((t.0 as int, t.1 as int)),
            None => None,
        },
        target matches Some(t) ==> t.0 < width && t.1 < height,
{
    let ghost w = width as int;
    let ghost h = height as int;
    let ghost mask = skeleton@;
    let ghost gx = ex as int;
    let ghost gy = ey as int;
    let ghost gap = max_gap as int;
    let reach: usize = max_gap as usize;
    let x_lo: usize = if ex >= reach {
        ex - reach
    } else {
        0
    };
    let x_hi: usize = if width - 1 - ex >= reach {
        ex + reach
    } else {
        width - 1
    };
    let y_lo: usize = if ey >= reach {
        ey - reach
    } else {
        0
    };
    let y_hi: usize = if height - 1 - ey >= reach {
        ey + reach
    } else {
        height - 1
    };
    let mut best: Option<(usize, usize)> = None;
    let mut best_d2: u128 = 0;
    let mut ty: usize = y_lo;
    while ty <= y_hi
        invariant
            y_lo <= ty <= y_hi + 1,
            y_hi < height,
            x_lo <= x_hi < width,
            w == width,
            h == height,
            mask == skeleton@,
            mask.len() == width * height,
            gx == ex,
            gy == ey,
            gap == max_gap,
            ex < width,
            ey < height,
            x_lo == (if gx >= gap { gx - gap } else { 0 }),
            x_hi == (if w - 1 - gx >= gap { gx + gap } else { w - 1 }),
            y_lo == (if gy >= gap { gy - gap } else { 0 }),
            y_hi == (if h - 1 - gy >= gap { gy + gap } else { h - 1 }),
            is_choice_before(mask, w, h, gx, gy, gap, x_lo as int, ty as int, best),
            best matches Some(b) ==> best_d2 == squared_distance(gx, gy, b.0 as int, b.1 as int)
                && b.0 < width && b.1 < height,
        decreases y_hi + 1 - ty,
    {
        let mut tx: usize = x_lo;
        while tx <= x_hi
            invariant
                y_lo <= ty <= y_hi,
                y_hi < height,
                x_lo <= tx <= x_hi + 1,
                x_hi < width,
                w == width,
                h == height,
                mask == skeleton@,
                mask.len() == width * height,
                gx == ex,
                gy == ey,
                gap == max_gap,
                ex < width,
                ey < height,
                x_lo == (if gx >= gap { gx - gap } else { 0 }),
                x_hi == (if w - 1 - gx >= gap { gx + gap } else { w - 1 }),
                y_lo == (if gy >= gap { gy - gap } else { 0 }),
                y_hi == (if h - 1 - gy >= gap { gy + gap } else { h - 1 }),
                is_choice_before(mask, w, h, gx, gy, gap, tx as int, ty as int, best),
                best matches Some(b) ==> best_d2 == squared_distance(
                    gx,
                    gy,
                    b.0 as int,
                    b.1 as int,
                ) && b.0 < width && b.1 < height,
            decreases x_hi + 1 - tx,
        {
            let (fits, d2) = bridge_candidate(skeleton, width, height, ex, ey, max_gap, tx, ty);
            let better: bool = fits && match best {
                None => true,
                Some(_) => d2 < best_d2,
            };
            if better {
                best = Some((tx, ty));
                best_d2 = d2;
            }
            tx = tx + 1;
        }
        ty = ty + 1;
    }
    proof {
        match best {
            None => {
                assert forall|ux: int, uy: int|
                    !is_bridge_target(mask, w, h, gx, gy, gap, ux, uy) by {
                    if is_bridge_candidate(mask, w, h, gx, gy, gap, ux, uy) {
                        assert(!scanned(x_lo as int, ty as int, ux, uy));
                    }
                }
            },
            Some(b) => {
                assert(is_bridge_target(mask, w, h, gx, gy, gap, b.0 as int, b.1 as int));
                lemma_bridge_target_unique(mask, w, h, gx, gy, gap, b.0 as int, b.1 as int);
            },
        }
    }
    best
}

/// Bridges small gaps in `skeleton`. The endpoints are taken from the
/// skeleton as it is given. Each in turn is connected by a straight line to
/// the nearest foreground cell that lies within `max_gap` of it and outside
/// its 3x3 neighbourhood, on the skeleton as the endpoints before it left
/// it. An endpoint without such a cell stays unconnected. Foreground is
/// only ever added.
pub fn bridge_gaps(skeleton: &mut Vec<bool>, width: usize, height: usize, max_gap: u32)
    requires
        old(skeleton)@.len() == width * height,
    ensures
        final(skeleton)@ == bridged(
            old(skeleton)@,
            width as int,
            height as int,
            endpoints(old(skeleton)@, width as int, height as int),
            max_gap as int,
        ),
        final(skeleton)@.len() == old(skeleton)@.len(),
        forall|i: int| 0 <= i < old(skeleton)@.len() && old(skeleton)@[i] ==> final(skeleton)@[i],
{
    let ghost w = width as int;
    let ghost h = height as int;
    let ghost start = skeleton@;
    let ghost gap = max_gap as int;
    let n: usize = skeleton.len();
    let ends: Vec<(usize, usize)> = find_endpoints(skeleton.as_slice(), width, height);
    proof {
        lemma_endpoints_listed(start, w, h, n as int);
    }
    let mut k: usize = 0;
    while k < ends.len()
        invariant
            k <= ends.len(),
            w == width,
            h == height,
            gap == max_gap,
            n == width * height,
            start.len() == n,
            skeleton@.len() == n,
            ends@ == endpoints(start, w, h),
            forall|j: int|
                0 <= j < ends@.len() ==> is_interior(w, h, (#[trigger] ends@[j]).0 as int, ends@[j].1 as int),
            skeleton@ == bridged(start, w, h, ends@.take(k as int), gap),
        decreases ends.len() - k,
    {
        let (ex, ey) = ends[k];
        let ghost before = skeleton@;
        proof {
            assert(is_interior(w, h, ends@[k as int].0 as int, ends@[k as int].1 as int));
            assert(ends@.take(k + 1).drop_last() =~= ends@.take(k as int));
            assert(ends@.take(k + 1).last() == ends@[k as int]);
        }
        match find_bridge_target(skeleton.as_slice(), width, height, ex, ey, max_gap) {
            Some((tx, ty)) => {
                proof {
                    assert((ey + 1) * w <= h * w && (ty + 1) * w <= h * w && h * w == w * h)
                        by (nonlinear_arith)
                        requires
                            ey + 1 <= h,
                            ty + 1 <= h,
                            w >= 0,
                    ;
                }
                draw_line(skeleton, width, ex, ey, tx, ty);
            },
            None => {},
        }
        k = k + 1;
    }
    proof {
        assert(ends@.take(k as int) =~= ends@);
        lemma_bridged_keeps_foreground(start, w, h, ends@, gap);
    }
}

} // verus!
