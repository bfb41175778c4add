//! Stroke normalisation: turns a stroke of any thickness into one of a fixed
//! thickness around its centreline.

use vstd::prelude::*;
use crate::bridging::{bridge_gaps, bridged};
use crate::distance::{distance_to_foreground, distance_transform_edt, lemma_field_values};
use crate::endpoints::endpoints;
use crate::pruning::{prune_branches, pruned, removal_budget};
use crate::raster::{count_foreground, foreground_count};
use crate::thinning::{skeleton, skeletonize};

verus! {

/// The widest gap, in pixels, that sanding bridges.
pub const SANDING_GAP: u32 = 10;

/// The number of pruning rounds of sanding.
pub const SANDING_ROUNDS: u32 = 8;

/// The share of a centreline, in hundredths, that sanding may prune away.
pub const SANDING_PERCENT: u32 = 15;

/// The skeleton of `mask`, sanded: gaps bridged, then short branches pruned.
pub open spec fn sanded_skeleton(mask: Seq<bool>, width: int, height: int) -> Seq<bool> {
    let thin = skeleton(mask, width, height);
    let joined = bridged(thin, width, height, endpoints(thin, width, height), SANDING_GAP as int);
    pruned(
        joined,
        width,
        height,
        SANDING_ROUNDS as nat,
        removal_budget(foreground_count(joined), SANDING_PERCENT as nat),
    )
}

/// The centreline of the stroke `mask`: its skeleton, sanded if asked for.
pub open spec fn centreline(mask: Seq<bool>, width: int, height: int, sanding: bool) -> Seq<bool> {
    if sanding {
        sanded_skeleton(mask, width, height)
    } else {
        skeleton(mask, width, height)
    }
}

/// The band around `line`: the cells whose distance from `line` is at most
/// half of `thickness` pixels.
pub open spec fn band(line: Seq<bool>, width: int, height: int, thickness: int) -> Seq<bool> {
    Seq::new(
        line.len(),
        |i: int| 2 * distance_to_foreground(line, width, height, i % width, i / width) <= 1000 * thickness,
    )
}

/// The stroke `mask` at the thickness `thickness`. A mask without foreground
/// stays as it is. A thickness of 1 or less gives the centreline. Else the
/// result is the band of that thickness around the centreline; where the
/// centreline has come out empty, it is the mask itself.
pub open spec fn normalized(
    mask: Seq<bool>,
    width: int,
    height: int,
    thickness: int,
    sanding: bool,
) -> Seq<bool> {
    if foreground_count(mask) == 0 {
        mask
    } else {
        let line = centreline(mask, width, height, sanding);
        if thickness <= 1 {
            line
        } else if foreground_count(line) == 0 {
            mask
        } else {
            band(line, width, height, thickness)
        }
    }
}

/// Normalises the thickness of the stroke `binary`. The stroke is thinned to
/// its skeleton; with `apply_sanding` gaps of up to 10 pixels are bridged
/// and branches pruned, in at most 8 rounds and by at most 15 hundredths of
/// the cells. For a `target_thickness` above 1 the result holds every cell
/// within half that many pixels of the skeleton; otherwise it is the
/// skeleton itself. A mask without foreground is returned as it is.
pub fn normalize_line_thickness(
    binary: &[bool],
    width: usize,
    height: usize,
    target_thickness: u32,
    apply_sanding: bool,
) -> (result: Vec<bool>)
    requires
        binary@.len() == width * height,
    ensures
        result@ == normalized(
            binary@,
            width as int,
            height as int,
            target_thickness as int,
            apply_sanding,
        ),
        result@.len() == binary@.len(),
{
    if count_foreground(binary) == 0 {
        return vstd::slice::slice_to_vec(binary);
    }
    let mut line: Vec<bool> = skeletonize(binary, width, height);
    proof {
        crate::thinning::lemma_skeleton_within(binary@, width as int, height as int);
    }
    if apply_sanding {
        bridge_gaps(&mut line, width, height, SANDING_GAP);
        prune_branches(&mut line, width, height, SANDING_ROUNDS, SANDING_PERCENT);
    }
    if target_thickness > 1 {
        if count_foreground(line.as_slice()) == 0 {
            return vstd::slice::slice_to_vec(binary);
        }
        let field: Vec<u32> = distance_transform_edt(line.as_slice(), width, height);
        proof {
            lemma_field_values(line@, width as int, height as int, field@);
        }
        let n: usize = field.len();
        let mut result: Vec<bool> = Vec::new();
        let mut i: usize = 0;
        while i < n
            invariant
                i <= n,
                n == field@.len(),
                n == line@.len(),
                result@.len() == i,
                forall|k: int|
                    0 <= k < n ==> #[trigger] field@[k] == distance_to_foreground(
                        line@,
                        width as int,
                        height as int,
                        k % (width as int),
                        k / (width as int),
                    ),
                forall|k: int|
                    0 <= k < i ==> result@[k] == band(
                        line@,
                        width as int,
                        height as int,
                        target_thickness as int,
                    )[k],
            decreases n - i,
        {
            let near: bool = 2 * (field[i] as u64) <= 1000 * (target_thickness as u64);
            result.push(near);
            i = i + 1;
        }
        assert(result@ =~= band(line@, width as int, height as int, target_thickness as int));
        result
    } else {
        line
    }
}

} // verus!
