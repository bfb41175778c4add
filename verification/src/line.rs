//! Straight lines on a raster, drawn with Bresenham's algorithm.
//!
//! The line from `(x0, y0)` to `(x1, y1)` makes one step along its longer
//! side per point. Along the shorter side it follows the true line, rounded
//! to the nearest cell.

use vstd::prelude::*;
use vstd::arithmetic::div_mod::{lemma_fundamental_div_mod, lemma_fundamental_div_mod_converse};
use crate::raster::lemma_cell_index;

verus! {

/// The distance between two coordinates.
pub open spec fn span(from: int, to: int) -> int {
    if from <= to {
        to - from
    } else {
        from - to
    }
}

/// The coordinate `k` steps away from `from`, in the direction of `to`.
pub open spec fn advance(from: int, to: int, k: int) -> int {
    if from < to {
        from + k
    } else {
        from - k
    }
}

/// The number of steps of the line: the length of its longer side.
pub open spec fn line_steps(x0: int, y0: int, x1: int, y1: int) -> int {
    if span(x0, x1) >= span(y0, y1) {
        span(x0, x1)
    } else {
        span(y0, y1)
    }
}

/// The `k`-th point of the line from `(x0, y0)` to `(x1, y1)`: `k` steps
/// along the longer side, and along the shorter side the share of it that
/// corresponds, rounded to the nearest whole step (a half rounds up).
pub open spec fn line_point(x0: int, y0: int, x1: int, y1: int, k: int) -> (int, int) {
    let a = span(x0, x1);
    let b = span(y0, y1);
    if a >= b {
        if a == 0 {
            (x0, y0)
        } else {
            (advance(x0, x1, k), advance(y0, y1, (2 * (b * k) + a) / (2 * a)))
        }
    } else {
        (advance(x0, x1, (2 * (a * k) + b) / (2 * b)), advance(y0, y1, k))
    }
}

/// Whether `(x, y)` is one of the first `count` points of the line.
pub open spec fn among_line_points(
    x0: int,
    y0: int,
    x1: int,
    y1: int,
    count: int,
    x: int,
    y: int,
) -> bool {
    exists|k: int| 0 <= k < count && #[trigger] line_point(x0, y0, x1, y1, k) == (x, y)
}

/// Whether `(x, y)` is a point of the line from `(x0, y0)` to `(x1, y1)`.
pub open spec fn on_line(x0: int, y0: int, x1: int, y1: int, x: int, y: int) -> bool {
    among_line_points(x0, y0, x1, y1, line_steps(x0, y0, x1, y1) + 1, x, y)
}

/// `image` with the first `count` points of the line set to foreground.
pub open spec fn with_line_points(
    image: Seq<bool>,
    width: int,
    x0: int,
    y0: int,
    x1: int,
    y1: int,
    count: int,
) -> Seq<bool> {
    Seq::new(
        image.len(),
        |i: int| image[i] || among_line_points(x0, y0, x1, y1, count, i % width, i / width),
    )
}

/// `image` with the line from `(x0, y0)` to `(x1, y1)` set to foreground.
pub open spec fn with_line(image: Seq<bool>, width: int, x0: int, y0: int, x1: int, y1: int) -> Seq<
    bool,
> {
    with_line_points(image, width, x0, y0, x1, y1, line_steps(x0, y0, x1, y1) + 1)
}

/// The point that lies `i` steps along x and `j` steps along y is the
/// `k`-th point of the line, if `k` counts the steps along the longer side
/// and the other count is the nearest to the true line.
proof fn lemma_point_reached(x0: int, y0: int, x1: int, y1: int, k: int, i: int, j: int)
    requires
        0 <= k,
        span(x0, x1) >= span(y0, y1) ==> i == k && (span(x0, x1) > 0 ==> -span(x0, x1) < 2 * (span(
            x0,
            x1,
        ) * j - span(y0, y1) * i) <= span(x0, x1)),
        span(x0, x1) < span(y0, y1) ==> j == k && -span(y0, y1) <= 2 * (span(x0, x1) * j - span(
            y0,
            y1,
        ) * i) < span(y0, y1),
        span(x0, x1) == 0 && span(y0, y1) == 0 ==> i == 0 && j == 0,
    ensures
        line_point(x0, y0, x1, y1, k) == (advance(x0, x1, i), advance(y0, y1, j)),
{
    let a = span(x0, x1);
    let b = span(y0, y1);
    if a >= b {
        if a > 0 {
            let r = 2 * (b * k) + a - (2 * a) * j;
            assert(r == a - 2 * (a * j - b * i)) by (nonlinear_arith)
                requires
                    r == 2 * (b * k) + a - (2 * a) * j,
                    i == k,
            ;
            lemma_fundamental_div_mod_converse(2 * (b * k) + a, 2 * a, j, r);
        }
    } else {
        let r = 2 * (a * k) + b - (2 * b) * i;
        assert(r == b + 2 * (a * j - b * i)) by (nonlinear_arith)
            requires
                r == 2 * (a * k) + b - (2 * b) * i,
                j == k,
        ;
        lemma_fundamental_div_mod_converse(2 * (a * k) + b, 2 * b, i, r);
    }
}

/// A step across the line is only due while the shorter side has a step
/// left: `across` steps are made there, `along` on the longer side, and the
/// test that asks for another step across has passed.
proof fn lemma_step_across_has_room(long: int, short: int, along: int, across: int)
    requires
        0 < long,
        0 <= short,
        0 <= along < long,
        0 <= across,
        2 * (long * across - short * along) <= 2 * short - long,
    ensures
        across < short,
{
    assert(short * along <= short * (long - 1)) by (nonlinear_arith)
        requires
            0 <= short,
            along <= long - 1,
    ;
    assert(short * (long - 1) == short * long - short) by (nonlinear_arith);
    assert(across < short) by (nonlinear_arith)
        requires
            2 * (long * across) < 2 * (short * long),
            0 < long,
    ;
}

/// The line starts at `(x0, y0)` and ends at `(x1, y1)`.
pub proof fn lemma_line_ends(x0: int, y0: int, x1: int, y1: int)
    ensures
        line_point(x0, y0, x1, y1, 0) == (x0, y0),
        line_point(x0, y0, x1, y1, line_steps(x0, y0, x1, y1)) == (x1, y1),
        on_line(x0, y0, x1, y1, x0, y0),
        on_line(x0, y0, x1, y1, x1, y1),
{
    let a = span(x0, x1);
    let b = span(y0, y1);
    let n = line_steps(x0, y0, x1, y1);
    assert(a * 0 == 0 && b * 0 == 0 && a * b == b * a) by (nonlinear_arith);
    lemma_point_reached(x0, y0, x1, y1, 0, 0, 0);
    lemma_point_reached(x0, y0, x1, y1, n, a, b);
}

/// Every point of the line lies between its two ends, in x and in y.
pub proof fn lemma_line_within_ends(x0: int, y0: int, x1: int, y1: int, k: int)
    requires
        0 <= k <= line_steps(x0, y0, x1, y1),
    ensures
        span(x0, line_point(x0, y0, x1, y1, k).0) + span(line_point(x0, y0, x1, y1, k).0, x1)
            == span(x0, x1),
        span(y0, line_point(x0, y0, x1, y1, k).1) + span(line_point(x0, y0, x1, y1, k).1, y1)
            == span(y0, y1),
{
    let a = span(x0, x1);
    let b = span(y0, y1);
    if a >= b {
        if a > 0 {
            let q = (2 * (b * k) + a) / (2 * a);
            lemma_fundamental_div_mod(2 * (b * k) + a, 2 * a);
            assert(0 <= q <= b) by (nonlinear_arith)
                requires
                    2 * (b * k) + a == (2 * a) * q + (2 * (b * k) + a) % (2 * a),
                    0 <= (2 * (b * k) + a) % (2 * a) < 2 * a,
                    0 <= k <= a,
                    0 <= b,
                    0 < a,
            ;
        }
    } else {
        let q = (2 * (a * k) + b) / (2 * b);
        lemma_fundamental_div_mod(2 * (a * k) + b, 2 * b);
        assert(0 <= q <= a) by (nonlinear_arith)
            requires
                2 * (a * k) + b == (2 * b) * q + (2 * (a * k) + b) % (2 * b),
                0 <= (2 * (a * k) + b) % (2 * b) < 2 * b,
                0 <= k <= b,
                0 <= a,
                0 < b,
        ;
    }
}

/// The line has no gaps: each point is one of the eight neighbours of the
/// point before it.
pub proof fn lemma_line_is_connected(x0: int, y0: int, x1: int, y1: int, k: int)
    requires
        0 <= k < line_steps(x0, y0, x1, y1),
    ensures
        span(line_point(x0, y0, x1, y1, k).0, line_point(x0, y0, x1, y1, k + 1).0) <= 1,
        span(line_point(x0, y0, x1, y1, k).1, line_point(x0, y0, x1, y1, k + 1).1) <= 1,
        line_point(x0, y0, x1, y1, k) != line_point(x0, y0, x1, y1, k + 1),
{
    let a = span(x0, x1);
    let b = span(y0, y1);
    if a >= b {
        lemma_short_side_step(a, b, k);
    } else {
        lemma_short_side_step(b, a, k);
    }
}

/// From one point to the next, the count of steps along the shorter side
/// stays or grows by one.
proof fn lemma_short_side_step(long: int, short: int, k: int)
    requires
        0 < long,
        0 <= short <= long,
        0 <= k,
    ensures
        0 <= (2 * (short * (k + 1)) + long) / (2 * long) - (2 * (short * k) + long) / (2 * long)
            <= 1,
{
    let here = (2 * (short * k) + long) / (2 * long);
    let next = (2 * (short * (k + 1)) + long) / (2 * long);
    lemma_fundamental_div_mod(2 * (short * k) + long, 2 * long);
    lemma_fundamental_div_mod(2 * (short * (k + 1)) + long, 2 * long);
    assert(short * (k + 1) == short * k + short) by (nonlinear_arith);
    let r = (2 * (short * k) + long) % (2 * long);
    let r2 = (2 * (short * (k + 1)) + long) % (2 * long);
    assert((2 * long) * (next - here) == (2 * long) * next - (2 * long) * here)
        by (nonlinear_arith);
    assert(0 <= next - here <= 1) by (nonlinear_arith)
        requires
            (2 * long) * (next - here) == 2 * short + r - r2,
            0 <= r < 2 * long,
            0 <= r2 < 2 * long,
            0 <= short <= long,
            0 < long,
    ;
}

/// A line is drawn on top of the image: what was foreground stays
/// foreground.
pub proof fn lemma_line_keeps_foreground(
    image: Seq<bool>,
    width: int,
    x0: int,
    y0: int,
    x1: int,
    y1: int,
)
    ensures
        with_line(image, width, x0, y0, x1, y1).len() == image.len(),
        forall|i: int| 0 <= i < image.len() && image[i] ==> with_line(image, width, x0, y0, x1, y1)[i],
{
}

/// Setting the `k`-th point on an image that holds the points before it
/// gives the image that holds the points up to it.
proof fn lemma_point_set(
    image: Seq<bool>,
    width: int,
    x0: int,
    y0: int,
    x1: int,
    y1: int,
    k: int,
    x: int,
    y: int,
)
    requires
        0 <= k,
        0 <= x < width,
        0 <= y,
        y * width + x < image.len(),
        line_point(x0, y0, x1, y1, k) == (x, y),
    ensures
        with_line_points(image, width, x0, y0, x1, y1, k).update(y * width + x, true)
            == with_line_points(image, width, x0, y0, x1, y1, k + 1),
{
    let before = with_line_points(image, width, x0, y0, x1, y1, k);
    let after = with_line_points(image, width, x0, y0, x1, y1, k + 1);
    let idx = y * width + x;
    lemma_cell_index(width, y + 1, x, y);
    assert forall|i: int| 0 <= i < image.len() implies before.update(idx, true)[i] == after[i] by {
        if i == idx {
            assert(among_line_points(x0, y0, x1, y1, k + 1, x, y));
        } else {
            lemma_fundamental_div_mod(i, width);
            assert(width * (i / width) == (i / width) * width) by (nonlinear_arith);
            assert((i % width, i / width) != (x, y));
            if among_line_points(x0, y0, x1, y1, k + 1, i % width, i / width) {
                let m = choose|m: int|
                    0 <= m < k + 1 && #[trigger] line_point(x0, y0, x1, y1, m) == (
                        i % width,
                        i / width,
                    );
                assert(m < k);
            }
        }
    }
    assert(before.update(idx, true) =~= after);
}

/// Bresenham's line algorithm: sets every point of the line from `(x0, y0)`
/// to `(x1, y1)` to foreground and leaves the rest of `image` as it is. Both
/// ends have to lie inside the raster.
pub fn draw_line(image: &mut Vec<bool>, width: usize, x0: usize, y0: usize, x1: usize, y1: usize)
    requires
        x0 < width,
        x1 < width,
        (y0 + 1) * width <= old(image)@.len(),
        (y1 + 1) * width <= old(image)@.len(),
    ensures
        final(image)@ == with_line(
            old(image)@,
            width as int,
            x0 as int,
            y0 as int,
            x1 as int,
            y1 as int,
        ),
{
    let a: usize = if x0 < x1 {
        x1 - x0
    } else {
        x0 - x1
    };
    let b: usize = if y0 < y1 {
        y1 - y0
    } else {
        y0 - y1
    };
    let n: usize = image.len();
    let dx: i128 = a as i128;
    let dy: i128 = -(b as i128);
    let mut err: i128 = dx + dy;
    let mut x: usize = x0;
    let mut y: usize = y0;
    let ghost w = width as int;
    let ghost start = image@;
    let ghost steps = line_steps(x0 as int, y0 as int, x1 as int, y1 as int);
    let ghost mut k: int = 0;
    let ghost mut i: int = 0;
    let ghost mut j: int = 0;
    let ghost mut bi: int = 0;
    let ghost mut aj: int = 0;
    proof {
        assert(b * 0 == 0 && a * 0 == 0) by (nonlinear_arith);
        assert(with_line_points(start, w, x0 as int, y0 as int, x1 as int, y1 as int, 0) =~= start);
    }
    loop
        invariant_except_break
            0 <= k <= steps,
            image@ == with_line_points(start, w, x0 as int, y0 as int, x1 as int, y1 as int, k),
        invariant
            w == width,
            x0 < width,
            x1 < width,
            (y0 + 1) * width <= start.len(),
            (y1 + 1) * width <= start.len(),
            image@.len() == start.len(),
            n == start.len(),
            a == span(x0 as int, x1 as int),
            b == span(y0 as int, y1 as int),
            steps == line_steps(x0 as int, y0 as int, x1 as int, y1 as int),
            dx == a,
            dy == -b,
            0 <= i <= a,
            0 <= j <= b,
            bi == b * i,
            aj == a * j,
            err == a - b - bi + aj,
            a >= b ==> i == k && (a > 0 ==> -a < 2 * (aj - bi) <= a),
            a < b ==> j == k && -b <= 2 * (aj - bi) < b,
            x == advance(x0 as int, x1 as int, i),
            y == advance(y0 as int, y1 as int, j),
        ensures
            image@ == with_line(start, w, x0 as int, y0 as int, x1 as int, y1 as int),
        decreases steps - k,
    {
        proof {
            lemma_point_reached(x0 as int, y0 as int, x1 as int, y1 as int, k, i, j);
            assert((y + 1) * w <= start.len()) by (nonlinear_arith)
                requires
                    (y0 + 1) * w <= start.len(),
                    (y1 + 1) * w <= start.len(),
                    y <= y0 || y <= y1,
                    w >= 0,
                    y >= 0,
            ;
            lemma_cell_index(w, y + 1, x as int, y as int);
            assert(w * (y + 1) == (y + 1) * w) by (nonlinear_arith);
            lemma_point_set(start, w, x0 as int, y0 as int, x1 as int, y1 as int, k, x as int, y as int);
        }
        let idx: usize = y * width + x;
        image.set(idx, true);
        if x == x1 && y == y1 {
            proof {
                assert(k == steps);
            }
            break;
        }
        proof {
            if k == steps {
                if a >= b {
                    assert(j == b) by (nonlinear_arith)
                        requires
                            -a < 2 * (aj - bi) <= a,
                            bi == b * i,
                            aj == a * j,
                            i == a,
                            a > 0,
                            0 <= j <= b,
                    ;
                } else {
                    assert(i == a) by (nonlinear_arith)
                        requires
                            -b <= 2 * (aj - bi) < b,
                            bi == b * i,
                            aj == a * j,
                            j == b,
                            b > 0,
                            0 <= i <= a,
                    ;
                }
                assert(false);
            }
        }
        let e2: i128 = 2 * err;
        let ghost i0 = i;
        if e2 >= dy {
            proof {
                if a < b {
                    assert(2 * (b * i - a * j) <= 2 * a - b);
                    lemma_step_across_has_room(b as int, a as int, j, i);
                }
                assert(b * (i + 1) == b * i + b) by (nonlinear_arith);
                i = i + 1;
                bi = bi + b;
            }
            err = err + dy;
            if x0 < x1 {
                x = x + 1;
            } else {
                x = x - 1;
            }
        }
        if e2 <= dx {
            proof {
                if a >= b {
                    assert(2 * (a * j - b * i0) <= 2 * b - a);
                    lemma_step_across_has_room(a as int, b as int, i0, j);
                }
                assert(a * (j + 1) == a * j + a) by (nonlinear_arith);
                j = j + 1;
                aj = aj + a;
            }
            err = err + dx;
            if y0 < y1 {
                y = y + 1;
            } else {
                y = y - 1;
            }
        }
        proof {
            k = k + 1;
        }
    }
}

} // verus!
