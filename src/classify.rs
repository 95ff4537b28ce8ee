use vstd::prelude::*;
use crate::grid::{
    Grid,
    Point,
    cell_index,
    in_bounds,
    lemma_cell_index_bounds,
    lemma_cell_index_injective,
};

verus! {

/// Fewest points a component may have to be kept.
pub const MIN_POINTS: usize = 3;

/// Most points a component may have to be kept.
pub const MAX_POINTS: usize = 10000;

/// Numerator of the rational stand-in for pi used by the roundness test; the
/// fraction `PI_NUM / PI_DEN` is within 1e-16 of pi.
pub const PI_NUM: u128 = 245850922;

/// Denominator of the rational stand-in for pi.
pub const PI_DEN: u128 = 78256779;

/// Value written for a kept point in the mask, before inversion.
pub const FOREGROUND: u8 = 255;

pub open spec fn sum_x(b: Seq<Point>) -> int
    decreases b.len(),
{
    if b.len() == 0 {
        0
    } else {
        sum_x(b.drop_last()) + b.last().0
    }
}

pub open spec fn sum_y(b: Seq<Point>) -> int
    decreases b.len(),
{
    if b.len() == 0 {
        0
    } else {
        sum_y(b.drop_last()) + b.last().1
    }
}

pub open spec fn square(v: int) -> int {
    v * v
}

/// The squared distance of point `k` of `b` from the centroid of `b`, scaled by
/// the square of the number of points so that it stays an integer.
pub open spec fn spread(b: Seq<Point>, k: int) -> int {
    let n = b.len() as int;
    square(n * b[k].0 - sum_x(b)) + square(n * b[k].1 - sum_y(b))
}

/// Point `k` of `b` lies no farther from the centroid than the allowed radius
/// `1.5 * n / pi`, where `n` is the number of points. Squared and cleared of
/// fractions, `d <= 1.5 * n / pi` reads `4 * pi^2 * spread <= 9 * n^4`.
pub open spec fn within_radius(b: Seq<Point>, k: int) -> bool {
    let n = b.len() as int;
    4 * (PI_NUM * PI_NUM) * spread(b, k) <= 9 * (PI_DEN * PI_DEN) * (n * n * (n * n))
}

/// Every point of `b` lies within the allowed radius of the centroid.
pub open spec fn is_round(b: Seq<Point>) -> bool {
    forall|k: int| 0 <= k < b.len() ==> #[trigger] within_radius(b, k)
}

/// `b` is kept: its size is in range and it is round.
pub open spec fn accepted(b: Seq<Point>) -> bool {
    MIN_POINTS <= b.len() <= MAX_POINTS && is_round(b)
}

/// Decides `is_round` for a component of at most `MAX_POINTS` points.
pub fn round(b: &Vec<Point>) -> (r: bool)
    requires
        1 <= b@.len() <= MAX_POINTS,
    ensures
        r == is_round(b@),
{
    let n = b.len() as u128;
    let mut sx: u128 = 0;
    let mut sy: u128 = 0;
    let mut i: usize = 0;
    while i < b.len()
        invariant
            n == b@.len(),
            1 <= n <= MAX_POINTS,
            i <= b@.len(),
            sx == sum_x(b@.subrange(0, i as int)),
            sy == sum_y(b@.subrange(0, i as int)),
            sx <= i * (usize::MAX as int),
            sy <= i * (usize::MAX as int),
        decreases b@.len() - i,
    {
        proof {
            assert(b@.subrange(0, i + 1).drop_last() =~= b@.subrange(0, i as int));
        }
        sx = sx + b[i].0 as u128;
        sy = sy + b[i].1 as u128;
        i = i + 1;
    }
    proof {
        assert(b@.subrange(0, i as int) =~= b@);
    }
    assert(n * n <= 100000000) by (nonlinear_arith)
        requires
            1 <= n <= 10000,
    ;
    let nn = n * n;
    let mut k: usize = 0;
    while k < b.len()
        invariant
            n == b@.len(),
            1 <= n <= MAX_POINTS,
            nn == n * n,
            k <= b@.len(),
            sx == sum_x(b@),
            sy == sum_y(b@),
            sx <= n * (usize::MAX as int),
            sy <= n * (usize::MAX as int),
            forall|m: int| 0 <= m < k ==> #[trigger] within_radius(b@, m),
        decreases b@.len() - k,
    {
        let p = b[k];
        assert(n * (p.0 as u128) <= n * (usize::MAX as int)) by (nonlinear_arith)
            requires
                p.0 <= usize::MAX,
                0 <= n,
        ;
        assert(n * (p.1 as u128) <= n * (usize::MAX as int)) by (nonlinear_arith)
            requires
                p.1 <= usize::MAX,
                0 <= n,
        ;
        let px = n * p.0 as u128;
        let py = n * p.1 as u128;
        let dx = if px >= sx { px - sx } else { sx - px };
        let dy = if py >= sy { py - sy } else { sy - py };
        proof {
            let vx = n * b@[k as int].0 - sum_x(b@);
            let vy = n * b@[k as int].1 - sum_y(b@);
            assert(square(dx as int) == square(vx)) by (nonlinear_arith)
                requires
                    dx == vx || dx == -vx,
            ;
            assert(square(dy as int) == square(vy)) by (nonlinear_arith)
                requires
                    dy == vy || dy == -vy,
            ;
            assert(nn * nn <= 10000 * 10000 * 10000 * 10000) by (nonlinear_arith)
                requires
                    nn == n * n,
                    n <= 10000,
            ;
        }
        if dx > nn || dy > nn {
            proof {
                assert(square(dx as int) + square(dy as int) > nn * nn) by (nonlinear_arith)
                    requires
                        dx > nn || dy > nn,
                        nn >= 0,
                ;
                let sp = spread(b@, k as int);
                assert(4 * (PI_NUM * PI_NUM) * sp > 9 * (PI_DEN * PI_DEN) * (nn * nn)) by (nonlinear_arith)
                    requires
                        sp > nn * nn,
                        nn >= 0,
                        PI_NUM == 245850922,
                        PI_DEN == 78256779,
                ;
                assert(!within_radius(b@, k as int));
            }
            return false;
        }
        proof {
            assert(dx * dx <= nn * nn && dy * dy <= nn * nn) by (nonlinear_arith)
                requires
                    dx <= nn,
                    dy <= nn,
            ;
        }
        let s = dx * dx + dy * dy;
        proof {
            assert(4 * (PI_NUM * PI_NUM) * s <= 4 * (PI_NUM * PI_NUM) * 20000000000000000) by (nonlinear_arith)
                requires
                    s <= 20000000000000000,
                    PI_NUM == 245850922,
            ;
            assert(9 * (PI_DEN * PI_DEN) * (nn * nn) <= 9 * (PI_DEN * PI_DEN) * 10000000000000000) by (nonlinear_arith)
                requires
                    nn * nn <= 10000000000000000,
                    PI_DEN == 78256779,
            ;
        }
        let lhs = 4 * (PI_NUM * PI_NUM) * s;
        let rhs = 9 * (PI_DEN * PI_DEN) * (nn * nn);
        proof {
            assert(s == spread(b@, k as int));
            assert(lhs == 4 * (PI_NUM * PI_NUM) * spread(b@, k as int));
            assert(rhs == 9 * (PI_DEN * PI_DEN) * (n * n * (n * n)));
        }
        if lhs > rhs {
            proof {
                assert(!within_radius(b@, k as int));
            }
            return false;
        }
        k = k + 1;
    }
    true
}

/// Decides `accepted`: the size bounds first, then the roundness test.
pub fn keeps(b: &Vec<Point>) -> (r: bool)
    ensures
        r == accepted(b@),
{
    b.len() >= MIN_POINTS && b.len() <= MAX_POINTS && round(b)
}

/// Point `p` belongs to some kept component of `bs`.
pub open spec fn stamped(bs: Seq<Vec<Point>>, p: Point) -> bool
    decreases bs.len(),
{
    if bs.len() == 0 {
        false
    } else {
        stamped(bs.drop_last(), p) || (accepted(bs.last()@) && bs.last()@.contains(p))
    }
}

/// Every point of every component of `bs` lies inside a `w` by `h` grid.
pub open spec fn all_in_bounds(w: int, h: int, bs: Seq<Vec<Point>>) -> bool {
    forall|j: int, k: int|
        0 <= j < bs.len() && 0 <= k < bs[j]@.len() ==> in_bounds(w, h, #[trigger] bs[j]@[k])
}

/// The mask value that `classify` gives point `p`.
pub open spec fn mask_value(bs: Seq<Vec<Point>>, p: Point) -> u8 {
    if stamped(bs, p) {
        FOREGROUND
    } else {
        0
    }
}

/// Builds the mask of a `width` by `height` grid: the points of every kept
/// component of `blobs` hold `FOREGROUND`, all others 0.
pub fn classify(width: usize, height: usize, blobs: &Vec<Vec<Point>>) -> (mask: Grid)
    requires
        width * height <= usize::MAX,
        all_in_bounds(width as int, height as int, blobs@),
    ensures
        mask.wf(),
        mask.width == width,
        mask.height == height,
        forall|p: Point|
            in_bounds(width as int, height as int, p) ==> #[trigger] mask.at(p) == mask_value(
                blobs@,
                p,
            ),
{
    let mut mask = Grid::filled(width, height);
    let mut j: usize = 0;
    proof {
        assert forall|p: Point| in_bounds(width as int, height as int, p) implies #[trigger] mask.at(
            p,
        ) == mask_value(blobs@.subrange(0, 0), p) by {
            lemma_cell_index_bounds(width as int, height as int, p);
        }
    }
    while j < blobs.len()
        invariant
            width * height <= usize::MAX,
            all_in_bounds(width as int, height as int, blobs@),
            mask.wf(),
            mask.width == width,
            mask.height == height,
            j <= blobs@.len(),
            forall|p: Point|
                in_bounds(width as int, height as int, p) ==> #[trigger] mask.at(p) == mask_value(
                    blobs@.subrange(0, j as int),
                    p,
                ),
        decreases blobs@.len() - j,
    {
        let b = &blobs[j];
        let ghost prev = blobs@.subrange(0, j as int);
        proof {
            assert(blobs@.subrange(0, j + 1).drop_last() =~= prev);
            assert(blobs@.subrange(0, j + 1).last() == blobs@[j as int]);
        }
        if keeps(b) {
            let mut k: usize = 0;
            proof {
                assert forall|p: Point| in_bounds(width as int, height as int, p) implies #[trigger] mask.at(p)
                    == (if stamped(prev, p) || b@.subrange(0, 0).contains(p) {
                    FOREGROUND
                } else {
                    0
                }) by {}
            }
            while k < b.len()
                invariant
                    width * height <= usize::MAX,
                    all_in_bounds(width as int, height as int, blobs@),
                    j < blobs@.len(),
                    b == blobs@[j as int],
                    mask.wf(),
                    mask.width == width,
                    mask.height == height,
                    k <= b@.len(),
                    forall|p: Point|
                        in_bounds(width as int, height as int, p) ==> #[trigger] mask.at(p) == (if stamped(
                            prev,
                            p,
                        ) || b@.subrange(0, k as int).contains(p) {
                            FOREGROUND
                        } else {
                            0
                        }),
                decreases b@.len() - k,
            {
                let q = b[k];
                proof {
                    assert(in_bounds(width as int, height as int, blobs@[j as int]@[k as int]));
                    lemma_cell_index_bounds(width as int, height as int, q);
                }
                let ghost m0 = mask;
                let i = q.1 * width + q.0;
                mask.cells.set(i, FOREGROUND);
                proof {
                    assert forall|p: Point| in_bounds(width as int, height as int, p) implies #[trigger] mask.at(
                        p,
                    ) == (if stamped(prev, p) || b@.subrange(0, k + 1).contains(p) {
                        FOREGROUND
                    } else {
                        0
                    }) by {
                        lemma_cell_index_bounds(width as int, height as int, p);
                        assert(b@.subrange(0, k + 1)[k as int] == q);
                        if p != q {
                            if cell_index(width as int, p) == cell_index(width as int, q) {
                                lemma_cell_index_injective(width as int, height as int, p, q);
                            }
                            assert(mask.at(p) == m0.at(p));
                            if b@.subrange(0, k + 1).contains(p) {
                                let t = choose|t: int|
                                    #![trigger b@.subrange(0, k + 1)[t]]
                                    0 <= t < k + 1 && b@.subrange(0, k + 1)[t] == p;
                                assert(b@.subrange(0, k as int)[t] == p);
                            }
                            if b@.subrange(0, k as int).contains(p) {
                                let t = choose|t: int|
                                    #![trigger b@.subrange(0, k as int)[t]]
                                    0 <= t < k && b@.subrange(0, k as int)[t] == p;
                                assert(b@.subrange(0, k + 1)[t] == p);
                            }
                        }
                    }
                }
                k = k + 1;
            }
            proof {
                assert(b@.subrange(0, b@.len() as int) =~= b@);
            }
        }
        j = j + 1;
    }
    proof {
        assert(blobs@.subrange(0, blobs@.len() as int) =~= blobs@);
    }
    mask
}

} // verus!
