use vstd::prelude::*;
use vstd::set_lib::{set_int_range, lemma_int_range, lemma_len_subset};
use crate::classify::{
    MAX_POINTS,
    PI_DEN,
    PI_NUM,
    accepted,
    spread,
    square,
    stamped,
    sum_x,
    sum_y,
    within_radius,
};
use crate::detect::{GROW_MAX, SEED_MAX, closed, in_some, is_component, isolated};
use crate::grid::{Grid, Point, adjacent, in_bounds};
use crate::laws::{distinct, lemma_same_points_sums, lemma_stamped_from, same_points};
use crate::mask::detected;

verus! {

/// Point `p` lies in the filled disk of radius `r` around `c`.
pub open spec fn in_disk(c: Point, r: int, p: Point) -> bool {
    square(p.0 - c.0) + square(p.1 - c.1) <= r * r
}

/// `g` shows a filled disk of radius `r` (at least 1) around `c`, wholly inside
/// the grid: the disk's points are no brighter than the seed bound and every
/// other point is brighter than the growth bound.
pub open spec fn shows_disk(g: &Grid, c: Point, r: int) -> bool {
    &&& 1 <= r
    &&& r <= c.0 && c.0 + r < g.width
    &&& r <= c.1 && c.1 + r < g.height
    &&& forall|p: Point|
        #![trigger g.at(p)]
        in_bounds(g.width as int, g.height as int, p) ==> (if in_disk(c, r, p) {
            g.at(p) <= SEED_MAX
        } else {
            g.at(p) > GROW_MAX
        })
}

proof fn lemma_disk_point(g: &Grid, c: Point, r: int, p: Point)
    requires
        shows_disk(g, c, r),
        in_disk(c, r, p),
    ensures
        c.0 - r <= p.0 <= c.0 + r,
        c.1 - r <= p.1 <= c.1 + r,
        in_bounds(g.width as int, g.height as int, p),
        g.at(p) <= SEED_MAX,
{
    let a = p.0 - c.0;
    let b = p.1 - c.1;
    assert(-r <= a <= r && -r <= b <= r) by (nonlinear_arith)
        requires
            a * a + b * b <= r * r,
            r >= 1,
    ;
}

spec fn steps(c: Point, p: Point) -> int {
    (if p.0 >= c.0 {
        p.0 - c.0
    } else {
        c.0 - p.0
    }) + (if p.1 >= c.1 {
        p.1 - c.1
    } else {
        c.1 - p.1
    })
}

/// A region that holds the centre and cannot grow further holds the whole disk.
proof fn lemma_disk_inside(g: &Grid, b: Seq<Point>, c: Point, r: int, p: Point)
    requires
        shows_disk(g, c, r),
        closed(g, b),
        b.contains(c),
        in_disk(c, r, p),
    ensures
        b.contains(p),
    decreases steps(c, p),
{
    if p != c {
        lemma_disk_point(g, c, r, p);
        let q: Point = if p.0 > c.0 {
            ((p.0 - 1) as usize, p.1)
        } else if p.0 < c.0 {
            ((p.0 + 1) as usize, p.1)
        } else if p.1 > c.1 {
            (p.0, (p.1 - 1) as usize)
        } else {
            (p.0, (p.1 + 1) as usize)
        };
        let a = p.0 - c.0;
        let e = q.0 - c.0;
        let f = p.1 - c.1;
        let h = q.1 - c.1;
        assert(e * e <= a * a && h * h <= f * f) by (nonlinear_arith)
            requires
                (a > 0 && e == a - 1 && h == f) || (a < 0 && e == a + 1 && h == f) || (a == 0 && e
                    == 0 && f > 0 && h == f - 1) || (a == 0 && e == 0 && f < 0 && h == f + 1),
        ;
        assert(in_disk(c, r, q));
        lemma_disk_inside(g, b, c, r, q);
        let u = choose|u: int| 0 <= u < b.len() && b[u] == q;
        assert(adjacent(b[u], p));
    }
}

/// The reflection of `p` through `c`.
spec fn mirror(c: Point, p: Point) -> Point {
    ((2 * c.0 - p.0) as usize, (2 * c.1 - p.1) as usize)
}

proof fn lemma_mirror_sums(c: Point, s: Seq<Point>)
    requires
        forall|k: int| 0 <= k < s.len() ==> 0 <= 2 * c.0 - #[trigger] s[k].0 <= usize::MAX && 0 <= 2
            * c.1 - s[k].1 <= usize::MAX,
    ensures
        sum_x(s.map_values(|p: Point| mirror(c, p))) == 2 * c.0 * s.len() - sum_x(s),
        sum_y(s.map_values(|p: Point| mirror(c, p))) == 2 * c.1 * s.len() - sum_y(s),
    decreases s.len(),
{
    if s.len() > 0 {
        let m = s.map_values(|p: Point| mirror(c, p));
        assert(m.drop_last() =~= s.drop_last().map_values(|p: Point| mirror(c, p)));
        lemma_mirror_sums(c, s.drop_last());
        assert(s.last() == s[s.len() - 1]);
        assert(2 * c.0 * s.len() == 2 * c.0 * (s.len() - 1) + 2 * c.0) by (nonlinear_arith);
        assert(2 * c.1 * s.len() == 2 * c.1 * (s.len() - 1) + 2 * c.1) by (nonlinear_arith);
    }
}

/// A sequence without repeats whose items all occur in `b` is no longer than `b`.
proof fn lemma_count_within<A>(a: Seq<A>, b: Seq<A>)
    requires
        a.no_duplicates(),
        forall|i: int| 0 <= i < a.len() ==> b.contains(#[trigger] a[i]),
    ensures
        a.len() <= b.len(),
{
    a.unique_seq_to_set();
    b.lemma_cardinality_of_set();
    vstd::seq_lib::seq_to_set_is_finite(b);
    assert(a.to_set().subset_of(b.to_set())) by {
        assert forall|x: A| a.to_set().contains(x) implies b.to_set().contains(x) by {
            let i = choose|i: int| 0 <= i < a.len() && a[i] == x;
            assert(b.contains(a[i]));
        }
    }
    lemma_len_subset(a.to_set(), b.to_set());
}

/// The points of row `c.1` and column `c.0` within distance `r` of `c`:
/// the column from top to bottom, then the row left of `c`, then right of it.
spec fn cross(c: Point, r: int) -> Seq<Point> {
    Seq::new(
        (4 * r + 1) as nat,
        |i: int|
            if i <= 2 * r {
                (c.0, (c.1 - r + i) as usize)
            } else if i <= 3 * r {
                ((c.0 - r + (i - 2 * r - 1)) as usize, c.1)
            } else {
                ((c.0 + 1 + (i - 3 * r - 1)) as usize, c.1)
            },
    )
}

proof fn lemma_centre_component(g: &Grid, bs: Seq<Vec<Point>>, c: Point, r: int) -> (j: int)
    requires
        g.wf(),
        detected(g, bs),
        shows_disk(g, c, r),
    ensures
        0 <= j < bs.len(),
        bs[j]@.contains(c),
{
    assert(in_disk(c, r, c));
    lemma_disk_point(g, c, r, c);
    let right: Point = ((c.0 + 1) as usize, c.1);
    assert(r * r >= 1) by (nonlinear_arith)
        requires
            r >= 1,
    ;
    assert(right.0 - c.0 == 1 && right.1 - c.1 == 0);
    assert(square(1) == 1 && square(0) == 0);
    assert(in_disk(c, r, right));
    lemma_disk_point(g, c, r, right);
    assert(adjacent(c, right));
    assert(!isolated(g, c));
    assert(in_some(bs, c));
    choose|j: int| 0 <= j < bs.len() && #[trigger] bs[j]@.contains(c)
}

proof fn lemma_component_in_disk(g: &Grid, b: Seq<Point>, c: Point, r: int)
    requires
        shows_disk(g, c, r),
        is_component(g, b),
    ensures
        forall|k: int| 0 <= k < b.len() ==> #[trigger] in_disk(c, r, b[k]),
{
    assert forall|k: int| 0 <= k < b.len() implies #[trigger] in_disk(c, r, b[k]) by {
        assert(in_bounds(g.width as int, g.height as int, b[k]) && g.at(b[k]) <= GROW_MAX);
    }
}

proof fn lemma_mirror_point(g: &Grid, c: Point, r: int, q: Point)
    requires
        shows_disk(g, c, r),
        in_disk(c, r, q),
    ensures
        mirror(c, q).0 == 2 * c.0 - q.0,
        mirror(c, q).1 == 2 * c.1 - q.1,
        in_disk(c, r, mirror(c, q)),
        mirror(c, mirror(c, q)) == q,
{
    lemma_disk_point(g, c, r, q);
    let q2 = mirror(c, q);
    assert(q2.0 == 2 * c.0 - q.0 && q2.1 == 2 * c.1 - q.1);
    let a = q.0 - c.0;
    let b = q.1 - c.1;
    assert((-a) * (-a) == a * a && (-b) * (-b) == b * b) by (nonlinear_arith);
    assert(square(q2.0 - c.0) == square(a));
    assert(square(q2.1 - c.1) == square(b));
}

/// The mirror image through the centre of the component that fills the disk
/// has the same points, none twice.
proof fn lemma_mirror_same_points(g: &Grid, b: Seq<Point>, c: Point, r: int)
    requires
        shows_disk(g, c, r),
        is_component(g, b),
        closed(g, b),
        b.contains(c),
    ensures
        distinct(b.map_values(|q: Point| mirror(c, q))),
        same_points(b, b.map_values(|q: Point| mirror(c, q))),
        forall|k: int| 0 <= k < b.len() ==> 0 <= 2 * c.0 - #[trigger] b[k].0 <= usize::MAX && 0 <= 2
            * c.1 - b[k].1 <= usize::MAX,
{
    let n = b.len() as int;
    lemma_component_in_disk(g, b, c, r);
    let m = b.map_values(|q: Point| mirror(c, q));
    assert forall|k: int| 0 <= k < n implies 0 <= 2 * c.0 - #[trigger] b[k].0 <= usize::MAX && 0 <= 2
        * c.1 - b[k].1 <= usize::MAX by {
        lemma_disk_point(g, c, r, b[k]);
    }
    assert forall|i: int, k: int| 0 <= i < k < m.len() implies m[i] != m[k] by {
        lemma_mirror_point(g, c, r, b[i]);
        lemma_mirror_point(g, c, r, b[k]);
        assert(b[i] != b[k]);
    }
    assert forall|q: Point| b.contains(q) implies #[trigger] m.contains(q) by {
        let t = choose|t: int| 0 <= t < n && b[t] == q;
        assert(in_disk(c, r, b[t]));
        lemma_mirror_point(g, c, r, q);
        lemma_disk_inside(g, b, c, r, mirror(c, q));
        let u = choose|u: int| 0 <= u < n && b[u] == mirror(c, q);
        assert(m[u] == q);
    }
    assert forall|q: Point| m.contains(q) implies #[trigger] b.contains(q) by {
        let t = choose|t: int| 0 <= t < m.len() && m[t] == q;
        assert(in_disk(c, r, b[t]));
        lemma_mirror_point(g, c, r, b[t]);
        lemma_disk_inside(g, b, c, r, q);
    }
}

/// The centroid of the component that fills the disk is the disk's centre: the
/// mirror image of the component has the same points.
proof fn lemma_disk_centroid(g: &Grid, b: Seq<Point>, c: Point, r: int)
    requires
        shows_disk(g, c, r),
        is_component(g, b),
        closed(g, b),
        b.contains(c),
    ensures
        sum_x(b) == b.len() * c.0,
        sum_y(b) == b.len() * c.1,
{
    let n = b.len() as int;
    lemma_component_in_disk(g, b, c, r);
    let m = b.map_values(|q: Point| mirror(c, q));
    lemma_mirror_same_points(g, b, c, r);
    lemma_mirror_sums(c, b);
    lemma_same_points_sums(b, m);
    assert(sum_x(b) == n * c.0 && sum_y(b) == n * c.1) by (nonlinear_arith)
        requires
            sum_x(b) == 2 * c.0 * n - sum_x(b),
            sum_y(b) == 2 * c.1 * n - sum_y(b),
    ;
}

/// The component that fills the disk holds at least the cross through the
/// centre and at most the square around the disk.
proof fn lemma_disk_size(g: &Grid, b: Seq<Point>, c: Point, r: int)
    requires
        shows_disk(g, c, r),
        is_component(g, b),
        closed(g, b),
        b.contains(c),
    ensures
        4 * r + 1 <= b.len() <= (2 * r + 1) * (2 * r + 1),
{
    lemma_component_in_disk(g, b, c, r);
    let x = cross(c, r);
    assert forall|i: int, k: int| 0 <= i < x.len() && 0 <= k < x.len() && i != k implies x[i] != x[k] by {}
    assert forall|i: int| 0 <= i < x.len() implies b.contains(#[trigger] x[i]) by {
        let d = x[i];
        assert(square(d.0 - c.0) + square(d.1 - c.1) <= r * r) by (nonlinear_arith)
            requires
                (d.0 == c.0 && -r <= d.1 - c.1 <= r) || (d.1 == c.1 && -r <= d.0 - c.0 <= r),
        ;
        lemma_disk_inside(g, b, c, r, d);
    }
    lemma_count_within(x, b);
    let side = 2 * r + 1;
    let code = b.map_values(|q: Point| (q.1 - (c.1 - r)) * side + (q.0 - (c.0 - r)));
    assert forall|i: int, k: int| 0 <= i < code.len() && 0 <= k < code.len() && i != k implies code[i]
        != code[k] by {
        lemma_disk_point(g, c, r, b[i]);
        lemma_disk_point(g, c, r, b[k]);
        assert(b[i] != b[k]) by {
            if i < k {
                assert(b[i] != b[k]);
            } else {
                assert(b[k] != b[i]);
            }
        }
        let xi = b[i].0 - (c.0 - r);
        let yi = b[i].1 - (c.1 - r);
        let xk = b[k].0 - (c.0 - r);
        let yk = b[k].1 - (c.1 - r);
        if yi < yk {
            assert(yi * side + xi < yk * side + xk) by (nonlinear_arith)
                requires
                    0 <= xi < side,
                    0 <= xk,
                    0 <= yi < yk,
            ;
        } else if yk < yi {
            assert(yk * side + xk < yi * side + xi) by (nonlinear_arith)
                requires
                    0 <= xk < side,
                    0 <= xi,
                    0 <= yk < yi,
            ;
        }
    }
    lemma_int_range(0, side * side);
    code.unique_seq_to_set();
    assert(code.to_set().subset_of(set_int_range(0, side * side))) by {
        assert forall|v: int| code.to_set().contains(v) implies set_int_range(0, side * side).contains(
            v,
        ) by {
            let i = choose|i: int| 0 <= i < code.len() && code[i] == v;
            lemma_disk_point(g, c, r, b[i]);
            let xi = b[i].0 - (c.0 - r);
            let yi = b[i].1 - (c.1 - r);
            assert(0 <= yi * side + xi < side * side) by (nonlinear_arith)
                requires
                    0 <= xi < side,
                    0 <= yi < side,
            ;
        }
    }
    lemma_len_subset(code.to_set(), set_int_range(0, side * side));
}

/// A filled disk drawn at the seed bound on a background brighter than the
/// growth bound is kept whole by any detector result, for radii from 1 to 49
/// (a disk that fits a 99 by 99 square, so under `MAX_POINTS` points).
pub proof fn lemma_disk_kept(g: &Grid, bs: Seq<Vec<Point>>, c: Point, r: int, p: Point)
    requires
        g.wf(),
        detected(g, bs),
        shows_disk(g, c, r),
        r <= 49,
        in_disk(c, r, p),
    ensures
        stamped(bs, p),
{
    let j = lemma_centre_component(g, bs, c, r);
    let b = bs[j]@;
    assert(is_component(g, b));
    assert(closed(g, b));
    let n = b.len() as int;
    lemma_component_in_disk(g, b, c, r);
    lemma_disk_centroid(g, b, c, r);
    lemma_disk_size(g, b, c, r);
    assert((2 * r + 1) * (2 * r + 1) <= 9801) by (nonlinear_arith)
        requires
            1 <= r <= 49,
    ;
    let a2 = 2 * PI_NUM * r;
    let c3 = 3 * PI_DEN * n;
    assert(0 <= a2 <= c3) by (nonlinear_arith)
        requires
            n >= 4 * r + 1,
            r >= 1,
            a2 == 2 * 245850922 * r,
            c3 == 3 * 78256779 * n,
    ;
    assert(a2 * a2 <= c3 * c3) by (nonlinear_arith)
        requires
            0 <= a2 <= c3,
    ;
    assert(c3 * c3 == 9 * (PI_DEN * PI_DEN) * (n * n)) by (nonlinear_arith)
        requires
            c3 == 3 * PI_DEN * n,
    ;
    assert forall|k: int| 0 <= k < n implies #[trigger] within_radius(b, k) by {
        let d0 = b[k].0 - c.0;
        let d1 = b[k].1 - c.1;
        let dd = d0 * d0 + d1 * d1;
        assert(in_disk(c, r, b[k]));
        assert(dd == square(d0) + square(d1));
        assert(0 <= dd) by (nonlinear_arith)
            requires
                dd == d0 * d0 + d1 * d1,
        ;
        let sp = spread(b, k);
        assert(sp == n * n * dd) by (nonlinear_arith)
            requires
                sp == (n * b[k].0 - n * c.0) * (n * b[k].0 - n * c.0) + (n * b[k].1 - n * c.1) * (n
                    * b[k].1 - n * c.1),
                d0 == b[k].0 - c.0,
                d1 == b[k].1 - c.1,
                dd == d0 * d0 + d1 * d1,
        ;
        assert(4 * (PI_NUM * PI_NUM) * dd <= a2 * a2) by (nonlinear_arith)
            requires
                0 <= dd <= r * r,
                a2 == 2 * PI_NUM * r,
        ;
        assert(4 * (PI_NUM * PI_NUM) * sp <= 9 * (PI_DEN * PI_DEN) * (n * n * (n * n))) by (nonlinear_arith)
            requires
                sp == n * n * dd,
                4 * (PI_NUM * PI_NUM) * dd <= a2 * a2,
                a2 * a2 <= c3 * c3,
                c3 * c3 == 9 * (PI_DEN * PI_DEN) * (n * n),
        ;
    }
    assert(accepted(b));
    lemma_disk_inside(g, b, c, r, p);
    lemma_stamped_from(bs, p, j);
}

} // verus!
