use vstd::prelude::*;
use crate::classify::{
    MAX_POINTS,
    is_round,
    PI_DEN,
    PI_NUM,
    accepted,
    mask_value,
    spread,
    square,
    stamped,
    sum_x,
    sum_y,
    within_radius,
};
use crate::detect::{GROW_MAX, SEED_MAX, closed, in_some, is_component, isolated};
use crate::grid::{Grid, Point, adjacent, in_bounds};
use crate::mask::{detected, is_segmentation};

verus! {

/// An isolated point belongs to no component, so no mask built from components
/// of `g` marks it.
pub proof fn lemma_isolated_point_unmarked(g: &Grid, bs: Seq<Vec<Point>>, p: Point)
    requires
        g.wf(),
        forall|j: int| 0 <= j < bs.len() ==> is_component(g, #[trigger] bs[j]@),
        in_bounds(g.width as int, g.height as int, p),
        isolated(g, p),
    ensures
        !stamped(bs, p),
        mask_value(bs, p) == 0,
    decreases bs.len(),
{
    if bs.len() > 0 {
        lemma_isolated_point_unmarked(g, bs.drop_last(), p);
        let b = bs.last()@;
        assert(is_component(g, bs[bs.len() - 1]@));
        if b.contains(p) {
            let t = choose|t: int| 0 <= t < b.len() && b[t] == p;
            if t > 0 {
                let j = choose|j: int| #![trigger b[j]] 0 <= j && j < t && adjacent(b[j], b[t]);
                assert(g.at(b[j]) <= GROW_MAX);
                assert(adjacent(p, b[j]));
            } else {
                assert(b[1] == b[1]);
                let j = choose|j: int| #![trigger b[j]] 0 <= j && j < 1 && adjacent(b[j], b[1]);
                assert(g.at(b[1]) <= GROW_MAX);
                assert(adjacent(p, b[1]));
            }
        }
    }
}

/// A segmentation of `g` leaves an isolated point light.
pub proof fn lemma_isolated_point_light(g: &Grid, out: &Grid, p: Point)
    requires
        g.wf(),
        is_segmentation(g, out),
        in_bounds(g.width as int, g.height as int, p),
        isolated(g, p),
    ensures
        out.at(p) == 255,
{
    let bs = choose|bs: Seq<Vec<Point>>|
        #![trigger detected(g, bs)]
        detected(g, bs) && forall|q: Point|
            in_bounds(g.width as int, g.height as int, q) ==> #[trigger] out.at(q) == 255
                - mask_value(bs, q);
    lemma_isolated_point_unmarked(g, bs, p);
}

/// The `n` points of row `y` from column `x0` on, left to right.
pub open spec fn row_segment(x0: int, y: usize, n: nat) -> Seq<Point> {
    Seq::new(n, |k: int| ((x0 + k) as usize, y))
}

proof fn lemma_row_sums(x0: int, y: usize, n: nat)
    requires
        0 <= x0,
        x0 + n <= usize::MAX + 1,
    ensures
        2 * sum_x(row_segment(x0, y, n)) == n * (2 * x0 + n - 1),
        sum_y(row_segment(x0, y, n)) == n * y,
    decreases n,
{
    if n > 0 {
        let m = (n - 1) as nat;
        assert(row_segment(x0, y, n).drop_last() =~= row_segment(x0, y, m));
        lemma_row_sums(x0, y, m);
        assert(n * (2 * x0 + n - 1) == m * (2 * x0 + m - 1) + 2 * (x0 + m)) by (nonlinear_arith)
            requires
                m == n - 1,
        ;
        assert(n * y == m * y + y) by (nonlinear_arith)
            requires
                m == n - 1,
        ;
    }
}

/// A row of 23 or more points is never kept: its end points lie farther from
/// the centroid than the allowed radius (and past `MAX_POINTS` the size bound
/// rejects it too).
pub proof fn lemma_long_row_rejected(x0: usize, y: usize, n: nat)
    requires
        n >= 23,
        x0 + n <= usize::MAX + 1,
    ensures
        !accepted(row_segment(x0 as int, y, n)),
{
    let b = row_segment(x0 as int, y, n);
    if n <= MAX_POINTS {
        lemma_row_sums(x0 as int, y, n);
        let v = n * b[0].0 - sum_x(b);
        assert(b[0] == (x0, y));
        assert(2 * v == -(n * (n - 1))) by (nonlinear_arith)
            requires
                v == n * x0 - sum_x(b),
                2 * sum_x(b) == n * (2 * x0 + n - 1),
        ;
        assert(n * b[0].1 - sum_y(b) == 0);
        let sp = spread(b, 0);
        assert(sp == square(v));
        assert(4 * sp == n * n * ((n - 1) * (n - 1))) by (nonlinear_arith)
            requires
                sp == v * v,
                2 * v == -(n * (n - 1)),
        ;
        let a = PI_NUM * (n - 1);
        let c = 3 * PI_DEN * n;
        assert(a > c >= 0) by (nonlinear_arith)
            requires
                n >= 23,
                a == 245850922 * (n - 1),
                c == 3 * 78256779 * n,
        ;
        assert(a * a > c * c) by (nonlinear_arith)
            requires
                a > c >= 0,
        ;
        assert(n * n * (a * a) > n * n * (c * c)) by (nonlinear_arith)
            requires
                a * a > c * c,
                n >= 1,
        ;
        assert(4 * (PI_NUM * PI_NUM) * sp == n * n * (a * a)) by (nonlinear_arith)
            requires
                4 * sp == n * n * ((n - 1) * (n - 1)),
                a == PI_NUM * (n - 1),
        ;
        assert(9 * (PI_DEN * PI_DEN) * (n * n * (n * n)) == n * n * (c * c)) by (nonlinear_arith)
            requires
                c == 3 * PI_DEN * n,
        ;
        assert(!within_radius(b, 0));
    }
}

/// No point occurs twice in `s`.
pub open spec fn distinct(s: Seq<Point>) -> bool {
    forall|j: int, k: int| 0 <= j < k < s.len() ==> s[j] != s[k]
}

/// `a` and `b` hold the same points.
pub open spec fn same_points(a: Seq<Point>, b: Seq<Point>) -> bool {
    forall|p: Point| #![trigger a.contains(p)] #![trigger b.contains(p)] a.contains(p) <==> b.contains(p)
}

proof fn lemma_sum_remove(s: Seq<Point>, i: int)
    requires
        0 <= i < s.len(),
    ensures
        sum_x(s) == sum_x(s.remove(i)) + s[i].0,
        sum_y(s) == sum_y(s.remove(i)) + s[i].1,
    decreases s.len(),
{
    if i == s.len() - 1 {
        assert(s.remove(i) =~= s.drop_last());
    } else {
        lemma_sum_remove(s.drop_last(), i);
        assert(s.remove(i).drop_last() =~= s.drop_last().remove(i));
        assert(s.remove(i).last() == s.last());
    }
}

pub(crate) proof fn lemma_same_points_sums(a: Seq<Point>, b: Seq<Point>)
    requires
        distinct(a),
        distinct(b),
        same_points(a, b),
    ensures
        a.len() == b.len(),
        sum_x(a) == sum_x(b),
        sum_y(a) == sum_y(b),
    decreases a.len(),
{
    if a.len() == 0 {
        if b.len() > 0 {
            assert(b.contains(b[0]));
        }
    } else {
        let x = a.last();
        assert(a.contains(x)) by {
            assert(a[a.len() - 1] == x);
        }
        let i = choose|i: int| 0 <= i < b.len() && b[i] == x;
        let c = a.drop_last();
        let d = b.remove(i);
        assert forall|j: int, k: int| 0 <= j < k < d.len() implies d[j] != d[k] by {
            let jj = if j < i { j } else { j + 1 };
            let kk = if k < i { k } else { k + 1 };
            assert(d[j] == b[jj] && d[k] == b[kk]);
        }
        assert forall|p: Point| #![trigger c.contains(p)] #![trigger d.contains(p)] c.contains(p) <==> d.contains(p) by {
            if c.contains(p) {
                let t = choose|t: int| 0 <= t < c.len() && c[t] == p;
                assert(a[t] == p);
                assert(a.contains(p));
                let u = choose|u: int| 0 <= u < b.len() && b[u] == p;
                assert(u != i);
                if u < i {
                    assert(d[u] == p);
                } else {
                    assert(d[u - 1] == p);
                }
            }
            if d.contains(p) {
                let t = choose|t: int| 0 <= t < d.len() && d[t] == p;
                let tt = if t < i { t } else { t + 1 };
                assert(b[tt] == p);
                assert(b.contains(p));
                let u = choose|u: int| 0 <= u < a.len() && a[u] == p;
                assert(u != a.len() - 1);
                assert(c[u] == p);
            }
        }
        lemma_same_points_sums(c, d);
        lemma_sum_remove(b, i);
    }
}

/// Whether a component is kept depends on its points alone, not on the order
/// they are listed in.
pub proof fn lemma_accepted_by_points(a: Seq<Point>, b: Seq<Point>)
    requires
        distinct(a),
        distinct(b),
        same_points(a, b),
    ensures
        accepted(a) == accepted(b),
{
    lemma_same_points_sums(a, b);
    assert forall|k: int| 0 <= k < b.len() && is_round(a) implies #[trigger] within_radius(b, k) by {
        assert(a.contains(b[k]) == b.contains(b[k]));
        assert(b.contains(b[k]));
        let t = choose|t: int| 0 <= t < a.len() && a[t] == b[k];
        assert(within_radius(a, t));
        assert(spread(a, t) == spread(b, k));
    }
    assert forall|k: int| 0 <= k < a.len() && is_round(b) implies #[trigger] within_radius(a, k) by {
        assert(a.contains(a[k]));
        let t = choose|t: int| 0 <= t < b.len() && b[t] == a[k];
        assert(within_radius(b, t));
        assert(spread(b, t) == spread(a, k));
    }
}

proof fn lemma_first_inside(a: Seq<Point>, b: Seq<Point>, t: int) -> (m: int)
    requires
        0 <= t < a.len(),
        b.contains(a[t]),
    ensures
        0 <= m <= t,
        b.contains(a[m]),
        forall|i: int| 0 <= i < m ==> !b.contains(#[trigger] a[i]),
    decreases t,
{
    if exists|i: int| 0 <= i < t && b.contains(#[trigger] a[i]) {
        let i = choose|i: int| 0 <= i < t && b.contains(#[trigger] a[i]);
        lemma_first_inside(a, b, i)
    } else {
        t
    }
}

proof fn lemma_prefix_inside(g: &Grid, a: Seq<Point>, b: Seq<Point>, k: int)
    requires
        is_component(g, a),
        closed(g, b),
        b.contains(a[0]),
        0 <= k < a.len(),
    ensures
        forall|i: int| 0 <= i <= k ==> b.contains(#[trigger] a[i]),
    decreases k,
{
    if k > 0 {
        lemma_prefix_inside(g, a, b, k - 1);
        assert(a[k] == a[k]);
        let j = choose|j: int| #![trigger a[j]] 0 <= j && j < k && adjacent(a[j], a[k]);
        assert(b.contains(a[j]));
        let u = choose|u: int| 0 <= u < b.len() && b[u] == a[j];
        assert(adjacent(b[u], a[k]));
        assert(b.contains(a[k]));
    }
}

/// A component that shares a point with a region that cannot grow further lies
/// wholly inside it.
proof fn lemma_component_inside(g: &Grid, a: Seq<Point>, b: Seq<Point>, s: Point)
    requires
        is_component(g, a),
        closed(g, b),
        a.contains(s),
        b.contains(s),
    ensures
        forall|k: int| 0 <= k < a.len() ==> b.contains(#[trigger] a[k]),
{
    let t = choose|t: int| 0 <= t < a.len() && a[t] == s;
    let m = lemma_first_inside(a, b, t);
    if m > 0 {
        assert(a[m] == a[m]);
        let j = choose|j: int| #![trigger a[j]] 0 <= j && j < m && adjacent(a[j], a[m]);
        let u = choose|u: int| 0 <= u < b.len() && b[u] == a[m];
        assert(adjacent(b[u], a[j]));
        assert(b.contains(a[j]));
    }
    lemma_prefix_inside(g, a, b, a.len() - 1);
}

proof fn lemma_stamped_witness(bs: Seq<Vec<Point>>, p: Point) -> (j: int)
    requires
        stamped(bs, p),
    ensures
        0 <= j < bs.len(),
        accepted(bs[j]@),
        bs[j]@.contains(p),
    decreases bs.len(),
{
    if stamped(bs.drop_last(), p) {
        let j = lemma_stamped_witness(bs.drop_last(), p);
        assert(bs.drop_last()[j] == bs[j]);
        j
    } else {
        bs.len() - 1
    }
}

pub(crate) proof fn lemma_stamped_from(bs: Seq<Vec<Point>>, p: Point, j: int)
    requires
        0 <= j < bs.len(),
        accepted(bs[j]@),
        bs[j]@.contains(p),
    ensures
        stamped(bs, p),
    decreases bs.len(),
{
    if j < bs.len() - 1 {
        assert(bs.drop_last()[j] == bs[j]);
        lemma_stamped_from(bs.drop_last(), p, j);
    }
}

proof fn lemma_stamped_carries(g: &Grid, bs1: Seq<Vec<Point>>, bs2: Seq<Vec<Point>>, p: Point)
    requires
        g.wf(),
        detected(g, bs1),
        detected(g, bs2),
        stamped(bs1, p),
    ensures
        stamped(bs2, p),
{
    let j1 = lemma_stamped_witness(bs1, p);
    let a = bs1[j1]@;
    assert(is_component(g, a));
    assert(closed(g, a));
    let s = a[0];
    assert(a[1] == a[1]);
    let j0 = choose|j: int| #![trigger a[j]] 0 <= j && j < 1 && adjacent(a[j], a[1]);
    assert(!isolated(g, s)) by {
        assert(in_bounds(g.width as int, g.height as int, a[1]) && adjacent(s, a[1]) && g.at(a[1])
            <= GROW_MAX);
    }
    assert(in_bounds(g.width as int, g.height as int, s) && g.at(s) <= SEED_MAX);
    assert(in_some(bs2, s));
    let j2 = choose|j: int| 0 <= j < bs2.len() && #[trigger] bs2[j]@.contains(s);
    let b = bs2[j2]@;
    assert(is_component(g, b));
    assert(closed(g, b));
    assert(a.contains(s)) by {
        assert(a[0] == s);
    }
    lemma_component_inside(g, a, b, s);
    lemma_component_inside(g, b, a, s);
    assert forall|q: Point| #![trigger a.contains(q)] #![trigger b.contains(q)] a.contains(q) <==> b.contains(q) by {
        if a.contains(q) {
            let t = choose|t: int| 0 <= t < a.len() && a[t] == q;
            assert(b.contains(a[t]));
        }
        if b.contains(q) {
            let t = choose|t: int| 0 <= t < b.len() && b[t] == q;
            assert(a.contains(b[t]));
        }
    }
    lemma_accepted_by_points(a, b);
    lemma_stamped_from(bs2, p, j2);
}

/// Segmenting a grid has one possible outcome: any two segmentations of `g`
/// agree at every point, whatever order the components were found or listed in.
pub proof fn lemma_segmentation_unique(g: &Grid, out1: &Grid, out2: &Grid, p: Point)
    requires
        g.wf(),
        is_segmentation(g, out1),
        is_segmentation(g, out2),
        in_bounds(g.width as int, g.height as int, p),
    ensures
        out1.at(p) == out2.at(p),
{
    let bs1 = choose|bs: Seq<Vec<Point>>|
        #![trigger detected(g, bs)]
        detected(g, bs) && forall|q: Point|
            in_bounds(g.width as int, g.height as int, q) ==> #[trigger] out1.at(q) == 255
                - mask_value(bs, q);
    let bs2 = choose|bs: Seq<Vec<Point>>|
        #![trigger detected(g, bs)]
        detected(g, bs) && forall|q: Point|
            in_bounds(g.width as int, g.height as int, q) ==> #[trigger] out2.at(q) == 255
                - mask_value(bs, q);
    if stamped(bs1, p) {
        lemma_stamped_carries(g, bs1, bs2, p);
    }
    if stamped(bs2, p) {
        lemma_stamped_carries(g, bs2, bs1, p);
    }
}

} // verus!
