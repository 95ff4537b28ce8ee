use vstd::prelude::*;
use vstd::set_lib::{set_int_range, lemma_int_range, lemma_len_subset};
use crate::grid::{
    Grid,
    Point,
    adjacent,
    cell_index,
    in_bounds,
    lemma_cell_index_bounds,
    lemma_cell_index_injective,
};

verus! {

/// Darkest value that may start a new component.
pub const SEED_MAX: u8 = 40;

/// Darkest value that a neighbour may have to join a component already started.
pub const GROW_MAX: u8 = 60;

/// `b` is a component as the detector reports it, read off grid `g`: at least two
/// points, all inside the grid, all no brighter than the growth bound, the first no
/// brighter than the seed bound, no point twice, and each point after the first
/// sharing a side with some point listed before it (so the points form one
/// 4-connected region).
pub open spec fn is_component(g: &Grid, b: Seq<Point>) -> bool {
    &&& b.len() >= 2
    &&& g.at(b[0]) <= SEED_MAX
    &&& forall|k: int|
        0 <= k < b.len() ==> in_bounds(g.width as int, g.height as int, #[trigger] b[k])
            && g.at(b[k]) <= GROW_MAX
    &&& forall|j: int, k: int| 0 <= j < k < b.len() ==> b[j] != b[k]
    &&& forall|k: int|
        #![trigger b[k]]
        0 < k && k < b.len() ==> exists|j: int| #![trigger b[j]] 0 <= j && j < k && adjacent(b[j], b[k])
}

/// No point belongs to two different components of `bs`.
pub open spec fn pairwise_disjoint(bs: Seq<Vec<Point>>) -> bool {
    forall|i: int, j: int, a: int, b: int|
        0 <= i < bs.len() && 0 <= j < bs.len() && i != j && 0 <= a < bs[i]@.len() && 0 <= b
            < bs[j]@.len() ==> #[trigger] bs[i]@[a] != #[trigger] bs[j]@[b]
}

/// Every point that shares a side with `p` inside `g` is brighter than the
/// growth bound, so no component can hold `p`.
pub open spec fn isolated(g: &Grid, p: Point) -> bool {
    forall|q: Point|
        in_bounds(g.width as int, g.height as int, q) && adjacent(p, q) ==> #[trigger] g.at(q)
            > GROW_MAX
}

/// `b` holds every point of `g` that is no brighter than the growth bound and
/// shares a side with one of its points: the region cannot grow further.
pub open spec fn closed(g: &Grid, b: Seq<Point>) -> bool {
    forall|k: int, r: Point|
        0 <= k < b.len() && in_bounds(g.width as int, g.height as int, r) && #[trigger] adjacent(
            b[k],
            r,
        ) && g.at(r) <= GROW_MAX ==> b.contains(r)
}

/// Point `p` lies in some component of `bs`.
pub open spec fn in_some(bs: Seq<Vec<Point>>, p: Point) -> bool {
    exists|j: int| 0 <= j < bs.len() && #[trigger] bs[j]@.contains(p)
}

/// Marks never end at a dark enough neighbour: the marked points form closed regions.
spec fn marks_closed(g: &Grid, vis: Seq<bool>) -> bool {
    forall|p: Point, r: Point|
        in_bounds(g.width as int, g.height as int, p) && in_bounds(
            g.width as int,
            g.height as int,
            r,
        ) && #[trigger] adjacent(p, r) && vis[cell_index(g.width as int, p)] && g.at(r)
            <= GROW_MAX ==> vis[cell_index(g.width as int, r)]
}

/// Each marked point lies in a component of `bs` or is isolated.
spec fn marks_explained(g: &Grid, vis: Seq<bool>, bs: Seq<Vec<Point>>) -> bool {
    forall|p: Point|
        in_bounds(g.width as int, g.height as int, p) && #[trigger] vis[cell_index(
            g.width as int,
            p,
        )] ==> in_some(bs, p) || isolated(g, p)
}

/// Each point before position `upto` in row-major order that could seed a
/// component is marked.
spec fn seeds_marked(g: &Grid, vis: Seq<bool>, upto: int) -> bool {
    forall|p: Point|
        in_bounds(g.width as int, g.height as int, p) && cell_index(g.width as int, p) < upto
            && g.at(p) <= SEED_MAX ==> #[trigger] vis[cell_index(g.width as int, p)]
}

/// What a flood fill from closed marks leaves behind: its region is closed, and
/// so are the marks.
proof fn lemma_grown_closed(g: &Grid, vis0: Seq<bool>, vis1: Seq<bool>, b: Seq<Point>)
    requires
        g.wf(),
        vis0.len() == g.cells@.len(),
        vis1.len() == vis0.len(),
        marks_closed(g, vis0),
        forall|i: int| 0 <= i < vis0.len() && vis0[i] ==> vis1[i],
        forall|k: int|
            0 <= k < b.len() ==> in_bounds(g.width as int, g.height as int, #[trigger] b[k])
                && g.at(b[k]) <= GROW_MAX && !vis0[cell_index(g.width as int, b[k])]
                && vis1[cell_index(g.width as int, b[k])],
        marks_from(g.width as int, g.height as int, vis0, vis1, b),
        forall|k: int, r: Point|
            0 <= k < b.len() && in_bounds(g.width as int, g.height as int, r) && #[trigger] adjacent(
                b[k],
                r,
            ) && g.at(r) <= GROW_MAX ==> b.contains(r) || vis0[cell_index(g.width as int, r)],
    ensures
        closed(g, b),
        marks_closed(g, vis1),
{
    let w = g.width as int;
    let h = g.height as int;
    assert forall|k: int, r: Point|
        0 <= k < b.len() && in_bounds(w, h, r) && #[trigger] adjacent(b[k], r) && g.at(r)
            <= GROW_MAX implies b.contains(r) by {
        if vis0[cell_index(w, r)] {
            lemma_cell_index_bounds(w, h, r);
            assert(adjacent(r, b[k]));
            assert(vis0[cell_index(w, b[k])]);
        }
    }
    assert forall|p: Point, r: Point|
        in_bounds(w, h, p) && in_bounds(w, h, r) && #[trigger] adjacent(p, r) && vis1[cell_index(
            w,
            p,
        )] && g.at(r) <= GROW_MAX implies vis1[cell_index(w, r)] by {
        lemma_cell_index_bounds(w, h, p);
        lemma_cell_index_bounds(w, h, r);
        if vis0[cell_index(w, p)] {
            assert(vis0[cell_index(w, r)]);
        } else {
            let t = choose|t: int| 0 <= t < b.len() && b[t] == p;
            assert(adjacent(b[t], r));
            let u = choose|u: int| 0 <= u < b.len() && b[u] == r;
            assert(vis1[cell_index(w, b[u])]);
        }
    }
}

spec fn visited(vis: Seq<bool>) -> Set<int> {
    Set::new(|i: int| 0 <= i < vis.len() && vis[i])
}

proof fn lemma_visited_bound(vis: Seq<bool>)
    ensures
        visited(vis).finite(),
        visited(vis).len() <= vis.len(),
{
    lemma_int_range(0, vis.len() as int);
    assert(visited(vis).subset_of(set_int_range(0, vis.len() as int)));
    lemma_len_subset(visited(vis), set_int_range(0, vis.len() as int));
}

proof fn lemma_visited_mark(vis: Seq<bool>, i: int)
    requires
        0 <= i < vis.len(),
        !vis[i],
    ensures
        visited(vis.update(i, true)).finite(),
        visited(vis.update(i, true)).len() == visited(vis).len() + 1,
        visited(vis.update(i, true)).len() <= vis.len(),
{
    lemma_visited_bound(vis);
    lemma_visited_bound(vis.update(i, true));
    assert(visited(vis.update(i, true)) =~= visited(vis).insert(i));
}

/// Queues `(x, y)` when it lies inside the grid, is unvisited and dark enough to grow into.
fn consider(g: &Grid, vis: &Vec<bool>, q: &mut Vec<Point>, x: usize, y: usize)
    requires
        g.wf(),
        vis@.len() == g.cells@.len(),
    ensures
        final(q)@ == old(q)@ || (final(q)@ == old(q)@.push((x, y)) && in_bounds(
            g.width as int,
            g.height as int,
            (x, y),
        ) && g.at((x, y)) <= GROW_MAX),
        in_bounds(g.width as int, g.height as int, (x, y)) && !vis@[cell_index(
            g.width as int,
            (x, y),
        )] && g.at((x, y)) <= GROW_MAX ==> final(q)@ == old(q)@.push((x, y)),
{
    if x < g.width && y < g.height {
        let n = g.cells.len();
        proof {
            lemma_cell_index_bounds(g.width as int, g.height as int, (x, y));
        }
        let i = y * g.width + x;
        if !vis[i] && g.cells[i] <= GROW_MAX {
            q.push((x, y));
        }
    }
}

/// Queues those 4-neighbours of `p` that `consider` accepts, in the order
/// below, above, right, left.
fn push_neighbours(g: &Grid, vis: &Vec<bool>, q: &mut Vec<Point>, p: Point)
    requires
        g.wf(),
        vis@.len() == g.cells@.len(),
        in_bounds(g.width as int, g.height as int, p),
    ensures
        old(q)@.len() <= final(q)@.len() <= old(q)@.len() + 4,
        final(q)@.subrange(0, old(q)@.len() as int) == old(q)@,
        forall|k: int|
            old(q)@.len() <= k < final(q)@.len() ==> in_bounds(
                g.width as int,
                g.height as int,
                #[trigger] final(q)@[k],
            ) && g.at(final(q)@[k]) <= GROW_MAX && adjacent(p, final(q)@[k]),
        forall|r: Point|
            in_bounds(g.width as int, g.height as int, r) && #[trigger] adjacent(p, r) && g.at(r)
                <= GROW_MAX && !vis@[cell_index(g.width as int, r)] ==> exists|m: int|
                old(q)@.len() <= m < final(q)@.len() && final(q)@[m] == r,
{
    let ghost q0 = q@;
    let ghost l1 = q@.len();
    let ghost c1: Point = (p.0, (p.1 + 1) as usize);
    consider(g, vis, q, p.0, p.1 + 1);
    let ghost l2 = q@.len();
    let ghost c2: Point = (p.0, (p.1 - 1) as usize);
    if p.1 > 0 {
        consider(g, vis, q, p.0, p.1 - 1);
    }
    let ghost l3 = q@.len();
    let ghost c3: Point = ((p.0 + 1) as usize, p.1);
    consider(g, vis, q, p.0 + 1, p.1);
    let ghost l4 = q@.len();
    let ghost c4: Point = ((p.0 - 1) as usize, p.1);
    if p.0 > 0 {
        consider(g, vis, q, p.0 - 1, p.1);
    }
    assert(q@.subrange(0, q0.len() as int) =~= q0);
    proof {
        let w = g.width as int;
        let h = g.height as int;
        assert forall|r: Point|
            in_bounds(w, h, r) && #[trigger] adjacent(p, r) && g.at(r) <= GROW_MAX && !vis@[cell_index(
                w,
                r,
            )] implies exists|m: int| q0.len() <= m < q@.len() && q@[m] == r by {
            if r == c1 {
                assert(q@[l1 as int] == r);
            } else if r.0 == p.0 && r.1 + 1 == p.1 {
                assert(r == c2);
                assert(q@[l2 as int] == r);
            } else if r == c3 {
                assert(q@[l3 as int] == r);
            } else {
                assert(r == c4);
                assert(q@[l4 as int] == r);
            }
        }
    }
}

/// `r` waits in the queue `q` at or after position `head`.
spec fn pending(q: Seq<Point>, head: int, r: Point) -> bool {
    exists|m: int| head <= m < q.len() && q[m] == r
}

/// Every point marked in `vis` was already marked in `before` or lies in `blob`.
spec fn marks_from(w: int, h: int, before: Seq<bool>, vis: Seq<bool>, blob: Seq<Point>) -> bool {
    forall|r: Point|
        in_bounds(w, h, r) && #[trigger] vis[cell_index(w, r)] ==> before[cell_index(w, r)]
            || blob.contains(r)
}

/// Every dark enough neighbour of a point of `blob` lies in `blob`, was marked in
/// `before`, or waits in the queue.
spec fn frontier_held(g: &Grid, before: Seq<bool>, blob: Seq<Point>, q: Seq<Point>, head: int) -> bool {
    forall|k: int, r: Point|
        0 <= k < blob.len() && in_bounds(g.width as int, g.height as int, r) && #[trigger] adjacent(
            blob[k],
            r,
        ) && g.at(r) <= GROW_MAX ==> blob.contains(r) || before[cell_index(g.width as int, r)]
            || pending(q, head, r)
}

/// Breadth-first flood fill from `seed` over unvisited 4-neighbours no brighter than
/// the growth bound. Marks and returns every point it reaches, seed first.
fn grow(g: &Grid, vis: &mut Vec<bool>, seed: Point) -> (b: Vec<Point>)
    requires
        g.wf(),
        old(vis)@.len() == g.cells@.len(),
        in_bounds(g.width as int, g.height as int, seed),
        g.at(seed) <= GROW_MAX,
        !old(vis)@[cell_index(g.width as int, seed)],
    ensures
        final(vis)@.len() == old(vis)@.len(),
        forall|i: int| 0 <= i < old(vis)@.len() && old(vis)@[i] ==> final(vis)@[i],
        b@.len() >= 1,
        b@[0] == seed,
        forall|k: int|
            0 <= k < b@.len() ==> in_bounds(g.width as int, g.height as int, #[trigger] b@[k])
                && g.at(b@[k]) <= GROW_MAX && !old(vis)@[cell_index(g.width as int, b@[k])]
                && final(vis)@[cell_index(g.width as int, b@[k])],
        forall|j: int, k: int| 0 <= j < k < b@.len() ==> b@[j] != b@[k],
        forall|k: int|
            #![trigger b@[k]]
            0 < k && k < b@.len() ==> exists|j: int|
                #![trigger b@[j]]
                0 <= j && j < k && adjacent(b@[j], b@[k]),
        marks_from(g.width as int, g.height as int, old(vis)@, final(vis)@, b@),
        forall|k: int, r: Point|
            0 <= k < b@.len() && in_bounds(g.width as int, g.height as int, r) && #[trigger] adjacent(
                b@[k],
                r,
            ) && g.at(r) <= GROW_MAX ==> b@.contains(r) || old(vis)@[cell_index(
                g.width as int,
                r,
            )],
{
    let w = g.width;
    let h = g.height;
    let n = g.cells.len();
    let ghost old_vis = vis@;
    let mut blob: Vec<Point> = Vec::new();
    let mut q: Vec<Point> = Vec::new();
    q.push(seed);
    let ghost mut par: Seq<int> = seq![0];
    let ghost mut links: Seq<int> = Seq::empty();
    let mut head: usize = 0;
    proof {
        lemma_visited_bound(vis@);
    }
    while head < q.len()
        invariant
            w == g.width,
            h == g.height,
            g.wf(),
            n == g.cells@.len(),
            vis@.len() == n,
            old_vis.len() == n,
            in_bounds(w as int, h as int, seed),
            g.at(seed) <= GROW_MAX,
            !old_vis[cell_index(w as int, seed)],
            forall|i: int| 0 <= i < n && old_vis[i] ==> vis@[i],
            q@.len() >= 1,
            q@[0] == seed,
            head <= q@.len(),
            head == 0 ==> blob@.len() == 0 && q@.len() == 1 && vis@ == old_vis,
            head > 0 ==> blob@.len() >= 1 && blob@[0] == seed,
            par.len() == q@.len(),
            forall|k: int|
                0 <= k < q@.len() ==> in_bounds(w as int, h as int, #[trigger] q@[k]) && g.at(q@[k])
                    <= GROW_MAX,
            forall|k: int|
                1 <= k < q@.len() ==> 0 <= #[trigger] par[k] < blob@.len() && adjacent(
                    blob@[par[k]],
                    q@[k],
                ),
            forall|k: int|
                0 <= k < blob@.len() ==> in_bounds(w as int, h as int, #[trigger] blob@[k])
                    && g.at(blob@[k]) <= GROW_MAX && !old_vis[cell_index(w as int, blob@[k])]
                    && vis@[cell_index(w as int, blob@[k])],
            forall|j: int, k: int| 0 <= j < k < blob@.len() ==> blob@[j] != blob@[k],
            links.len() == blob@.len(),
            forall|k: int|
                0 < k < blob@.len() ==> 0 <= #[trigger] links[k] < k && adjacent(
                    blob@[links[k]],
                    blob@[k],
                ),
            visited(vis@).finite(),
            visited(vis@).len() <= n,
            marks_from(w as int, h as int, old_vis, vis@, blob@),
            frontier_held(g, old_vis, blob@, q@, head as int),
        decreases (n - visited(vis@).len()) * 5 + (q@.len() - head),
    {
        let p = q[head];
        let ghost k = head as int;
        head = head + 1;
        proof {
            lemma_cell_index_bounds(w as int, h as int, p);
        }
        let i = p.1 * w + p.0;
        if vis[i] {
            proof {
                assert(vis@[cell_index(w as int, p)]);
                assert forall|kk: int, r: Point|
                    0 <= kk < blob@.len() && in_bounds(w as int, h as int, r) && #[trigger] adjacent(
                        blob@[kk],
                        r,
                    ) && g.at(r) <= GROW_MAX implies blob@.contains(r) || old_vis[cell_index(
                        w as int,
                        r,
                    )] || pending(q@, head as int, r) by {
                    if !blob@.contains(r) && !old_vis[cell_index(w as int, r)] {
                        let m = choose|m: int| k <= m < q@.len() && q@[m] == r;
                        if m == k {
                            assert(vis@[cell_index(w as int, r)]);
                        }
                        assert(pending(q@, head as int, r));
                    }
                }
            }
            continue;
        }
        proof {
            lemma_visited_mark(vis@, i as int);
            if k >= 1 {
                assert(adjacent(blob@[par[k]], p));
            }
        }
        let ghost vis0 = vis@;
        let ghost blob0 = blob@;
        vis.set(i, true);
        blob.push(p);
        proof {
            assert(!old_vis[cell_index(w as int, p)]);
            assert forall|m: int| 0 <= m < blob@.len() implies in_bounds(
                w as int,
                h as int,
                #[trigger] blob@[m],
            ) && g.at(blob@[m]) <= GROW_MAX && !old_vis[cell_index(w as int, blob@[m])]
                && vis@[cell_index(w as int, blob@[m])] by {
                if m < blob0.len() {
                    assert(blob@[m] == blob0[m]);
                    let b = blob0[m];
                    lemma_cell_index_bounds(w as int, h as int, b);
                    assert(in_bounds(w as int, h as int, b) && g.at(b) <= GROW_MAX
                        && !old_vis[cell_index(w as int, b)] && vis0[cell_index(w as int, b)]);
                } else {
                    assert(blob@[m] == p);
                    assert(q@[k] == p);
                    assert(in_bounds(w as int, h as int, p));
                    assert(g.at(p) <= GROW_MAX);
                    assert(i as int == cell_index(w as int, p));
                    assert(vis@[i as int]);
                }
            }
            links = links.push(if k >= 1 { par[k] } else { 0 });
            assert forall|m: int| 0 < m < blob@.len() implies 0 <= #[trigger] links[m] < m
                && adjacent(blob@[links[m]], blob@[m]) by {
                if m < blob0.len() {
                    assert(blob@[links[m]] == blob0[links[m]]);
                } else {
                    assert(k >= 1);
                    assert(blob@[par[k]] == blob0[par[k]]);
                }
            }
        }
        let ghost me = blob@.len() - 1;
        let ghost q0 = q@;
        push_neighbours(g, vis, &mut q, p);
        proof {
            par = par + Seq::new((q@.len() - q0.len()) as nat, |_m: int| me);
            assert forall|m: int| 0 <= m < q@.len() implies in_bounds(w as int, h as int, #[trigger] q@[m])
                && g.at(q@[m]) <= GROW_MAX by {
                if m < q0.len() {
                    assert(q@[m] == q@.subrange(0, q0.len() as int)[m]);
                }
            }
            assert forall|m: int| 1 <= m < q@.len() implies 0 <= #[trigger] par[m] < blob@.len()
                && adjacent(blob@[par[m]], q@[m]) by {
                if m < q0.len() {
                    assert(q@[m] == q@.subrange(0, q0.len() as int)[m]);
                    assert(q@[m] == q0[m]);
                    assert(blob@[par[m]] == blob0[par[m]]);
                }
            }
            assert forall|r: Point| in_bounds(w as int, h as int, r) && #[trigger] vis@[cell_index(
                w as int,
                r,
            )] implies old_vis[cell_index(w as int, r)] || blob@.contains(r) by {
                if r == p {
                    assert(blob@[blob@.len() - 1] == r);
                } else {
                    lemma_cell_index_bounds(w as int, h as int, r);
                    if cell_index(w as int, r) == i {
                        lemma_cell_index_injective(w as int, h as int, r, p);
                    }
                    assert(vis0[cell_index(w as int, r)]);
                    if blob0.contains(r) {
                        let t = choose|t: int| 0 <= t < blob0.len() && blob0[t] == r;
                        assert(blob@[t] == r);
                    }
                }
            }
            assert forall|kk: int, r: Point|
                0 <= kk < blob@.len() && in_bounds(w as int, h as int, r) && #[trigger] adjacent(
                    blob@[kk],
                    r,
                ) && g.at(r) <= GROW_MAX implies blob@.contains(r) || old_vis[cell_index(
                w as int,
                r,
            )] || pending(q@, head as int, r) by {
                if kk < blob0.len() {
                    assert(blob@[kk] == blob0[kk]);
                    if blob0.contains(r) {
                        let t = choose|t: int| 0 <= t < blob0.len() && blob0[t] == r;
                        assert(blob@[t] == r);
                    } else if !old_vis[cell_index(w as int, r)] {
                        let m = choose|m: int| k <= m < q0.len() && q0[m] == r;
                        if m == k {
                            assert(blob@[blob@.len() - 1] == r);
                        } else {
                            assert(q@[m] == q@.subrange(0, q0.len() as int)[m]);
                            assert(pending(q@, head as int, r));
                        }
                    }
                } else {
                    assert(blob@[kk] == p);
                    lemma_cell_index_bounds(w as int, h as int, r);
                    if !vis@[cell_index(w as int, r)] {
                        assert(adjacent(p, r));
                        let m = choose|m: int| q0.len() <= m < q@.len() && q@[m] == r;
                        assert(pending(q@, head as int, r));
                    }
                }
            }
        }
    }
    assert forall|m: int| #![trigger blob@[m]] 0 < m && m < blob@.len() implies exists|j: int|
        #![trigger blob@[j]]
        0 <= j && j < m && adjacent(blob@[j], blob@[m]) by {
        assert(blob@[links[m]] == blob@[links[m]]);
    }
    assert forall|kk: int, r: Point|
        0 <= kk < blob@.len() && in_bounds(w as int, h as int, r) && #[trigger] adjacent(
            blob@[kk],
            r,
        ) && g.at(r) <= GROW_MAX implies blob@.contains(r) || old_vis[cell_index(
        w as int,
        r,
    )] by {
        assert(!pending(q@, head as int, r));
    }
    blob
}

/// Every point of some component of `bs` is marked in `vis`.
spec fn all_marked(w: int, vis: Seq<bool>, bs: Seq<Vec<Point>>) -> bool {
    forall|j: int, k: int|
        0 <= j < bs.len() && 0 <= k < bs[j]@.len() ==> vis[cell_index(w, #[trigger] bs[j]@[k])]
}

/// Finds the dark components of `g`. Points are scanned row by row; each unvisited
/// point no brighter than the seed bound starts a flood fill, and the region it
/// reaches is kept when it has at least two points. Every point is claimed at most
/// once, so the components returned never overlap.
pub fn detect(g: &Grid) -> (bs: Vec<Vec<Point>>)
    requires
        g.wf(),
    ensures
        forall|j: int| 0 <= j < bs@.len() ==> is_component(g, #[trigger] bs@[j]@),
        forall|j: int| 0 <= j < bs@.len() ==> closed(g, #[trigger] bs@[j]@),
        pairwise_disjoint(bs@),
        forall|p: Point|
            in_bounds(g.width as int, g.height as int, p) && g.at(p) <= SEED_MAX && !isolated(g, p)
                ==> #[trigger] in_some(bs@, p),
{
    let n = g.cells.len();
    let w = g.width;
    let h = g.height;
    let mut vis: Vec<bool> = Vec::new();
    let mut i: usize = 0;
    while i < n
        invariant
            i <= n,
            vis@.len() == i,
            forall|k: int| 0 <= k < i ==> !vis@[k],
        decreases n - i,
    {
        vis.push(false);
        i = i + 1;
    }
    proof {
        assert forall|p: Point, r: Point|
            in_bounds(w as int, h as int, p) && in_bounds(w as int, h as int, r) && #[trigger] adjacent(
                p,
                r,
            ) && vis@[cell_index(w as int, p)] && g.at(r) <= GROW_MAX implies vis@[cell_index(
            w as int,
            r,
        )] by {
            lemma_cell_index_bounds(w as int, h as int, p);
        }
        assert forall|p: Point|
            in_bounds(w as int, h as int, p) && #[trigger] vis@[cell_index(w as int, p)] implies in_some(
            Seq::<Vec<Point>>::empty(),
            p,
        ) || isolated(g, p) by {
            lemma_cell_index_bounds(w as int, h as int, p);
        }
    }
    let mut blobs: Vec<Vec<Point>> = Vec::new();
    let mut y: usize = 0;
    while y < h
        invariant
            g.wf(),
            w == g.width,
            h == g.height,
            n == g.cells@.len(),
            vis@.len() == n,
            y <= h,
            forall|j: int| 0 <= j < blobs@.len() ==> is_component(g, #[trigger] blobs@[j]@),
            pairwise_disjoint(blobs@),
            all_marked(w as int, vis@, blobs@),
            forall|j: int| 0 <= j < blobs@.len() ==> closed(g, #[trigger] blobs@[j]@),
            marks_closed(g, vis@),
            marks_explained(g, vis@, blobs@),
            seeds_marked(g, vis@, y * w),
        decreases h - y,
    {
        let mut x: usize = 0;
        while x < w
            invariant
                g.wf(),
                w == g.width,
                h == g.height,
                n == g.cells@.len(),
                vis@.len() == n,
                x <= w,
                y < h,
                forall|j: int| 0 <= j < blobs@.len() ==> is_component(g, #[trigger] blobs@[j]@),
                pairwise_disjoint(blobs@),
                all_marked(w as int, vis@, blobs@),
                forall|j: int| 0 <= j < blobs@.len() ==> closed(g, #[trigger] blobs@[j]@),
                marks_closed(g, vis@),
                marks_explained(g, vis@, blobs@),
                seeds_marked(g, vis@, y * w + x),
            decreases w - x,
        {
            let v = g.get(x, y);
            proof {
                lemma_cell_index_bounds(w as int, h as int, (x, y));
            }
            let idx = y * w + x;
            let ghost vis_pre = vis@;
            if !vis[idx] && v <= SEED_MAX {
                let ghost vis0 = vis@;
                let ghost bs_pre = blobs@;
                let b = grow(g, &mut vis, (x, y));
                let ghost bv = b@;
                proof {
                    lemma_grown_closed(g, vis0, vis@, b@);
                    assert forall|j: int, k: int|
                        0 <= j < blobs@.len() && 0 <= k < blobs@[j]@.len() implies vis@[cell_index(
                        w as int,
                        #[trigger] blobs@[j]@[k],
                    )] by {
                        assert(is_component(g, blobs@[j]@));
                        lemma_cell_index_bounds(w as int, h as int, blobs@[j]@[k]);
                    }
                }
                if b.len() > 1 {
                    let ghost bs0 = blobs@;
                    blobs.push(b);
                    proof {
                        assert(blobs@[bs0.len() as int]@ == b@);
                        assert forall|i: int, j: int, a: int, c: int|
                            0 <= i < blobs@.len() && 0 <= j < blobs@.len() && i != j && 0 <= a
                                < blobs@[i]@.len() && 0 <= c
                                < blobs@[j]@.len() implies #[trigger] blobs@[i]@[a]
                            != #[trigger] blobs@[j]@[c] by {
                            if i == bs0.len() {
                                assert(!vis0[cell_index(w as int, b@[a])]);
                                assert(vis0[cell_index(w as int, bs0[j]@[c])]);
                            } else if j == bs0.len() {
                                assert(!vis0[cell_index(w as int, b@[c])]);
                                assert(vis0[cell_index(w as int, bs0[i]@[a])]);
                            } else {
                                assert(bs0[i]@[a] != bs0[j]@[c]);
                            }
                        }
                        assert forall|j: int| 0 <= j < blobs@.len() implies is_component(
                            g,
                            #[trigger] blobs@[j]@,
                        ) by {
                            if j < bs0.len() {
                                assert(blobs@[j] == bs0[j]);
                            }
                        }
                        assert forall|j: int, k: int|
                            0 <= j < blobs@.len() && 0 <= k < blobs@[j]@.len() implies vis@[cell_index(
                            w as int,
                            #[trigger] blobs@[j]@[k],
                        )] by {
                            if j < bs0.len() {
                                assert(blobs@[j] == bs0[j]);
                            }
                        }
                    }
                }
                proof {
                    assert forall|j: int| 0 <= j < blobs@.len() implies closed(
                        g,
                        #[trigger] blobs@[j]@,
                    ) by {
                        if j < bs_pre.len() {
                            assert(blobs@[j] == bs_pre[j]);
                        } else {
                            assert(blobs@[j]@ == bv);
                        }
                    }
                    assert forall|p: Point|
                        in_bounds(w as int, h as int, p) && #[trigger] vis@[cell_index(
                            w as int,
                            p,
                        )] implies in_some(blobs@, p) || isolated(g, p) by {
                        lemma_cell_index_bounds(w as int, h as int, p);
                        if vis0[cell_index(w as int, p)] {
                            if in_some(bs_pre, p) {
                                let j = choose|j: int| 0 <= j < bs_pre.len() && #[trigger] bs_pre[j]@.contains(p);
                                assert(blobs@[j] == bs_pre[j]);
                            }
                        } else if bv.len() > 1 {
                            assert(blobs@[bs_pre.len() as int]@ == bv);
                        } else {
                            assert(bv.contains(p));
                            assert(p == bv[0]);
                            assert forall|r: Point|
                                in_bounds(w as int, h as int, r) && adjacent(p, r) implies #[trigger] g.at(r)
                                > GROW_MAX by {
                                if g.at(r) <= GROW_MAX {
                                    assert(adjacent(bv[0], r));
                                    assert(bv.contains(r));
                                }
                            }
                        }
                    }
                }
            }
            proof {
                assert forall|p: Point|
                    in_bounds(w as int, h as int, p) && cell_index(w as int, p) < y * w + x + 1 && g.at(p)
                        <= SEED_MAX implies #[trigger] vis@[cell_index(w as int, p)] by {
                    lemma_cell_index_bounds(w as int, h as int, p);
                    if cell_index(w as int, p) == y * w + x {
                        lemma_cell_index_injective(w as int, h as int, p, (x, y));
                    } else {
                        assert(vis_pre[cell_index(w as int, p)]);
                    }
                }
            }
            x = x + 1;
        }
        proof {
            assert((y + 1) * w == y * w + w) by (nonlinear_arith);
        }
        y = y + 1;
    }
    proof {
        assert forall|p: Point|
            in_bounds(w as int, h as int, p) && g.at(p) <= SEED_MAX && !isolated(g, p) implies #[trigger] in_some(
            blobs@,
            p,
        ) by {
            lemma_cell_index_bounds(w as int, h as int, p);
            assert(h * w == w * h) by (nonlinear_arith);
            assert(vis@[cell_index(w as int, p)]);
        }
    }
    blobs
}

} // verus!
