use vstd::prelude::*;
use crate::classify::{all_in_bounds, classify, mask_value};
use crate::detect::{closed, detect, in_some, is_component, isolated, pairwise_disjoint, SEED_MAX};
use crate::grid::{Grid, Point, in_bounds, lemma_cell_index_bounds};

verus! {

/// Flips every value of a mask: foreground becomes background and back.
pub fn invert(mask: &mut Grid)
    requires
        old(mask).wf(),
    ensures
        final(mask).wf(),
        final(mask).width == old(mask).width,
        final(mask).height == old(mask).height,
        forall|i: int|
            0 <= i < old(mask).cells@.len() ==> final(mask).cells@[i] == 255 - old(mask).cells@[i],
        forall|p: Point|
            in_bounds(old(mask).width as int, old(mask).height as int, p)
                ==> #[trigger] final(mask).at(p) == 255 - old(mask).at(p),
{
    let n = mask.cells.len();
    let mut i: usize = 0;
    while i < n
        invariant
            n == old(mask).cells@.len(),
            mask.cells@.len() == n,
            mask.width == old(mask).width,
            mask.height == old(mask).height,
            i <= n,
            forall|k: int| 0 <= k < i ==> mask.cells@[k] == 255 - old(mask).cells@[k],
            forall|k: int| i <= k < n ==> mask.cells@[k] == old(mask).cells@[k],
        decreases n - i,
    {
        let v = mask.cells[i];
        mask.cells.set(i, 255 - v);
        i = i + 1;
    }
    proof {
        assert forall|p: Point|
            in_bounds(old(mask).width as int, old(mask).height as int, p) implies #[trigger] mask.at(p)
            == 255 - old(mask).at(p) by {
            lemma_cell_index_bounds(old(mask).width as int, old(mask).height as int, p);
        }
    }
}

/// The conditions the detector's result meets on grid `g`: every entry a
/// component that cannot grow further, no two overlapping, and every point that
/// could seed a component and is not isolated lying in one of them.
pub open spec fn detected(g: &Grid, bs: Seq<Vec<Point>>) -> bool {
    &&& forall|j: int| 0 <= j < bs.len() ==> is_component(g, #[trigger] bs[j]@)
    &&& forall|j: int| 0 <= j < bs.len() ==> closed(g, #[trigger] bs[j]@)
    &&& pairwise_disjoint(bs)
    &&& forall|p: Point|
        in_bounds(g.width as int, g.height as int, p) && g.at(p) <= SEED_MAX && !isolated(g, p)
            ==> #[trigger] in_some(bs, p)
}

/// `out` is the inverted mask of some detector result on `g`: every point of
/// `out` holds 255 less its mask value.
pub open spec fn is_segmentation(g: &Grid, out: &Grid) -> bool {
    exists|bs: Seq<Vec<Point>>|
        #![trigger detected(g, bs)]
        detected(g, bs) && forall|p: Point|
            in_bounds(g.width as int, g.height as int, p) ==> #[trigger] out.at(p) == 255
                - mask_value(bs, p)
}

/// Detects the dark components of `g`, keeps those of fitting size and round
/// shape, and returns their inverted mask: kept points dark (0) on a light (255)
/// field, with the dimensions of `g`.
pub fn segment(g: &Grid) -> (out: Grid)
    requires
        g.wf(),
    ensures
        out.wf(),
        out.width == g.width,
        out.height == g.height,
        is_segmentation(g, &out),
{
    let n = g.cells.len();
    let blobs = detect(g);
    proof {
        assert forall|j: int, k: int|
            0 <= j < blobs@.len() && 0 <= k < blobs@[j]@.len() implies in_bounds(
            g.width as int,
            g.height as int,
            #[trigger] blobs@[j]@[k],
        ) by {
            assert(is_component(g, blobs@[j]@));
        }
        assert(all_in_bounds(g.width as int, g.height as int, blobs@));
    }
    let mut out = classify(g.width, g.height, &blobs);
    invert(&mut out);
    proof {
        assert(detected(g, blobs@));
    }
    out
}

} // verus!
