use vstd::prelude::*;

verus! {

/// A pixel position: column, then row.
pub type Point = (usize, usize);

/// A single-channel grid of 8-bit values, stored row by row.
pub struct Grid {
    pub width: usize,
    pub height: usize,
    pub cells: Vec<u8>,
}

/// Position in row-major storage of the point `p` in a grid `w` columns wide.
pub open spec fn cell_index(w: int, p: Point) -> int {
    p.1 * w + p.0
}

pub open spec fn in_bounds(w: int, h: int, p: Point) -> bool {
    p.0 < w && p.1 < h
}

/// Two points that share a side (4-connectivity).
pub open spec fn adjacent(p: Point, q: Point) -> bool {
    (p.0 == q.0 && (p.1 + 1 == q.1 || q.1 + 1 == p.1))
        || (p.1 == q.1 && (p.0 + 1 == q.0 || q.0 + 1 == p.0))
}

pub proof fn lemma_cell_index_bounds(w: int, h: int, p: Point)
    requires
        in_bounds(w, h, p),
    ensures
        0 <= p.1 * w <= cell_index(w, p) < w * h,
{
    assert(0 <= p.1 * w <= p.1 * w + p.0 < w * h) by (nonlinear_arith)
        requires
            0 <= p.0 < w,
            0 <= p.1 < h,
    ;
}

pub proof fn lemma_cell_index_injective(w: int, h: int, p: Point, q: Point)
    requires
        in_bounds(w, h, p),
        in_bounds(w, h, q),
        cell_index(w, p) == cell_index(w, q),
    ensures
        p == q,
{
    if p.1 < q.1 {
        assert(p.1 * w + p.0 < q.1 * w) by (nonlinear_arith)
            requires
                0 <= p.0 < w,
                0 <= p.1 < q.1,
        ;
    } else if q.1 < p.1 {
        assert(q.1 * w + q.0 < p.1 * w) by (nonlinear_arith)
            requires
                0 <= q.0 < w,
                0 <= q.1 < p.1,
        ;
    }
}

impl Grid {
    pub open spec fn wf(&self) -> bool {
        self.cells@.len() == self.width * self.height
    }

    /// The value at point `p` of a well-formed grid.
    pub open spec fn at(&self, p: Point) -> u8 {
        self.cells@[cell_index(self.width as int, p)]
    }

    /// A grid from its dimensions and its values in row-major order;
    /// `None` where the number of values is not `width * height`.
    pub fn new(width: usize, height: usize, cells: Vec<u8>) -> (r: Option<Grid>)
        ensures
            r.is_some() <==> cells@.len() == width * height,
            r matches Some(g) ==> g.width == width && g.height == height && g.cells@ == cells@,
    {
        let len = cells.len();
        match width.checked_mul(height) {
            Some(n) => {
                if len == n {
                    Some(Grid { width, height, cells })
                } else {
                    None
                }
            },
            None => {
                proof {
                    assert(width * height > usize::MAX);
                }
                None
            },
        }
    }

    /// A grid of the given dimensions holding 0 everywhere.
    pub fn filled(width: usize, height: usize) -> (r: Grid)
        requires
            width * height <= usize::MAX,
        ensures
            r.wf(),
            r.width == width,
            r.height == height,
            forall|i: int| 0 <= i < r.cells@.len() ==> r.cells@[i] == 0,
    {
        let n = width * height;
        let mut cells: Vec<u8> = Vec::new();
        let mut i: usize = 0;
        while i < n
            invariant
                i <= n,
                cells@.len() == i,
                forall|k: int| 0 <= k < i ==> cells@[k] == 0,
            decreases n - i,
        {
            cells.push(0);
            i = i + 1;
        }
        Grid { width, height, cells }
    }

    /// The value at column `x`, row `y`.
    pub fn get(&self, x: usize, y: usize) -> (r: u8)
        requires
            self.wf(),
            x < self.width,
            y < self.height,
        ensures
            r == self.at((x, y)),
    {
        let n = self.cells.len();
        proof {
            lemma_cell_index_bounds(self.width as int, self.height as int, (x, y));
        }
        self.cells[y * self.width + x]
    }
}

} // verus!
