//! Fixed-size two-dimensional grids stored row by row, and the Moore
//! neighbourhood of a position.
use vstd::prelude::*;

verus! {

/// Index of `(x, y)` in a row-major backing sequence of width `w`.
pub open spec fn index_of(w: int, x: int, y: int) -> int {
    y * w + x
}

pub proof fn lemma_index_in_bounds(w: int, h: int, x: int, y: int)
    requires
        0 <= x < w,
        0 <= y < h,
    ensures
        0 <= index_of(w, x, y) < w * h,
{
    assert(0 <= y * w + x < w * h) by (nonlinear_arith)
        requires
            0 <= x < w,
            0 <= y < h,
    ;
}

pub proof fn lemma_index_injective(w: int, x1: int, y1: int, x2: int, y2: int)
    requires
        0 <= x1 < w,
        0 <= x2 < w,
        0 <= y1,
        0 <= y2,
        index_of(w, x1, y1) == index_of(w, x2, y2),
    ensures
        x1 == x2,
        y1 == y2,
{
    if y1 < y2 {
        assert(y1 * w + w <= y2 * w) by (nonlinear_arith)
            requires
                y1 < y2,
                0 <= x1 < w,
        ;
    } else if y2 < y1 {
        assert(y2 * w + w <= y1 * w) by (nonlinear_arith)
            requires
                y2 < y1,
                0 <= x1 < w,
        ;
    }
}

/// Every index below `w * h` names exactly one in-bounds position.
pub proof fn lemma_index_onto(w: int, h: int, i: int)
    requires
        0 < w,
        0 <= i < w * h,
    ensures
        0 <= i % w < w,
        0 <= i / w < h,
        index_of(w, i % w, i / w) == i,
{
    assert(i == (i / w) * w + i % w) by (nonlinear_arith)
        requires
            0 < w,
    ;
    assert(0 <= i % w < w) by (nonlinear_arith)
        requires
            0 < w,
    ;
    assert(0 <= i / w < h) by (nonlinear_arith)
        requires
            0 < w,
            0 <= i < w * h,
    ;
}

/// `(qx, qy)` comes before `(x, y)` in row-major order.
pub open spec fn before(qx: int, qy: int, x: int, y: int) -> bool {
    qy < y || (qy == y && qx < x)
}

pub open spec fn in_bounds(w: int, h: int, x: int, y: int) -> bool {
    0 <= x < w && 0 <= y < h
}

/// `(nx, ny)` lies in the Moore neighbourhood of `(x, y)`: the in-bounds
/// positions at most one step away in each axis, the position itself excluded.
pub open spec fn adjacent(w: int, h: int, x: int, y: int, nx: int, ny: int) -> bool {
    &&& in_bounds(w, h, nx, ny)
    &&& -1 <= nx - x <= 1
    &&& -1 <= ny - y <= 1
    &&& !(nx == x && ny == y)
}

/// The eight offsets of the Moore neighbourhood, in a fixed order.
pub open spec fn offset(k: int) -> (int, int) {
    if k == 0 {
        (-1, -1)
    } else if k == 1 {
        (-1, 0)
    } else if k == 2 {
        (-1, 1)
    } else if k == 3 {
        (0, -1)
    } else if k == 4 {
        (0, 1)
    } else if k == 5 {
        (1, -1)
    } else if k == 6 {
        (1, 0)
    } else {
        (1, 1)
    }
}

/// The in-bounds positions among the first `k` offsets around `(x, y)`.
pub open spec fn neighbours_upto(w: int, h: int, x: int, y: int, k: int) -> Seq<(usize, usize)>
    decreases k,
{
    if k <= 0 {
        seq![]
    } else {
        let prev = neighbours_upto(w, h, x, y, k - 1);
        let nx = x + offset(k - 1).0;
        let ny = y + offset(k - 1).1;
        if in_bounds(w, h, nx, ny) {
            prev.push((nx as usize, ny as usize))
        } else {
            prev
        }
    }
}

/// The Moore neighbourhood of `(x, y)` as an ordered sequence of positions.
pub open spec fn neighbours(w: int, h: int, x: int, y: int) -> Seq<(usize, usize)> {
    neighbours_upto(w, h, x, y, 8)
}

proof fn lemma_neighbours_upto_complete(w: int, h: int, x: int, y: int, k: int)
    requires
        0 <= k <= 8,
    ensures
        forall|j: int|
            0 <= j < k && #[trigger] in_bounds(w, h, x + offset(j).0, y + offset(j).1)
                ==> neighbours_upto(w, h, x, y, k).contains(
                ((x + offset(j).0) as usize, (y + offset(j).1) as usize),
            ),
    decreases k,
{
    if k > 0 {
        lemma_neighbours_upto_complete(w, h, x, y, k - 1);
        let prev = neighbours_upto(w, h, x, y, k - 1);
        let cur = neighbours_upto(w, h, x, y, k);
        assert forall|j: int|
            0 <= j < k && #[trigger] in_bounds(w, h, x + offset(j).0, y + offset(j).1)
                implies cur.contains(((x + offset(j).0) as usize, (y + offset(j).1) as usize)) by {
            let q = ((x + offset(j).0) as usize, (y + offset(j).1) as usize);
            if j < k - 1 {
                let i = choose|i: int| 0 <= i < prev.len() && prev[i] == q;
                if cur != prev {
                    assert(cur[i] == prev[i]);
                }
            } else {
                assert(cur[cur.len() - 1] == q);
            }
        }
    }
}

/// Every position of the neighbourhood sequence of `(x, y)` is in bounds.
pub proof fn lemma_neighbours_in_bounds(w: int, h: int, x: int, y: int, k: int)
    requires
        0 <= k <= 8,
    ensures
        forall|i: int|
            0 <= i < neighbours_upto(w, h, x, y, k).len() ==> in_bounds(
                w,
                h,
                (#[trigger] neighbours_upto(w, h, x, y, k)[i]).0 as int,
                neighbours_upto(w, h, x, y, k)[i].1 as int,
            ),
    decreases k,
{
    if k > 0 {
        lemma_neighbours_in_bounds(w, h, x, y, k - 1);
        let prev = neighbours_upto(w, h, x, y, k - 1);
        let cur = neighbours_upto(w, h, x, y, k);
        assert forall|i: int| 0 <= i < cur.len() implies in_bounds(w, h, (#[trigger] cur[i]).0 as int, cur[i].1 as int) by {
            if i < prev.len() {
                assert(cur[i] == prev[i]);
            }
        }
    }
}

/// Every position adjacent to `(x, y)` is in its neighbourhood sequence.
pub proof fn lemma_neighbours_complete(w: int, h: int, x: int, y: int, nx: int, ny: int)
    requires
        adjacent(w, h, x, y, nx, ny),
    ensures
        neighbours(w, h, x, y).contains((nx as usize, ny as usize)),
{
    lemma_neighbours_upto_complete(w, h, x, y, 8);
    let j: int = if nx - x == -1 {
        if ny - y == -1 { 0 } else if ny - y == 0 { 1 } else { 2 }
    } else if nx - x == 0 {
        if ny - y == -1 { 3 } else { 4 }
    } else {
        if ny - y == -1 { 5 } else if ny - y == 0 { 6 } else { 7 }
    };
    assert(in_bounds(w, h, x + offset(j).0, y + offset(j).1));
}

/// Position of an offset in the row-major order of the 3 x 3 window.
pub open spec fn window_code(dx: int, dy: int) -> int {
    (dx + 1) * 3 + (dy + 1)
}

/// `v` moved by `d` (one of -1, 0, 1), when the result stays below `limit`.
fn shift(v: usize, d: i8, limit: usize) -> (r: Option<usize>)
    requires
        -1 <= d <= 1,
        v < limit,
    ensures
        r == (if 0 <= (v as int) + (d as int) && (v as int) + (d as int) < (limit as int) {
            Some(((v as int) + (d as int)) as usize)
        } else {
            None::<usize>
        }),
{
    if d < 0 {
        if v == 0 {
            None
        } else {
            Some(v - 1)
        }
    } else if d == 0 {
        Some(v)
    } else if v + 1 < limit {
        Some(v + 1)
    } else {
        None
    }
}

fn offset_exec(k: usize) -> (r: (i8, i8))
    requires
        k < 8,
    ensures
        (r.0 as int, r.1 as int) == offset(k as int),
{
    if k == 0 {
        (-1, -1)
    } else if k == 1 {
        (-1, 0)
    } else if k == 2 {
        (-1, 1)
    } else if k == 3 {
        (0, -1)
    } else if k == 4 {
        (0, 1)
    } else if k == 5 {
        (1, -1)
    } else if k == 6 {
        (1, 0)
    } else {
        (1, 1)
    }
}

/// The Moore neighbourhood of `(x, y)` on a `width` x `height` grid: every
/// adjacent in-bounds position exactly once, and nothing else.
pub fn get_neighbour_coordinates(width: usize, height: usize, x: usize, y: usize) -> (r: Vec<(usize, usize)>)
    requires
        x < width,
        y < height,
    ensures
        r@ == neighbours(width as int, height as int, x as int, y as int),
        r@.no_duplicates(),
        r@.len() <= 8,
        forall|i: int|
            0 <= i < r@.len() ==> adjacent(
                width as int,
                height as int,
                x as int,
                y as int,
                (#[trigger] r@[i]).0 as int,
                r@[i].1 as int,
            ),
        forall|nx: int, ny: int|
            adjacent(width as int, height as int, x as int, y as int, nx, ny) ==> r@.contains(
                (nx as usize, ny as usize),
            ),
{
    let ghost w = width as int;
    let ghost h = height as int;
    let mut r: Vec<(usize, usize)> = Vec::new();
    let mut k: usize = 0;
    while k < 8
        invariant
            w == width as int,
            h == height as int,
            x < width,
            y < height,
            k <= 8,
            r@ == neighbours_upto(w, h, x as int, y as int, k as int),
            r@.len() <= k,
            forall|i: int|
                0 <= i < r@.len() ==> adjacent(
                    w,
                    h,
                    x as int,
                    y as int,
                    (#[trigger] r@[i]).0 as int,
                    r@[i].1 as int,
                ),
            forall|i: int|
                0 <= i < r@.len() ==> window_code(
                    (#[trigger] r@[i]).0 - x,
                    r@[i].1 - y,
                ) < window_code(offset(k as int).0, offset(k as int).1) || k == 8,
            forall|i: int, j: int|
                0 <= i < j < r@.len() ==> window_code(
                    (#[trigger] r@[i]).0 - x,
                    r@[i].1 - y,
                ) < window_code((#[trigger] r@[j]).0 - x, r@[j].1 - y),
            forall|j: int|
                0 <= j < k && #[trigger] in_bounds(w, h, x + offset(j).0, y + offset(j).1)
                    ==> r@.contains(((x + offset(j).0) as usize, (y + offset(j).1) as usize)),
        decreases 8 - k,
    {
        let d = offset_exec(k);
        let nx = shift(x, d.0, width);
        let ny = shift(y, d.1, height);
        let ghost prev = r@;
        if let Some(px) = nx {
            if let Some(py) = ny {
                r.push((px, py));
                assert(r@[prev.len() as int] == (px, py));
                assert forall|j: int|
                    0 <= j < k + 1 && #[trigger] in_bounds(w, h, x + offset(j).0, y + offset(j).1)
                        implies r@.contains(((x + offset(j).0) as usize, (y + offset(j).1) as usize)) by {
                    if j < k {
                        let q = ((x + offset(j).0) as usize, (y + offset(j).1) as usize);
                        assert(prev.contains(q));
                        let i = choose|i: int| 0 <= i < prev.len() && prev[i] == q;
                        assert(r@[i] == q);
                    }
                }
            }
        }
        assert(r@ =~= neighbours_upto(w, h, x as int, y as int, k + 1));
        k = k + 1;
    }
    assert forall|nx: int, ny: int|
        adjacent(w, h, x as int, y as int, nx, ny) implies r@.contains((nx as usize, ny as usize)) by {
        let j: int = if nx - x == -1 {
            if ny - y == -1 { 0 } else if ny - y == 0 { 1 } else { 2 }
        } else if nx - x == 0 {
            if ny - y == -1 { 3 } else { 4 }
        } else {
            if ny - y == -1 { 5 } else if ny - y == 0 { 6 } else { 7 }
        };
        assert(in_bounds(w, h, x + offset(j).0, y + offset(j).1));
    }
    assert forall|i: int, j: int| 0 <= i < r@.len() && 0 <= j < r@.len() && i != j implies r@[i] != r@[j] by {
        if i < j {
            assert(window_code(r@[i].0 - x, r@[i].1 - y) < window_code(r@[j].0 - x, r@[j].1 - y));
        } else {
            assert(window_code(r@[j].0 - x, r@[j].1 - y) < window_code(r@[i].0 - x, r@[i].1 - y));
        }
    }
    r
}

/// A `width` x `height` grid of values, stored row by row.
pub struct Grid<T> {
    pub width: usize,
    pub height: usize,
    pub cells: Vec<T>,
}

impl<T: Copy> Grid<T> {
    /// The backing vector holds exactly one value per position.
    pub open spec fn wf(&self) -> bool {
        self.cells@.len() == self.width * self.height
    }

    /// The value at `(x, y)`.
    pub open spec fn at(&self, x: int, y: int) -> T {
        self.cells@[index_of(self.width as int, x, y)]
    }

    pub open spec fn contains_pos(&self, x: int, y: int) -> bool {
        in_bounds(self.width as int, self.height as int, x, y)
    }

    /// A grid with every position holding `fill`.
    pub fn new(width: usize, height: usize, fill: T) -> (r: Self)
        requires
            width * height <= usize::MAX,
        ensures
            r.wf(),
            r.width == width,
            r.height == height,
            forall|i: int| 0 <= i < r.cells@.len() ==> r.cells@[i] == fill,
            forall|x: int, y: int| r.contains_pos(x, y) ==> #[trigger] r.at(x, y) == fill,
    {
        let n: usize = width * height;
        let mut cells: Vec<T> = Vec::new();
        let mut i: usize = 0;
        while i < n
            invariant
                i <= n,
                cells@.len() == i,
                forall|j: int| 0 <= j < i ==> cells@[j] == fill,
            decreases n - i,
        {
            cells.push(fill);
            i = i + 1;
        }
        let r = Grid { width, height, cells };
        assert forall|x: int, y: int| r.contains_pos(x, y) implies #[trigger] r.at(x, y) == fill by {
            lemma_index_in_bounds(width as int, height as int, x, y);
        }
        r
    }

    pub fn get(&self, x: usize, y: usize) -> (r: T)
        requires
            self.wf(),
            x < self.width,
            y < self.height,
        ensures
            r == self.at(x as int, y as int),
    {
        let len = self.cells.len();
        proof {
            lemma_index_in_bounds(self.width as int, self.height as int, x as int, y as int);
            assert(y * self.width <= y * self.width + x < len);
        }
        self.cells[y * self.width + x]
    }

    pub fn set(&mut self, x: usize, y: usize, v: T)
        requires
            old(self).wf(),
            x < old(self).width,
            y < old(self).height,
        ensures
            final(self).wf(),
            final(self).width == old(self).width,
            final(self).height == old(self).height,
            final(self).cells@ == old(self).cells@.update(
                index_of(old(self).width as int, x as int, y as int),
                v,
            ),
            forall|xx: int, yy: int|
                final(self).contains_pos(xx, yy) ==> #[trigger] final(self).at(xx, yy) == if xx
                    == x && yy == y {
                    v
                } else {
                    old(self).at(xx, yy)
                },
    {
        let len = self.cells.len();
        proof {
            lemma_index_in_bounds(self.width as int, self.height as int, x as int, y as int);
            assert(y * self.width <= y * self.width + x < len);
        }
        let i = y * self.width + x;
        self.cells.set(i, v);
        proof {
            assert forall|xx: int, yy: int|
                self.contains_pos(xx, yy) implies #[trigger] self.at(xx, yy) == if xx == x && yy
                    == y {
                    v
                } else {
                    old(self).at(xx, yy)
                } by {
                lemma_index_in_bounds(self.width as int, self.height as int, xx, yy);
                if !(xx == x && yy == y) {
                    if index_of(self.width as int, xx, yy) == i {
                        lemma_index_injective(self.width as int, xx, yy, x as int, y as int);
                    }
                }
            }
        }
    }

    /// A copy of the grid.
    pub fn copy(&self) -> (r: Self)
        requires
            self.wf(),
        ensures
            r.wf(),
            r.width == self.width,
            r.height == self.height,
            r.cells@ == self.cells@,
    {
        let mut cells: Vec<T> = Vec::new();
        let mut i: usize = 0;
        while i < self.cells.len()
            invariant
                i <= self.cells@.len(),
                cells@ == self.cells@.take(i as int),
            decreases self.cells@.len() - i,
        {
            cells.push(self.cells[i]);
            i = i + 1;
            assert(cells@ =~= self.cells@.take(i as int));
        }
        assert(cells@ =~= self.cells@);
        Grid { width: self.width, height: self.height, cells }
    }
}

/// Two grids of one shape that agree at every position are equal.
pub proof fn lemma_grid_ext<T: Copy>(a: Grid<T>, b: Grid<T>)
    requires
        a.wf(),
        b.wf(),
        a.width == b.width,
        a.height == b.height,
        forall|x: int, y: int| a.contains_pos(x, y) ==> #[trigger] a.at(x, y) == b.at(x, y),
    ensures
        a.cells@ == b.cells@,
{
    assert forall|i: int| 0 <= i < a.cells@.len() implies a.cells@[i] == b.cells@[i] by {
        lemma_index_onto(a.width as int, a.height as int, i);
        assert(a.at(i % (a.width as int), i / (a.width as int)) == b.at(i % (a.width as int), i / (a.width as int)));
    }
    assert(a.cells@ =~= b.cells@);
}

} // verus!
