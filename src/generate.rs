//! Building the real board: placing mines and labelling the other cells.
use vstd::prelude::*;

use crate::board::{
    count_around, count_cells, count_neighbours, is_real_board, is_real_cell, lemma_count_at_same,
    number_cell, tallies, Board, Cell, Tally,
};
use crate::chance::random_below;
use crate::grid::{before, in_bounds, index_of, lemma_neighbours_in_bounds, neighbours, Grid};

verus! {

/// Cells of one length that agree on what `t` counts have equal tallies.
pub proof fn lemma_count_cells_same(a: Seq<Cell>, b: Seq<Cell>, t: Tally)
    requires
        a.len() == b.len(),
        forall|i: int| 0 <= i < a.len() ==> tallies(t, #[trigger] a[i]) == tallies(t, b[i]),
    ensures
        count_cells(a, t) == count_cells(b, t),
    decreases a.len(),
{
    if a.len() > 0 {
        lemma_count_cells_same(a.drop_last(), b.drop_last(), t);
    }
}

/// With no counted cell the tally is zero.
pub proof fn lemma_count_cells_none(s: Seq<Cell>, t: Tally)
    requires
        forall|i: int| 0 <= i < s.len() ==> !tallies(t, #[trigger] s[i]),
    ensures
        count_cells(s, t) == 0,
    decreases s.len(),
{
    if s.len() > 0 {
        lemma_count_cells_none(s.drop_last(), t);
    }
}

/// Turning one uncounted cell into a counted one adds one to the tally.
pub proof fn lemma_count_cells_update(s: Seq<Cell>, i: int, c: Cell, t: Tally)
    requires
        0 <= i < s.len(),
        !tallies(t, s[i]),
        tallies(t, c),
    ensures
        count_cells(s.update(i, c), t) == count_cells(s, t) + 1,
    decreases s.len(),
{
    let u = s.update(i, c);
    if i < s.len() - 1 {
        assert(u.drop_last() =~= s.drop_last().update(i, c));
        lemma_count_cells_update(s.drop_last(), i, c, t);
    } else {
        assert(u.drop_last() =~= s.drop_last());
    }
}

/// Labels every non-mine cell of `placed` with its count of adjacent mines.
pub fn label_board(placed: &Board) -> (r: Board)
    requires
        placed.wf(),
        forall|x: int, y: int|
            placed.contains_pos(x, y) ==> #[trigger] placed.at(x, y) == Cell::Mine || placed.at(x, y)
                == Cell::Empty,
    ensures
        is_real_board(r),
        r.width == placed.width,
        r.height == placed.height,
        forall|x: int, y: int|
            #![trigger r.at(x, y)]
            placed.contains_pos(x, y) ==> (r.at(x, y) == Cell::Mine) == (placed.at(x, y) == Cell::Mine),
        count_cells(r.cells@, Tally::Mines) == count_cells(placed.cells@, Tally::Mines),
{
    let mut res = placed.copy();
    let mut y: usize = 0;
    while y < placed.height
        invariant
            placed.wf(),
            res.wf(),
            res.width == placed.width,
            res.height == placed.height,
            y <= placed.height,
            forall|qx: int, qy: int|
                #![trigger res.at(qx, qy)]
                placed.contains_pos(qx, qy) ==> res.at(qx, qy) == if qy < y && placed.at(qx, qy)
                    != Cell::Mine {
                    number_cell(count_around(*placed, qx, qy, Tally::Mines))
                } else {
                    placed.at(qx, qy)
                },
            forall|qx: int, qy: int|
                placed.contains_pos(qx, qy) && qy < y && placed.at(qx, qy) != Cell::Mine
                    ==> count_around(*placed, qx, qy, Tally::Mines) <= 8,
            forall|qx: int, qy: int|
                placed.contains_pos(qx, qy) ==> #[trigger] placed.at(qx, qy) == Cell::Mine || placed.at(qx, qy)
                    == Cell::Empty,
        decreases placed.height - y,
    {
        let mut x: usize = 0;
        while x < placed.width
            invariant
                placed.wf(),
                res.wf(),
                res.width == placed.width,
                res.height == placed.height,
                y < placed.height,
                x <= placed.width,
                forall|qx: int, qy: int|
                    #![trigger res.at(qx, qy)]
                    placed.contains_pos(qx, qy) ==> res.at(qx, qy) == if before(qx, qy, x as int, y as int)
                        && placed.at(qx, qy) != Cell::Mine {
                        number_cell(count_around(*placed, qx, qy, Tally::Mines))
                    } else {
                        placed.at(qx, qy)
                    },
                forall|qx: int, qy: int|
                    placed.contains_pos(qx, qy) && before(qx, qy, x as int, y as int) && placed.at(qx, qy)
                        != Cell::Mine ==> count_around(*placed, qx, qy, Tally::Mines) <= 8,
                forall|qx: int, qy: int|
                    placed.contains_pos(qx, qy) ==> #[trigger] placed.at(qx, qy) == Cell::Mine || placed.at(qx, qy)
                        == Cell::Empty,
            decreases placed.width - x,
        {
            if placed.get(x, y) != Cell::Mine {
                let n = count_neighbours(placed, x, y);
                if n > 0 {
                    res.set(x, y, Cell::Number(n));
                }
            }
            x = x + 1;
        }
        y = y + 1;
    }
    proof {
        let w = placed.width as int;
        let h = placed.height as int;
        assert forall|x: int, y: int| #![trigger res.at(x, y)] res.contains_pos(x, y) implies is_real_cell(res.at(x, y))
            && (res.at(x, y) != Cell::Mine ==> res.at(x, y) == number_cell(
            count_around(res, x, y, Tally::Mines),
        )) by {
            let s = neighbours(w, h, x, y);
            lemma_neighbours_in_bounds(w, h, x, y, 8);
            assert forall|i: int| 0 <= i < s.len() implies tallies(
                Tally::Mines,
                res.at((#[trigger] s[i]).0 as int, s[i].1 as int),
            ) == tallies(Tally::Mines, placed.at(s[i].0 as int, s[i].1 as int)) by {
                assert(in_bounds(w, h, s[i].0 as int, s[i].1 as int));
            }
            lemma_count_at_same(res, *placed, s, Tally::Mines);
        }
        assert forall|i: int| 0 <= i < res.cells@.len() implies tallies(Tally::Mines, #[trigger] res.cells@[i])
            == tallies(Tally::Mines, placed.cells@[i]) by {
            assert(w > 0) by (nonlinear_arith)
                requires
                    0 <= i < w * h,
                    h >= 0,
            ;
            crate::grid::lemma_index_onto(w, h, i);
            assert(res.at(i % w, i / w) == res.cells@[i]);
        }
        lemma_count_cells_same(res.cells@, placed.cells@, Tally::Mines);
    }
    res
}

/// The positions outside row `py` and column `px`, in row-major order.
fn eligible_positions(width: usize, height: usize, px: usize, py: usize) -> (r: Vec<(usize, usize)>)
    requires
        px < width,
        py < height,
        width * height <= usize::MAX,
    ensures
        r@.len() == (width - 1) * (height - 1),
        r@.no_duplicates(),
        forall|i: int|
            0 <= i < r@.len() ==> in_bounds(width as int, height as int, (#[trigger] r@[i]).0 as int, r@[i].1 as int)
                && r@[i].0 != px && r@[i].1 != py,
{
    let mut r: Vec<(usize, usize)> = Vec::new();
    let mut y: usize = 0;
    while y < height
        invariant
            px < width,
            py < height,
            y <= height,
            width * height <= usize::MAX,
            r@.len() == (y - (if py < y { 1int } else { 0int })) * (width - 1),
            r@.no_duplicates(),
            forall|i: int|
                0 <= i < r@.len() ==> in_bounds(width as int, height as int, (#[trigger] r@[i]).0 as int, r@[i].1 as int)
                    && r@[i].0 != px && r@[i].1 != py && r@[i].1 < y,
        decreases height - y,
    {
        if y != py {
            let ghost rows = y - (if py < y { 1int } else { 0int });
            let mut x: usize = 0;
            while x < width
                invariant
                    px < width,
                    py < height,
                    y < height,
                    y != py,
                    x <= width,
                    rows == y - (if py < y { 1int } else { 0int }),
                    0 <= rows <= y,
                    width * height <= usize::MAX,
                    r@.len() == rows * (width - 1) + x - (if px < x { 1int } else { 0int }),
                    r@.no_duplicates(),
                    forall|i: int|
                        0 <= i < r@.len() ==> in_bounds(
                            width as int,
                            height as int,
                            (#[trigger] r@[i]).0 as int,
                            r@[i].1 as int,
                        ) && r@[i].0 != px && r@[i].1 != py && before(r@[i].0 as int, r@[i].1 as int, x as int, y as int),
                decreases width - x,
            {
                if x != px {
                    proof {
                        assert(rows * (width - 1) + x <= width * height) by (nonlinear_arith)
                            requires
                                0 <= rows < height,
                                x < width,
                        ;
                    }
                    let ghost old_r = r@;
                    r.push((x, y));
                    proof {
                        assert(r@[old_r.len() as int] == (x, y));
                        assert forall|i: int| 0 <= i < old_r.len() implies #[trigger] r@[i] == old_r[i] by {}
                        assert forall|i: int, j: int| 0 <= i < r@.len() && 0 <= j < r@.len() && i != j implies r@[i] != r@[j] by {
                            if i < old_r.len() && j < old_r.len() {
                                assert(old_r[i] != old_r[j]);
                            }
                        }
                    }
                }
                x = x + 1;
            }
            proof {
                assert(rows * (width - 1) + (width - 1) == (rows + 1) * (width - 1)) by (nonlinear_arith);
            }
        }
        y = y + 1;
    }
    assert((height - 1) * (width - 1) == (width - 1) * (height - 1)) by (nonlinear_arith);
    r
}

/// Places `mine_count` mines uniformly at random outside the row and the
/// column of `(player_x, player_y)`, then labels the other cells. There are
/// `(width - 1) * (height - 1)` such positions; with fewer than `mine_count`
/// of them nothing is placed and the result is `None`.
pub fn create_board(
    width: usize,
    height: usize,
    player_x: usize,
    player_y: usize,
    mine_count: usize,
) -> (r: Option<Board>)
    requires
        player_x < width,
        player_y < height,
        width * height <= usize::MAX,
    ensures
        r is None <==> mine_count > (width - 1) * (height - 1),
        r matches Some(b) ==> {
            &&& is_real_board(b)
            &&& b.width == width
            &&& b.height == height
            &&& count_cells(b.cells@, Tally::Mines) == mine_count
            &&& forall|x: int, y: int|
                #![trigger b.at(x, y)]
                b.contains_pos(x, y) && b.at(x, y) == Cell::Mine ==> x != player_x && y != player_y
        },
{
    let mut candidates = eligible_positions(width, height, player_x, player_y);
    if mine_count > candidates.len() {
        return None;
    }
    let mut placed: Board = Grid::new(width, height, Cell::Empty);
    proof {
        lemma_count_cells_none(placed.cells@, Tally::Mines);
    }
    let mut i: usize = 0;
    while i < mine_count
        invariant
            i <= mine_count,
            mine_count <= i + candidates@.len(),
            placed.wf(),
            placed.width == width,
            placed.height == height,
            count_cells(placed.cells@, Tally::Mines) == i,
            candidates@.no_duplicates(),
            forall|j: int|
                0 <= j < candidates@.len() ==> in_bounds(
                    width as int,
                    height as int,
                    (#[trigger] candidates@[j]).0 as int,
                    candidates@[j].1 as int,
                ) && placed.at(candidates@[j].0 as int, candidates@[j].1 as int) == Cell::Empty,
            forall|x: int, y: int|
                #![trigger placed.at(x, y)]
                placed.contains_pos(x, y) ==> placed.at(x, y) == Cell::Mine || placed.at(x, y) == Cell::Empty,
            forall|x: int, y: int|
                #![trigger placed.at(x, y)]
                placed.contains_pos(x, y) && placed.at(x, y) == Cell::Mine ==> x != player_x && y != player_y,
            forall|j: int|
                0 <= j < candidates@.len() ==> (#[trigger] candidates@[j]).0 != player_x && candidates@[j].1
                    != player_y,
        decreases mine_count - i,
    {
        let k = random_below(candidates.len());
        let ghost before_c = candidates@;
        let (mx, my) = candidates.remove(k);
        let ghost prev = placed;
        proof {
            crate::grid::lemma_index_in_bounds(width as int, height as int, mx as int, my as int);
            lemma_count_cells_update(
                prev.cells@,
                index_of(width as int, mx as int, my as int),
                Cell::Mine,
                Tally::Mines,
            );
        }
        placed.set(mx, my, Cell::Mine);
        proof {
            assert forall|j: int| 0 <= j < candidates@.len() implies #[trigger] candidates@[j] == if j < k {
                before_c[j]
            } else {
                before_c[j + 1]
            } by {}
            assert forall|a: int, b: int|
                0 <= a < candidates@.len() && 0 <= b < candidates@.len() && a != b implies candidates@[a]
                    != candidates@[b] by {
                let a1 = if a < k { a } else { a + 1 };
                let b1 = if b < k { b } else { b + 1 };
                assert(before_c[a1] != before_c[b1]);
            }
            assert forall|j: int| 0 <= j < candidates@.len() implies in_bounds(
                width as int,
                height as int,
                (#[trigger] candidates@[j]).0 as int,
                candidates@[j].1 as int,
            ) && placed.at(candidates@[j].0 as int, candidates@[j].1 as int) == Cell::Empty by {
                let j1 = if j < k { j } else { j + 1 };
                assert(before_c[j1] != before_c[k as int]);
                assert(prev.at(before_c[j1].0 as int, before_c[j1].1 as int) == Cell::Empty);
            }
        }
        i = i + 1;
    }
    let b = label_board(&placed);
    Some(b)
}

/// A real board with mines exactly at the given positions.
pub fn board_from_mines(width: usize, height: usize, mines: &Vec<(usize, usize)>) -> (r: Board)
    requires
        width * height <= usize::MAX,
        forall|i: int| 0 <= i < mines@.len() ==> (#[trigger] mines@[i]).0 < width && mines@[i].1 < height,
    ensures
        is_real_board(r),
        r.width == width,
        r.height == height,
        forall|x: int, y: int|
            #![trigger r.at(x, y)]
            r.contains_pos(x, y) ==> (r.at(x, y) == Cell::Mine <==> mines@.contains((x as usize, y as usize))),
{
    let mut placed: Board = Grid::new(width, height, Cell::Empty);
    let mut i: usize = 0;
    while i < mines.len()
        invariant
            i <= mines@.len(),
            placed.wf(),
            placed.width == width,
            placed.height == height,
            forall|j: int| 0 <= j < mines@.len() ==> (#[trigger] mines@[j]).0 < width && mines@[j].1 < height,
            forall|x: int, y: int|
                #![trigger placed.at(x, y)]
                placed.contains_pos(x, y) ==> (placed.at(x, y) == Cell::Mine <==> mines@.take(i as int).contains(
                    (x as usize, y as usize),
                )) && (placed.at(x, y) == Cell::Mine || placed.at(x, y) == Cell::Empty),
        decreases mines@.len() - i,
    {
        let (mx, my) = mines[i];
        placed.set(mx, my, Cell::Mine);
        proof {
            let t0 = mines@.take(i as int);
            let t1 = mines@.take(i + 1);
            assert(t1 =~= t0.push((mx, my)));
            assert forall|x: int, y: int|
                #![trigger placed.at(x, y)]
                placed.contains_pos(x, y) implies (placed.at(x, y) == Cell::Mine <==> t1.contains(
                    (x as usize, y as usize),
                )) by {
                if t0.contains((x as usize, y as usize)) {
                    let j = choose|j: int| 0 <= j < t0.len() && t0[j] == (x as usize, y as usize);
                    assert(t1[j] == t0[j]);
                }
                if t1.contains((x as usize, y as usize)) && !(x == mx && y == my) {
                    let j = choose|j: int| 0 <= j < t1.len() && t1[j] == (x as usize, y as usize);
                    assert(j < t0.len());
                    assert(t0[j] == t1[j]);
                }
                if x == mx && y == my {
                    assert(t1[t0.len() as int] == (mx, my));
                }
            }
        }
        i = i + 1;
    }
    assert(mines@.take(mines@.len() as int) =~= mines@);
    label_board(&placed)
}

} // verus!
