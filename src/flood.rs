//! Opening a cell, cascading through connected empty regions.
use vstd::prelude::*;

use crate::board::{is_real_board, is_real_cell, lemma_empty_has_no_mine_around, Board, Cell};
use crate::grid::{adjacent, get_neighbour_coordinates, in_bounds, index_of, Grid};

verus! {

/// Whether `(x, y)` is marked in the row-major visited sequence `v`.
pub open spec fn vis(v: Seq<bool>, w: int, x: int, y: int) -> bool {
    v[index_of(w, x, y)]
}

/// Marked in `v1` but not in `v0`.
pub open spec fn newly(v0: Seq<bool>, v1: Seq<bool>, w: int, x: int, y: int) -> bool {
    vis(v1, w, x, y) && !vis(v0, w, x, y)
}

/// Every neighbour of an empty newly visited cell is visited.
pub open spec fn closed_at(truth: Board, v0: Seq<bool>, v1: Seq<bool>, x: int, y: int) -> bool {
    let w = truth.width as int;
    let h = truth.height as int;
    newly(v0, v1, w, x, y) && truth.at(x, y) == Cell::Empty ==> forall|px: int, py: int|
        adjacent(w, h, x, y, px, py) ==> #[trigger] vis(v1, w, px, py)
}

/// A newly visited cell was reached from a newly visited empty neighbour.
pub open spec fn supported(truth: Board, v0: Seq<bool>, v1: Seq<bool>, x: int, y: int) -> bool {
    let w = truth.width as int;
    let h = truth.height as int;
    exists|px: int, py: int|
        adjacent(w, h, x, y, px, py) && #[trigger] newly(v0, v1, w, px, py) && truth.at(px, py)
            == Cell::Empty
}

/// What opening `(x, y)` does: from player board `p0` and visited marks `v0`
/// to `p1` and `v1`. The newly visited cells take their real content and no
/// other cell changes; the start is visited unless it was out of bounds or
/// visited already, in which case nothing happens; the neighbours of every
/// newly visited empty cell are visited; every newly visited cell lies at the
/// end of an empty path from the start; and every one but the start has a
/// newly visited empty neighbour.
pub open spec fn reveal_spec(
    truth: Board,
    p0: Board,
    v0: Seq<bool>,
    p1: Board,
    v1: Seq<bool>,
    x: int,
    y: int,
) -> bool {
    let w = truth.width as int;
    let h = truth.height as int;
    &&& p1.wf()
    &&& p1.width == p0.width
    &&& p1.height == p0.height
    &&& v1.len() == v0.len()
    &&& forall|qx: int, qy: int|
        #![trigger vis(v1, w, qx, qy)]
        in_bounds(w, h, qx, qy) && vis(v0, w, qx, qy) ==> vis(v1, w, qx, qy)
    &&& forall|qx: int, qy: int|
        #![trigger p1.at(qx, qy)]
        in_bounds(w, h, qx, qy) ==> p1.at(qx, qy) == if newly(v0, v1, w, qx, qy) {
            truth.at(qx, qy)
        } else {
            p0.at(qx, qy)
        }
    &&& in_bounds(w, h, x, y) && !vis(v0, w, x, y) ==> newly(v0, v1, w, x, y)
    &&& !(in_bounds(w, h, x, y) && !vis(v0, w, x, y)) ==> v1 == v0
    &&& forall|qx: int, qy: int|
        #![trigger newly(v0, v1, w, qx, qy)]
        in_bounds(w, h, qx, qy) ==> closed_at(truth, v0, v1, qx, qy)
    &&& forall|qx: int, qy: int|
        #![trigger newly(v0, v1, w, qx, qy)]
        in_bounds(w, h, qx, qy) && newly(v0, v1, w, qx, qy) ==> exists|path: Seq<(int, int)>|
            #[trigger] empty_path(truth, v0, x, y, path) && path.last() == (qx, qy)
    &&& forall|qx: int, qy: int|
        #![trigger newly(v0, v1, w, qx, qy)]
        in_bounds(w, h, qx, qy) && newly(v0, v1, w, qx, qy) && !(qx == x && qy == y) ==> supported(
            truth,
            v0,
            v1,
            qx,
            qy,
        )
}

/// How many positions of `v` are unmarked.
pub open spec fn count_unset(v: Seq<bool>) -> nat
    decreases v.len(),
{
    if v.len() == 0 {
        0
    } else {
        count_unset(v.drop_last()) + if v.last() {
            0nat
        } else {
            1nat
        }
    }
}

proof fn lemma_count_unset_mark(v: Seq<bool>, i: int)
    requires
        0 <= i < v.len(),
        !v[i],
    ensures
        count_unset(v.update(i, true)) + 1 == count_unset(v),
    decreases v.len(),
{
    let u = v.update(i, true);
    if i < v.len() - 1 {
        assert(u.drop_last() =~= v.drop_last().update(i, true));
        lemma_count_unset_mark(v.drop_last(), i);
    } else {
        assert(u.drop_last() =~= v.drop_last());
    }
}

/// Opens `(x, y)` on `player_board`: the cell takes its real content, and an
/// empty cell opens all its neighbours in turn, so that a connected empty
/// region opens together with its numbered border. `visited` keeps each cell
/// from being opened twice.
pub fn do_move(
    real_board: &Board,
    player_board: &mut Board,
    visited: &mut Grid<bool>,
    x: usize,
    y: usize,
)
    requires
        real_board.wf(),
        old(player_board).wf(),
        old(visited).wf(),
        old(player_board).width == real_board.width,
        old(player_board).height == real_board.height,
        old(visited).width == real_board.width,
        old(visited).height == real_board.height,
        forall|qx: int, qy: int|
            real_board.contains_pos(qx, qy) ==> is_real_cell(#[trigger] real_board.at(qx, qy)),
    ensures
        final(visited).wf(),
        final(visited).width == old(visited).width,
        final(visited).height == old(visited).height,
        reveal_spec(
            *real_board,
            *old(player_board),
            old(visited).cells@,
            *final(player_board),
            final(visited).cells@,
            x as int,
            y as int,
        ),
{
    let ghost w = real_board.width as int;
    let ghost h = real_board.height as int;
    let ghost p0 = *player_board;
    let ghost v0 = visited.cells@;
    if x >= real_board.width || y >= real_board.height || visited.get(x, y) {
        return;
    }
    visited.set(x, y, true);
    assert(visited.at(x as int, y as int));
    let ghost mut paths: Map<(int, int), Seq<(int, int)>> = Map::empty().insert(
        (x as int, y as int),
        seq![(x as int, y as int)],
    );
    let mut stack: Vec<(usize, usize)> = Vec::new();
    stack.push((x, y));
    assert(stack@[0] == (x, y));
    assert forall|qx: int, qy: int| in_bounds(w, h, qx, qy) implies (vis(v0, w, qx, qy) ==> vis(
        visited.cells@,
        w,
        qx,
        qy,
    )) && (newly(v0, visited.cells@, w, qx, qy) ==> qx == x && qy == y) by {
        assert(visited.at(qx, qy) == if qx == x && qy == y {
            true
        } else {
            v0[index_of(w, qx, qy)]
        });
    }
    while stack.len() > 0
        invariant
            w == real_board.width as int,
            h == real_board.height as int,
            real_board.wf(),
            player_board.wf(),
            visited.wf(),
            player_board.width == real_board.width,
            player_board.height == real_board.height,
            visited.width == real_board.width,
            visited.height == real_board.height,
            p0.wf(),
            p0.width == real_board.width,
            p0.height == real_board.height,
            v0.len() == visited.cells@.len(),
            x < w,
            y < h,
            !vis(v0, w, x as int, y as int),
            forall|qx: int, qy: int|
                real_board.contains_pos(qx, qy) ==> is_real_cell(#[trigger] real_board.at(qx, qy)),
            stack@.no_duplicates(),
            forall|i: int|
                0 <= i < stack@.len() ==> in_bounds(w, h, (#[trigger] stack@[i]).0 as int, stack@[i].1 as int)
                    && newly(v0, visited.cells@, w, stack@[i].0 as int, stack@[i].1 as int),
            vis(visited.cells@, w, x as int, y as int),
            forall|qx: int, qy: int|
                #![trigger vis(visited.cells@, w, qx, qy)]
                in_bounds(w, h, qx, qy) && vis(v0, w, qx, qy) ==> vis(visited.cells@, w, qx, qy),
            forall|qx: int, qy: int|
                #![trigger player_board.at(qx, qy)]
                in_bounds(w, h, qx, qy) ==> player_board.at(qx, qy) == if newly(
                    v0,
                    visited.cells@,
                    w,
                    qx,
                    qy,
                ) && !stack@.contains((qx as usize, qy as usize)) {
                    real_board.at(qx, qy)
                } else {
                    p0.at(qx, qy)
                },
            forall|qx: int, qy: int|
                #![trigger newly(v0, visited.cells@, w, qx, qy)]
                in_bounds(w, h, qx, qy) && !stack@.contains((qx as usize, qy as usize)) ==> closed_at(
                    *real_board,
                    v0,
                    visited.cells@,
                    qx,
                    qy,
                ),
            forall|qx: int, qy: int|
                #![trigger newly(v0, visited.cells@, w, qx, qy)]
                in_bounds(w, h, qx, qy) && newly(v0, visited.cells@, w, qx, qy) && !(qx == x && qy
                    == y) ==> supported(*real_board, v0, visited.cells@, qx, qy),
            forall|qx: int, qy: int|
                #![trigger newly(v0, visited.cells@, w, qx, qy)]
                in_bounds(w, h, qx, qy) && newly(v0, visited.cells@, w, qx, qy) ==> paths.dom().contains((qx, qy))
                    && empty_path(*real_board, v0, x as int, y as int, paths[(qx, qy)]) && paths[(qx, qy)].last()
                    == (qx, qy),
        decreases stack@.len() + 2 * count_unset(visited.cells@),
    {
        let (cx, cy) = stack[stack.len() - 1];
        let ghost before = stack@;
        stack.pop();
        proof {
            assert(stack@ =~= before.drop_last());
            assert(!stack@.contains((cx, cy))) by {
                if stack@.contains((cx, cy)) {
                    let i = choose|i: int| 0 <= i < stack@.len() && stack@[i] == (cx, cy);
                    assert(before[i] == before[before.len() - 1]);
                }
            }
            assert forall|qx: int, qy: int|
                #![trigger stack@.contains((qx as usize, qy as usize))]
                in_bounds(w, h, qx, qy) && before.contains((qx as usize, qy as usize)) && !(qx
                    == cx && qy == cy) implies stack@.contains((qx as usize, qy as usize)) by {
                let i = choose|i: int| 0 <= i < before.len() && before[i] == (qx as usize, qy as usize);
                assert(i != before.len() - 1);
                assert(stack@[i] == before[i]);
            }
            assert forall|i: int| 0 <= i < stack@.len() implies #[trigger] stack@[i] == before[i] by {}
        }
        let cell = real_board.get(cx, cy);
        player_board.set(cx, cy, cell);
        let ghost m = stack@.len() + 2 * count_unset(visited.cells@);
        if cell == Cell::Empty {
            let nb = get_neighbour_coordinates(real_board.width, real_board.height, cx, cy);
            let mut k: usize = 0;
            while k < nb.len()
                invariant
                    w == real_board.width as int,
                    h == real_board.height as int,
                    real_board.wf(),
                    player_board.wf(),
                    visited.wf(),
                    player_board.width == real_board.width,
                    player_board.height == real_board.height,
                    visited.width == real_board.width,
                    visited.height == real_board.height,
                    p0.wf(),
                    p0.width == real_board.width,
                    p0.height == real_board.height,
                    v0.len() == visited.cells@.len(),
                    x < w,
                    y < h,
                    cx < w,
                    cy < h,
                    !vis(v0, w, x as int, y as int),
                    real_board.at(cx as int, cy as int) == Cell::Empty,
                    newly(v0, visited.cells@, w, cx as int, cy as int),
                    !stack@.contains((cx, cy)),
                    k <= nb@.len(),
                    stack@.len() + 2 * count_unset(visited.cells@) <= m,
                    forall|i: int|
                        0 <= i < nb@.len() ==> adjacent(
                            w,
                            h,
                            cx as int,
                            cy as int,
                            (#[trigger] nb@[i]).0 as int,
                            nb@[i].1 as int,
                        ),
                    forall|i: int|
                        0 <= i < k ==> vis(
                            visited.cells@,
                            w,
                            (#[trigger] nb@[i]).0 as int,
                            nb@[i].1 as int,
                        ),
                    stack@.no_duplicates(),
                    forall|i: int|
                        0 <= i < stack@.len() ==> in_bounds(
                            w,
                            h,
                            (#[trigger] stack@[i]).0 as int,
                            stack@[i].1 as int,
                        ) && newly(v0, visited.cells@, w, stack@[i].0 as int, stack@[i].1 as int),
                    vis(visited.cells@, w, x as int, y as int),
                    forall|qx: int, qy: int|
                        #![trigger vis(visited.cells@, w, qx, qy)]
                        in_bounds(w, h, qx, qy) && vis(v0, w, qx, qy) ==> vis(visited.cells@, w, qx, qy),
                    forall|qx: int, qy: int|
                        #![trigger player_board.at(qx, qy)]
                        in_bounds(w, h, qx, qy) ==> player_board.at(qx, qy) == if newly(
                            v0,
                            visited.cells@,
                            w,
                            qx,
                            qy,
                        ) && !stack@.contains((qx as usize, qy as usize)) {
                            real_board.at(qx, qy)
                        } else {
                            p0.at(qx, qy)
                        },
                    forall|qx: int, qy: int|
                        #![trigger newly(v0, visited.cells@, w, qx, qy)]
                        in_bounds(w, h, qx, qy) && !stack@.contains((qx as usize, qy as usize)) && !(qx
                            == cx && qy == cy) ==> closed_at(*real_board, v0, visited.cells@, qx, qy),
                    forall|qx: int, qy: int|
                        #![trigger newly(v0, visited.cells@, w, qx, qy)]
                        in_bounds(w, h, qx, qy) && newly(v0, visited.cells@, w, qx, qy) && !(qx == x
                            && qy == y) ==> supported(*real_board, v0, visited.cells@, qx, qy),
                    forall|qx: int, qy: int|
                        #![trigger newly(v0, visited.cells@, w, qx, qy)]
                        in_bounds(w, h, qx, qy) && newly(v0, visited.cells@, w, qx, qy) ==> paths.dom().contains(
                            (qx, qy),
                        ) && empty_path(*real_board, v0, x as int, y as int, paths[(qx, qy)])
                            && paths[(qx, qy)].last() == (qx, qy),
                decreases nb@.len() - k,
            {
                let (nx, ny) = nb[k];
                if !visited.get(nx, ny) {
                    let ghost vb = visited.cells@;
                    let ghost sb = stack@;
                    visited.set(nx, ny, true);
                    stack.push((nx, ny));
                    let ghost pc = paths[(cx as int, cy as int)];
                    let ghost np = pc.push((nx as int, ny as int));
                    proof {
                        paths = paths.insert((nx as int, ny as int), np);
                        assert(newly(v0, vb, w, cx as int, cy as int));
                        assert(!vis(vb, w, nx as int, ny as int));
                        lemma_path_extend(*real_board, v0, x as int, y as int, pc, nx as int, ny as int);
                        assert(empty_path(*real_board, v0, x as int, y as int, np));
                        let wi = index_of(w, nx as int, ny as int);
                        crate::grid::lemma_index_in_bounds(w, h, nx as int, ny as int);
                        lemma_count_unset_mark(vb, wi);
                        crate::grid::lemma_index_in_bounds(w, h, cx as int, cy as int);
                        assert(visited.at(cx as int, cy as int) == vb[index_of(w, cx as int, cy as int)]);
                        assert forall|qx: int, qy: int|
                            #![trigger vis(visited.cells@, w, qx, qy)]
                            in_bounds(w, h, qx, qy) implies vis(visited.cells@, w, qx, qy) == (vis(vb, w, qx, qy) || (
                            qx == nx && qy == ny)) by {
                            crate::grid::lemma_index_in_bounds(w, h, qx, qy);
                            assert(visited.at(qx, qy) == if qx == nx && qy == ny {
                                true
                            } else {
                                vb[index_of(w, qx, qy)]
                            });
                        }
                        assert(!sb.contains((nx, ny))) by {
                            if sb.contains((nx, ny)) {
                                let i = choose|i: int| 0 <= i < sb.len() && sb[i] == (nx, ny);
                                assert(newly(v0, vb, w, sb[i].0 as int, sb[i].1 as int));
                            }
                        }
                        assert forall|i: int| 0 <= i < sb.len() implies #[trigger] stack@[i] == sb[i] by {}
                        assert(stack@[sb.len() as int] == (nx, ny));
                        assert(!vis(v0, w, nx as int, ny as int)) by {
                            assert(!vis(vb, w, nx as int, ny as int));
                        }
                        assert forall|i: int| 0 <= i < stack@.len() implies in_bounds(
                            w,
                            h,
                            (#[trigger] stack@[i]).0 as int,
                            stack@[i].1 as int,
                        ) && newly(v0, visited.cells@, w, stack@[i].0 as int, stack@[i].1 as int) by {
                            if i < sb.len() {
                                assert(newly(v0, vb, w, sb[i].0 as int, sb[i].1 as int));
                            }
                        }
                        assert forall|qx: int, qy: int|
                            #![trigger stack@.contains((qx as usize, qy as usize))]
                            in_bounds(w, h, qx, qy) implies stack@.contains((qx as usize, qy as usize))
                                == (sb.contains((qx as usize, qy as usize)) || (qx == nx && qy == ny)) by {
                            if sb.contains((qx as usize, qy as usize)) {
                                let i = choose|i: int| 0 <= i < sb.len() && sb[i] == (qx as usize, qy as usize);
                                assert(stack@[i] == sb[i]);
                            }
                            if stack@.contains((qx as usize, qy as usize)) && !(qx == nx && qy == ny) {
                                let i = choose|i: int| 0 <= i < stack@.len() && stack@[i] == (qx as usize, qy as usize);
                                assert(sb[i] == stack@[i]);
                            }
                        }
                        assert forall|qx: int, qy: int|
                            #![trigger newly(v0, visited.cells@, w, qx, qy)]
                            in_bounds(w, h, qx, qy) && !stack@.contains((qx as usize, qy as usize)) && !(qx
                                == cx && qy == cy) implies closed_at(*real_board, v0, visited.cells@, qx, qy) by {
                            if newly(v0, visited.cells@, w, qx, qy) && real_board.at(qx, qy) == Cell::Empty {
                                assert(!(qx == nx && qy == ny));
                                assert(!sb.contains((qx as usize, qy as usize)));
                                assert(newly(v0, vb, w, qx, qy));
                                assert(closed_at(*real_board, v0, vb, qx, qy));
                                assert forall|px: int, py: int|
                                    adjacent(w, h, qx, qy, px, py) implies #[trigger] vis(visited.cells@, w, px, py) by {
                                    assert(vis(vb, w, px, py));
                                }
                            }
                        }
                        assert forall|qx: int, qy: int|
                            #![trigger newly(v0, visited.cells@, w, qx, qy)]
                            in_bounds(w, h, qx, qy) && newly(v0, visited.cells@, w, qx, qy) && !(qx
                                == x && qy == y) implies supported(*real_board, v0, visited.cells@, qx, qy) by {
                            if qx == nx && qy == ny {
                                assert(newly(v0, visited.cells@, w, cx as int, cy as int));
                            } else {
                                crate::grid::lemma_index_in_bounds(w, h, qx, qy);
                                assert(visited.at(qx, qy) == vb[index_of(w, qx, qy)]);
                                assert(newly(v0, vb, w, qx, qy));
                                let (px, py) = choose|px: int, py: int|
                                    adjacent(w, h, qx, qy, px, py) && #[trigger] newly(v0, vb, w, px, py)
                                        && real_board.at(px, py) == Cell::Empty;
                                crate::grid::lemma_index_in_bounds(w, h, px, py);
                                assert(visited.at(px, py));
                                assert(newly(v0, visited.cells@, w, px, py));
                            }
                        }
                    }
                }
                k = k + 1;
            }
            proof {
                assert forall|px: int, py: int|
                    adjacent(w, h, cx as int, cy as int, px, py) implies #[trigger] vis(
                        visited.cells@,
                        w,
                        px,
                        py,
                    ) by {
                    assert(nb@.contains((px as usize, py as usize)));
                    let i = choose|i: int| 0 <= i < nb@.len() && nb@[i] == (px as usize, py as usize);
                    assert(vis(visited.cells@, w, nb@[i].0 as int, nb@[i].1 as int));
                }
            }
        }
    }
}

/// `path` leads from `(x, y)` through cells not visited in `v0`, each step
/// between adjacent cells, every cell but the last one empty.
pub open spec fn empty_path(truth: Board, v0: Seq<bool>, x: int, y: int, path: Seq<(int, int)>) -> bool {
    let w = truth.width as int;
    let h = truth.height as int;
    &&& path.len() >= 1
    &&& path[0] == (x, y)
    &&& forall|i: int|
        0 <= i < path.len() ==> in_bounds(w, h, (#[trigger] path[i]).0, path[i].1) && !vis(
            v0,
            w,
            path[i].0,
            path[i].1,
        )
    &&& forall|i: int|
        0 <= i < path.len() - 1 ==> truth.at((#[trigger] path[i]).0, path[i].1) == Cell::Empty
            && adjacent(w, h, path[i].0, path[i].1, path[i + 1].0, path[i + 1].1)
}

proof fn lemma_path_extend(
    truth: Board,
    v0: Seq<bool>,
    x: int,
    y: int,
    pc: Seq<(int, int)>,
    nx: int,
    ny: int,
)
    requires
        empty_path(truth, v0, x, y, pc),
        truth.at(pc.last().0, pc.last().1) == Cell::Empty,
        adjacent(truth.width as int, truth.height as int, pc.last().0, pc.last().1, nx, ny),
        !vis(v0, truth.width as int, nx, ny),
    ensures
        empty_path(truth, v0, x, y, pc.push((nx, ny))),
{
    let w = truth.width as int;
    let h = truth.height as int;
    let np = pc.push((nx, ny));
    assert forall|i: int| 0 <= i < np.len() implies in_bounds(w, h, (#[trigger] np[i]).0, np[i].1) && !vis(
        v0,
        w,
        np[i].0,
        np[i].1,
    ) by {
        if i < pc.len() {
            assert(np[i] == pc[i]);
        }
    }
    assert forall|i: int| 0 <= i < np.len() - 1 implies truth.at((#[trigger] np[i]).0, np[i].1)
        == Cell::Empty && adjacent(w, h, np[i].0, np[i].1, np[i + 1].0, np[i + 1].1) by {
        assert(np[i] == pc[i]);
        if i < pc.len() - 1 {
            assert(np[i + 1] == pc[i + 1]);
        } else {
            assert(pc.last() == pc[i]);
        }
    }
}

/// The visited marks of a fresh opening: nothing visited.
pub open spec fn fresh_marks(b: Board) -> Seq<bool> {
    Seq::new((b.width * b.height) as nat, |i: int| false)
}

/// An empty path from `(sx, sy)`, over cells none of which was visited
/// before, leads to `(qx, qy)`: opening `(sx, sy)` with fresh visited marks
/// opens `(qx, qy)`.
pub open spec fn region_of(truth: Board, sx: int, sy: int, qx: int, qy: int) -> bool {
    exists|path: Seq<(int, int)>|
        #[trigger] empty_path(truth, fresh_marks(truth), sx, sy, path)
            && path.last() == (qx, qy)
}

/// Opening a cell opens every cell that an empty path leads to: the whole
/// connected empty region and its border.
pub proof fn lemma_flood_covers_region(
    truth: Board,
    p0: Board,
    v0: Seq<bool>,
    p1: Board,
    v1: Seq<bool>,
    x: int,
    y: int,
    path: Seq<(int, int)>,
)
    requires
        reveal_spec(truth, p0, v0, p1, v1, x, y),
        empty_path(truth, v0, x, y, path),
    ensures
        newly(v0, v1, truth.width as int, path.last().0, path.last().1),
        p1.at(path.last().0, path.last().1) == truth.at(path.last().0, path.last().1),
    decreases path.len(),
{
    let w = truth.width as int;
    let h = truth.height as int;
    if path.len() > 1 {
        let prefix = path.drop_last();
        assert forall|i: int| 0 <= i < prefix.len() - 1 implies truth.at((#[trigger] prefix[i]).0, prefix[i].1)
            == Cell::Empty && adjacent(w, h, prefix[i].0, prefix[i].1, prefix[i + 1].0, prefix[i + 1].1) by {
            assert(prefix[i] == path[i]);
            assert(prefix[i + 1] == path[i + 1]);
        }
        assert forall|i: int| 0 <= i < prefix.len() implies in_bounds(w, h, (#[trigger] prefix[i]).0, prefix[i].1)
            && !vis(v0, w, prefix[i].0, prefix[i].1) by {
            assert(prefix[i] == path[i]);
        }
        lemma_flood_covers_region(truth, p0, v0, p1, v1, x, y, prefix);
        let p = path[path.len() - 2];
        let q = path[path.len() - 1];
        assert(prefix.last() == p);
        assert(truth.at(p.0, p.1) == Cell::Empty);
        assert(adjacent(w, h, p.0, p.1, q.0, q.1));
        assert(closed_at(truth, v0, v1, p.0, p.1));
        assert(vis(v1, w, q.0, q.1));
        assert(in_bounds(w, h, q.0, q.1) && !vis(v0, w, q.0, q.1));
    } else {
        assert(path.last() == path[0]);
        assert(in_bounds(w, h, path[0].0, path[0].1) && !vis(v0, w, path[0].0, path[0].1));
    }
}

/// The cells an opening visits are exactly those that an empty path from the
/// opened cell leads to; they take their real content, and every other cell
/// keeps its own.
pub proof fn lemma_flood_is_region(
    truth: Board,
    p0: Board,
    v0: Seq<bool>,
    p1: Board,
    v1: Seq<bool>,
    x: int,
    y: int,
)
    requires
        reveal_spec(truth, p0, v0, p1, v1, x, y),
    ensures
        forall|qx: int, qy: int|
            #![trigger newly(v0, v1, truth.width as int, qx, qy)]
            truth.contains_pos(qx, qy) ==> (newly(v0, v1, truth.width as int, qx, qy) <==> exists|
                path: Seq<(int, int)>,
            | #[trigger] empty_path(truth, v0, x, y, path) && path.last() == (qx, qy)),
        forall|qx: int, qy: int|
            #![trigger p1.at(qx, qy)]
            truth.contains_pos(qx, qy) ==> p1.at(qx, qy) == if newly(v0, v1, truth.width as int, qx, qy) {
                truth.at(qx, qy)
            } else {
                p0.at(qx, qy)
            },
{
    let w = truth.width as int;
    assert forall|qx: int, qy: int|
        #![trigger newly(v0, v1, w, qx, qy)]
        truth.contains_pos(qx, qy) implies (newly(v0, v1, w, qx, qy) <==> exists|path: Seq<(int, int)>|
            #[trigger] empty_path(truth, v0, x, y, path) && path.last() == (qx, qy)) by {
        if exists|path: Seq<(int, int)>| #[trigger] empty_path(truth, v0, x, y, path) && path.last() == (qx, qy) {
            let path = choose|path: Seq<(int, int)>|
                #[trigger] empty_path(truth, v0, x, y, path) && path.last() == (qx, qy);
            lemma_flood_covers_region(truth, p0, v0, p1, v1, x, y, path);
        }
    }
}

/// Opening a cell of a real board exposes no mine other than the opened cell
/// itself: the cascade only passes through empty cells, and no mine is next
/// to an empty cell.
pub proof fn lemma_flood_exposes_no_mine(
    truth: Board,
    p0: Board,
    v0: Seq<bool>,
    p1: Board,
    v1: Seq<bool>,
    x: int,
    y: int,
)
    requires
        is_real_board(truth),
        reveal_spec(truth, p0, v0, p1, v1, x, y),
    ensures
        forall|qx: int, qy: int|
            #![trigger p1.at(qx, qy)]
            truth.contains_pos(qx, qy) && p1.at(qx, qy) == Cell::Mine ==> p0.at(qx, qy) == Cell::Mine
                || (qx == x && qy == y),
{
    let w = truth.width as int;
    let h = truth.height as int;
    assert forall|qx: int, qy: int|
        #![trigger p1.at(qx, qy)]
        truth.contains_pos(qx, qy) && p1.at(qx, qy) == Cell::Mine implies p0.at(qx, qy) == Cell::Mine
            || (qx == x && qy == y) by {
        if newly(v0, v1, w, qx, qy) && !(qx == x && qy == y) {
            assert(supported(truth, v0, v1, qx, qy));
            let (px, py) = choose|px: int, py: int|
                adjacent(w, h, qx, qy, px, py) && #[trigger] newly(v0, v1, w, px, py) && truth.at(px, py)
                    == Cell::Empty;
            lemma_empty_has_no_mine_around(truth, px, py, qx, qy);
        }
    }
}

} // verus!
