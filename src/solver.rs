//! The rule-based solver: a flagging pass, a reveal pass, and a random guess
//! when no rule applies.
use vstd::prelude::*;

use crate::board::{count_around, count_tally, is_real_cell, Board, Cell, Tally};
use crate::chance::random_below;
use crate::flood::{do_move, fresh_marks, lemma_flood_is_region, region_of};
use crate::grid::{adjacent, before, get_neighbour_coordinates, in_bounds, lemma_grid_ext, Grid};

verus! {

/// A numbered cell whose hidden neighbours (unknown or flagged) are exactly as
/// many as its number: they are all mines.
pub open spec fn flag_rule(b: Board, x: int, y: int) -> bool {
    match b.at(x, y) {
        Cell::Number(n) => count_around(b, x, y, Tally::Hidden) == n,
        _ => false,
    }
}

/// A numbered cell with as many flagged neighbours as its number and some
/// unknown neighbour: its unknown neighbours are all safe.
pub open spec fn reveal_rule(b: Board, x: int, y: int) -> bool {
    match b.at(x, y) {
        Cell::Number(n) => count_around(b, x, y, Tally::Flags) == n && count_around(
            b,
            x,
            y,
            Tally::Unknowns,
        ) > 0,
        _ => false,
    }
}

/// An unknown cell next to a numbered cell for which the flagging rule holds.
pub open spec fn flag_target(b: Board, x: int, y: int) -> bool {
    b.at(x, y) == Cell::Unknown && exists|px: int, py: int|
        adjacent(b.width as int, b.height as int, x, y, px, py) && #[trigger] flag_rule(b, px, py)
}

/// An unknown cell next to a numbered cell for which the reveal rule holds.
pub open spec fn reveal_target(b: Board, x: int, y: int) -> bool {
    b.at(x, y) == Cell::Unknown && exists|px: int, py: int|
        adjacent(b.width as int, b.height as int, x, y, px, py) && #[trigger] reveal_rule(b, px, py)
}

/// The cell at `(x, y)` after the flagging pass over `b`.
pub open spec fn flagged_cell(b: Board, x: int, y: int) -> Cell {
    if flag_target(b, x, y) {
        Cell::Flagged
    } else {
        b.at(x, y)
    }
}

/// No numbered cell of `b` satisfies either rule.
pub open spec fn no_inference(b: Board) -> bool {
    forall|x: int, y: int|
        b.contains_pos(x, y) ==> !#[trigger] flag_rule(b, x, y) && !reveal_rule(b, x, y)
}

/// Every cell of `p1` is the one of `p0` or the real one.
pub open spec fn only_reveals(truth: Board, p0: Board, p1: Board) -> bool {
    &&& p1.wf()
    &&& p1.width == p0.width
    &&& p1.height == p0.height
    &&& forall|x: int, y: int|
        #![trigger p1.at(x, y)]
        p1.contains_pos(x, y) ==> p1.at(x, y) == p0.at(x, y) || p1.at(x, y) == truth.at(x, y)
}

/// Both boards have the same shape and the same cells.
pub open spec fn same_board(a: Board, b: Board) -> bool {
    a.width == b.width && a.height == b.height && a.cells@ == b.cells@
}

/// The shape requirements shared by the solver's operations.
pub open spec fn boards_match(truth: Board, player: Board) -> bool {
    &&& truth.wf()
    &&& player.wf()
    &&& truth.width == player.width
    &&& truth.height == player.height
    &&& forall|x: int, y: int| truth.contains_pos(x, y) ==> is_real_cell(#[trigger] truth.at(x, y))
}

fn flag_rule_holds(b: &Board, x: usize, y: usize) -> (r: bool)
    requires
        b.wf(),
        x < b.width,
        y < b.height,
    ensures
        r == flag_rule(*b, x as int, y as int),
{
    match b.get(x, y) {
        Cell::Number(n) => count_tally(b, x, y, Tally::Hidden) == n,
        _ => false,
    }
}

fn reveal_rule_holds(b: &Board, x: usize, y: usize) -> (r: bool)
    requires
        b.wf(),
        x < b.width,
        y < b.height,
    ensures
        r == reveal_rule(*b, x as int, y as int),
{
    match b.get(x, y) {
        Cell::Number(n) => count_tally(b, x, y, Tally::Flags) == n && count_tally(
            b,
            x,
            y,
            Tally::Unknowns,
        ) > 0,
        _ => false,
    }
}

/// Whether a neighbour of `(x, y)` satisfies the flagging rule (when
/// `flagging`) or the reveal rule (otherwise).
fn rule_next_to(b: &Board, x: usize, y: usize, flagging: bool) -> (r: bool)
    requires
        b.wf(),
        x < b.width,
        y < b.height,
    ensures
        flagging ==> r == exists|px: int, py: int|
            adjacent(b.width as int, b.height as int, x as int, y as int, px, py)
                && #[trigger] flag_rule(*b, px, py),
        !flagging ==> r == exists|px: int, py: int|
            adjacent(b.width as int, b.height as int, x as int, y as int, px, py)
                && #[trigger] reveal_rule(*b, px, py),
{
    let nb = get_neighbour_coordinates(b.width, b.height, x, y);
    let mut k: usize = 0;
    while k < nb.len()
        invariant
            b.wf(),
            k <= nb@.len(),
            forall|i: int|
                0 <= i < nb@.len() ==> adjacent(
                    b.width as int,
                    b.height as int,
                    x as int,
                    y as int,
                    (#[trigger] nb@[i]).0 as int,
                    nb@[i].1 as int,
                ),
            forall|i: int|
                0 <= i < k ==> !(if flagging {
                    flag_rule(*b, (#[trigger] nb@[i]).0 as int, nb@[i].1 as int)
                } else {
                    reveal_rule(*b, nb@[i].0 as int, nb@[i].1 as int)
                }),
        decreases nb@.len() - k,
    {
        let (px, py) = nb[k];
        let hit = if flagging {
            flag_rule_holds(b, px, py)
        } else {
            reveal_rule_holds(b, px, py)
        };
        if hit {
            return true;
        }
        k = k + 1;
    }
    proof {
        assert forall|px: int, py: int|
            adjacent(b.width as int, b.height as int, x as int, y as int, px, py) implies !(if flagging {
                #[trigger] flag_rule(*b, px, py)
            } else {
                #[trigger] reveal_rule(*b, px, py)
            }) by {
            assert(nb@.contains((px as usize, py as usize)));
            let i = choose|i: int| 0 <= i < nb@.len() && nb@[i] == (px as usize, py as usize);
            assert(nb@[i].0 as int == px && nb@[i].1 as int == py);
        }
    }
    false
}

/// The flagging pass: every unknown neighbour of a numbered cell whose hidden
/// neighbours match its number is flagged. All flags are decided on `b` as it
/// stands, then applied together.
pub fn flag_pass(b: &Board) -> (r: Board)
    requires
        b.wf(),
    ensures
        r.wf(),
        r.width == b.width,
        r.height == b.height,
        forall|x: int, y: int| #![trigger r.at(x, y)] b.contains_pos(x, y) ==> r.at(x, y) == flagged_cell(*b, x, y),
{
    let mut res = b.copy();
    let mut y: usize = 0;
    while y < b.height
        invariant
            b.wf(),
            res.wf(),
            res.width == b.width,
            res.height == b.height,
            y <= b.height,
            forall|qx: int, qy: int|
                #![trigger res.at(qx, qy)]
                b.contains_pos(qx, qy) ==> res.at(qx, qy) == if qy < y {
                    flagged_cell(*b, qx, qy)
                } else {
                    b.at(qx, qy)
                },
        decreases b.height - y,
    {
        let mut x: usize = 0;
        while x < b.width
            invariant
                b.wf(),
                res.wf(),
                res.width == b.width,
                res.height == b.height,
                y < b.height,
                x <= b.width,
                forall|qx: int, qy: int|
                    #![trigger res.at(qx, qy)]
                    b.contains_pos(qx, qy) ==> res.at(qx, qy) == if before(qx, qy, x as int, y as int) {
                        flagged_cell(*b, qx, qy)
                    } else {
                        b.at(qx, qy)
                    },
            decreases b.width - x,
        {
            if b.get(x, y) == Cell::Unknown && rule_next_to(b, x, y, true) {
                res.set(x, y, Cell::Flagged);
            }
            x = x + 1;
        }
        y = y + 1;
    }
    res
}

/// The unknown cells of `b` that the reveal rule shows safe, in row-major order.
fn reveal_targets(b: &Board) -> (r: Vec<(usize, usize)>)
    requires
        b.wf(),
    ensures
        forall|i: int|
            0 <= i < r@.len() ==> b.contains_pos((#[trigger] r@[i]).0 as int, r@[i].1 as int)
                && reveal_target(*b, r@[i].0 as int, r@[i].1 as int),
        forall|x: int, y: int|
            b.contains_pos(x, y) && #[trigger] reveal_target(*b, x, y) ==> r@.contains(
                (x as usize, y as usize),
            ),
{
    let mut r: Vec<(usize, usize)> = Vec::new();
    let mut y: usize = 0;
    while y < b.height
        invariant
            b.wf(),
            y <= b.height,
            forall|i: int|
                0 <= i < r@.len() ==> b.contains_pos((#[trigger] r@[i]).0 as int, r@[i].1 as int)
                    && reveal_target(*b, r@[i].0 as int, r@[i].1 as int),
            forall|qx: int, qy: int|
                b.contains_pos(qx, qy) && qy < y && #[trigger] reveal_target(*b, qx, qy) ==> r@.contains(
                    (qx as usize, qy as usize),
                ),
        decreases b.height - y,
    {
        let mut x: usize = 0;
        while x < b.width
            invariant
                b.wf(),
                y < b.height,
                x <= b.width,
                forall|i: int|
                    0 <= i < r@.len() ==> b.contains_pos((#[trigger] r@[i]).0 as int, r@[i].1 as int)
                        && reveal_target(*b, r@[i].0 as int, r@[i].1 as int),
                forall|qx: int, qy: int|
                    b.contains_pos(qx, qy) && before(qx, qy, x as int, y as int)
                        && #[trigger] reveal_target(*b, qx, qy) ==> r@.contains((qx as usize, qy as usize)),
            decreases b.width - x,
        {
            if b.get(x, y) == Cell::Unknown && rule_next_to(b, x, y, false) {
                let ghost old_r = r@;
                r.push((x, y));
                proof {
                    assert(r@[old_r.len() as int] == (x, y));
                    assert forall|qx: int, qy: int|
                        b.contains_pos(qx, qy) && before(qx, qy, x + 1, y as int)
                            && #[trigger] reveal_target(*b, qx, qy) implies r@.contains((qx as usize, qy as usize)) by {
                        if before(qx, qy, x as int, y as int) {
                            let i = choose|i: int| 0 <= i < old_r.len() && old_r[i] == (qx as usize, qy as usize);
                            assert(r@[i] == old_r[i]);
                        }
                    }
                    assert forall|i: int| 0 <= i < r@.len() implies b.contains_pos((#[trigger] r@[i]).0 as int, r@[i].1 as int)
                        && reveal_target(*b, r@[i].0 as int, r@[i].1 as int) by {
                        if i < old_r.len() {
                            assert(r@[i] == old_r[i]);
                        }
                    }
                }
            }
            x = x + 1;
        }
        y = y + 1;
    }
    r
}

/// The unknown cells of `b`, in row-major order.
fn unknown_positions(b: &Board) -> (r: Vec<(usize, usize)>)
    requires
        b.wf(),
    ensures
        forall|i: int|
            0 <= i < r@.len() ==> b.contains_pos((#[trigger] r@[i]).0 as int, r@[i].1 as int)
                && b.at(r@[i].0 as int, r@[i].1 as int) == Cell::Unknown,
        forall|x: int, y: int|
            b.contains_pos(x, y) && #[trigger] b.at(x, y) == Cell::Unknown ==> r@.contains(
                (x as usize, y as usize),
            ),
{
    let mut r: Vec<(usize, usize)> = Vec::new();
    let mut y: usize = 0;
    while y < b.height
        invariant
            b.wf(),
            y <= b.height,
            forall|i: int|
                0 <= i < r@.len() ==> b.contains_pos((#[trigger] r@[i]).0 as int, r@[i].1 as int)
                    && b.at(r@[i].0 as int, r@[i].1 as int) == Cell::Unknown,
            forall|qx: int, qy: int|
                b.contains_pos(qx, qy) && qy < y && #[trigger] b.at(qx, qy) == Cell::Unknown ==> r@.contains(
                    (qx as usize, qy as usize),
                ),
        decreases b.height - y,
    {
        let mut x: usize = 0;
        while x < b.width
            invariant
                b.wf(),
                y < b.height,
                x <= b.width,
                forall|i: int|
                    0 <= i < r@.len() ==> b.contains_pos((#[trigger] r@[i]).0 as int, r@[i].1 as int)
                        && b.at(r@[i].0 as int, r@[i].1 as int) == Cell::Unknown,
                forall|qx: int, qy: int|
                    b.contains_pos(qx, qy) && before(qx, qy, x as int, y as int)
                        && #[trigger] b.at(qx, qy) == Cell::Unknown ==> r@.contains((qx as usize, qy as usize)),
            decreases b.width - x,
        {
            if b.get(x, y) == Cell::Unknown {
                let ghost old_r = r@;
                r.push((x, y));
                proof {
                    assert(r@[old_r.len() as int] == (x, y));
                    assert forall|qx: int, qy: int|
                        b.contains_pos(qx, qy) && before(qx, qy, x + 1, y as int)
                            && #[trigger] b.at(qx, qy) == Cell::Unknown implies r@.contains((qx as usize, qy as usize)) by {
                        if before(qx, qy, x as int, y as int) {
                            let i = choose|i: int| 0 <= i < old_r.len() && old_r[i] == (qx as usize, qy as usize);
                            assert(r@[i] == old_r[i]);
                        }
                    }
                    assert forall|i: int| 0 <= i < r@.len() implies b.contains_pos((#[trigger] r@[i]).0 as int, r@[i].1 as int)
                        && b.at(r@[i].0 as int, r@[i].1 as int) == Cell::Unknown by {
                        if i < old_r.len() {
                            assert(r@[i] == old_r[i]);
                        }
                    }
                }
            }
            x = x + 1;
        }
        y = y + 1;
    }
    r
}

/// Opens `(x, y)` on `player` with fresh visited marks.
fn open_fresh(real_board: &Board, player: &mut Board, x: usize, y: usize)
    requires
        boards_match(*real_board, *old(player)),
        x < real_board.width,
        y < real_board.height,
    ensures
        boards_match(*real_board, *final(player)),
        final(player).at(x as int, y as int) == real_board.at(x as int, y as int),
        only_reveals(*real_board, *old(player), *final(player)),
        forall|qx: int, qy: int|
            #![trigger final(player).at(qx, qy)]
            real_board.contains_pos(qx, qy) ==> final(player).at(qx, qy) == if region_of(
                *real_board,
                x as int,
                y as int,
                qx,
                qy,
            ) {
                real_board.at(qx, qy)
            } else {
                old(player).at(qx, qy)
            },
{
    // The backing vector's length bounds width * height.
    let _cell_count = real_board.cells.len();
    let mut visited: Grid<bool> = Grid::new(real_board.width, real_board.height, false);
    assert(visited.cells@ =~= fresh_marks(*real_board));
    proof {
        crate::grid::lemma_index_in_bounds(real_board.width as int, real_board.height as int, x as int, y as int);
    }
    do_move(real_board, player, &mut visited, x, y);
    proof {
        lemma_flood_is_region(
            *real_board,
            *old(player),
            fresh_marks(*real_board),
            *player,
            visited.cells@,
            x as int,
            y as int,
        );
    }
}

/// `(x, y)` lies in the region opened from some target of the reveal pass over `b`.
pub open spec fn opened_by_reveal(truth: Board, b: Board, x: int, y: int) -> bool {
    exists|tx: int, ty: int|
        b.contains_pos(tx, ty) && reveal_target(b, tx, ty) && #[trigger] region_of(truth, tx, ty, x, y)
}

/// The reveal pass: every unknown neighbour of a numbered cell whose flagged
/// neighbours match its number is opened, each with fresh visited marks.
pub fn reveal_pass(real_board: &Board, b: &Board) -> (r: Board)
    requires
        boards_match(*real_board, *b),
    ensures
        boards_match(*real_board, r),
        only_reveals(*real_board, *b, r),
        forall|x: int, y: int|
            #![trigger r.at(x, y)]
            b.contains_pos(x, y) && reveal_target(*b, x, y) ==> r.at(x, y) == real_board.at(x, y),
        (forall|x: int, y: int| b.contains_pos(x, y) ==> !#[trigger] reveal_target(*b, x, y))
            ==> r.cells@ == b.cells@,
        forall|x: int, y: int|
            #![trigger r.at(x, y)]
            b.contains_pos(x, y) ==> r.at(x, y) == if opened_by_reveal(*real_board, *b, x, y) {
                real_board.at(x, y)
            } else {
                b.at(x, y)
            },
{
    let targets = reveal_targets(b);
    let mut res = b.copy();
    let mut i: usize = 0;
    while i < targets.len()
        invariant
            boards_match(*real_board, *b),
            boards_match(*real_board, res),
            only_reveals(*real_board, *b, res),
            i <= targets@.len(),
            forall|j: int|
                0 <= j < targets@.len() ==> b.contains_pos((#[trigger] targets@[j]).0 as int, targets@[j].1 as int),
            forall|j: int|
                0 <= j < i ==> res.at((#[trigger] targets@[j]).0 as int, targets@[j].1 as int)
                    == real_board.at(targets@[j].0 as int, targets@[j].1 as int),
            targets@.len() == 0 ==> res.cells@ == b.cells@,
            forall|qx: int, qy: int|
                #![trigger res.at(qx, qy)]
                b.contains_pos(qx, qy) ==> res.at(qx, qy) == if exists|j: int|
                    0 <= j < i && #[trigger] region_of(
                        *real_board,
                        targets@[j].0 as int,
                        targets@[j].1 as int,
                        qx,
                        qy,
                    ) {
                    real_board.at(qx, qy)
                } else {
                    b.at(qx, qy)
                },
        decreases targets@.len() - i,
    {
        let (tx, ty) = targets[i];
        let ghost prev = res;
        open_fresh(real_board, &mut res, tx, ty);
        proof {
            assert forall|j: int|
                0 <= j < i + 1 implies res.at((#[trigger] targets@[j]).0 as int, targets@[j].1 as int)
                    == real_board.at(targets@[j].0 as int, targets@[j].1 as int) by {
                let q = targets@[j];
                assert(res.at(q.0 as int, q.1 as int) == prev.at(q.0 as int, q.1 as int) || res.at(q.0 as int, q.1 as int) == real_board.at(q.0 as int, q.1 as int));
            }
            assert forall|x: int, y: int|
                #![trigger res.at(x, y)]
                res.contains_pos(x, y) implies res.at(x, y) == b.at(x, y) || res.at(x, y) == real_board.at(x, y) by {
                assert(prev.at(x, y) == b.at(x, y) || prev.at(x, y) == real_board.at(x, y));
            }
            assert forall|qx: int, qy: int|
                #![trigger res.at(qx, qy)]
                b.contains_pos(qx, qy) implies res.at(qx, qy) == if exists|j: int|
                    0 <= j < i + 1 && #[trigger] region_of(
                        *real_board,
                        targets@[j].0 as int,
                        targets@[j].1 as int,
                        qx,
                        qy,
                    ) {
                    real_board.at(qx, qy)
                } else {
                    b.at(qx, qy)
                } by {
                let ghost before_any = exists|j: int|
                    0 <= j < i && #[trigger] region_of(
                        *real_board,
                        targets@[j].0 as int,
                        targets@[j].1 as int,
                        qx,
                        qy,
                    );
                assert(prev.at(qx, qy) == if before_any { real_board.at(qx, qy) } else { b.at(qx, qy) });
                if region_of(*real_board, tx as int, ty as int, qx, qy) {
                    assert(region_of(*real_board, targets@[i as int].0 as int, targets@[i as int].1 as int, qx, qy));
                } else {
                    if exists|j: int|
                        0 <= j < i + 1 && #[trigger] region_of(
                            *real_board,
                            targets@[j].0 as int,
                            targets@[j].1 as int,
                            qx,
                            qy,
                        ) {
                        let j = choose|j: int|
                            0 <= j < i + 1 && #[trigger] region_of(
                                *real_board,
                                targets@[j].0 as int,
                                targets@[j].1 as int,
                                qx,
                                qy,
                            );
                        assert(j != i);
                    }
                }
            }
        }
        i = i + 1;
    }
    proof {
        assert forall|x: int, y: int|
            #![trigger res.at(x, y)]
            b.contains_pos(x, y) && reveal_target(*b, x, y) implies res.at(x, y) == real_board.at(x, y) by {
            let j = choose|j: int| 0 <= j < targets@.len() && targets@[j] == (x as usize, y as usize);
            assert(res.at(targets@[j].0 as int, targets@[j].1 as int) == real_board.at(targets@[j].0 as int, targets@[j].1 as int));
        }
        assert forall|x: int, y: int|
            #![trigger res.at(x, y)]
            b.contains_pos(x, y) implies res.at(x, y) == if opened_by_reveal(*real_board, *b, x, y) {
                real_board.at(x, y)
            } else {
                b.at(x, y)
            } by {
            if exists|j: int|
                0 <= j < targets@.len() && #[trigger] region_of(
                    *real_board,
                    targets@[j].0 as int,
                    targets@[j].1 as int,
                    x,
                    y,
                ) {
                let j = choose|j: int|
                    0 <= j < targets@.len() && #[trigger] region_of(
                        *real_board,
                        targets@[j].0 as int,
                        targets@[j].1 as int,
                        x,
                        y,
                    );
                assert(b.contains_pos(targets@[j].0 as int, targets@[j].1 as int));
            }
            if opened_by_reveal(*real_board, *b, x, y) {
                let (tx, ty) = choose|tx: int, ty: int|
                    b.contains_pos(tx, ty) && reveal_target(*b, tx, ty) && #[trigger] region_of(
                        *real_board,
                        tx,
                        ty,
                        x,
                        y,
                    );
                assert(targets@.contains((tx as usize, ty as usize)));
                let j = choose|j: int| 0 <= j < targets@.len() && targets@[j] == (tx as usize, ty as usize);
                assert(region_of(*real_board, targets@[j].0 as int, targets@[j].1 as int, x, y));
            }
        }
        if forall|x: int, y: int| b.contains_pos(x, y) ==> !#[trigger] reveal_target(*b, x, y) {
            if targets@.len() > 0 {
                assert(reveal_target(*b, targets@[0].0 as int, targets@[0].1 as int));
            }
        }
    }
    res
}

/// The board after the flagging pass over `b`.
pub open spec fn is_flag_pass(b: Board, b1: Board) -> bool {
    &&& b1.wf()
    &&& b1.width == b.width
    &&& b1.height == b.height
    &&& forall|x: int, y: int| #![trigger b1.at(x, y)] b.contains_pos(x, y) ==> b1.at(x, y) == flagged_cell(b, x, y)
}

/// The board the reveal pass leaves from `b1`: the regions opened from its
/// targets take their real content, every other cell is kept.
pub open spec fn is_reveal_pass(truth: Board, b1: Board, r: Board) -> bool {
    &&& boards_match(truth, r)
    &&& forall|x: int, y: int|
        #![trigger r.at(x, y)]
        b1.contains_pos(x, y) ==> r.at(x, y) == if opened_by_reveal(truth, b1, x, y) {
            truth.at(x, y)
        } else {
            b1.at(x, y)
        }
    &&& (forall|x: int, y: int| b1.contains_pos(x, y) ==> !#[trigger] reveal_target(b1, x, y))
        ==> r.cells@ == b1.cells@
}

/// The board a random guess leaves: with an unknown cell left, the region
/// opened from one of them takes its real content and every other cell is
/// kept; with none, nothing changes.
pub open spec fn is_guess(truth: Board, p0: Board, r: Board) -> bool {
    &&& boards_match(truth, r)
    &&& (exists|x: int, y: int| p0.contains_pos(x, y) && #[trigger] p0.at(x, y) == Cell::Unknown)
        ==> exists|gx: int, gy: int|
        p0.contains_pos(gx, gy) && #[trigger] p0.at(gx, gy) == Cell::Unknown && forall|x: int, y: int|
            #![trigger r.at(x, y)]
            p0.contains_pos(x, y) ==> r.at(x, y) == if region_of(truth, gx, gy, x, y) {
                truth.at(x, y)
            } else {
                p0.at(x, y)
            }
    &&& !(exists|x: int, y: int| p0.contains_pos(x, y) && #[trigger] p0.at(x, y) == Cell::Unknown)
        ==> r.cells@ == p0.cells@
}

/// The solver's state between steps.
#[derive(Clone, Copy, PartialEq, Eq, Structural, Debug)]
pub struct Solver {
    /// No rule applied in the last step: the next step guesses.
    pub is_stuck: bool,
}

impl Solver {
    pub fn new() -> (r: Solver)
        ensures
            !r.is_stuck,
    {
        Solver { is_stuck: false }
    }

    /// The opening move: reveals `(x, y)` and its cascade, with one visited
    /// grid for the whole cascade.
    pub fn fist_step(self, real_board: &Board, player_board: &Board, x: usize, y: usize) -> (r: Board)
        requires
            boards_match(*real_board, *player_board),
            x < real_board.width,
            y < real_board.height,
        ensures
            boards_match(*real_board, r),
            forall|qx: int, qy: int|
                #![trigger r.at(qx, qy)]
                real_board.contains_pos(qx, qy) ==> r.at(qx, qy) == if region_of(
                    *real_board,
                    x as int,
                    y as int,
                    qx,
                    qy,
                ) {
                    real_board.at(qx, qy)
                } else {
                    player_board.at(qx, qy)
                },
    {
        let mut new_board = player_board.copy();
        open_fresh(real_board, &mut new_board, x, y);
        new_board
    }

    /// The guess: opens a uniformly chosen unknown cell. With no unknown cell
    /// left the board is returned as it is.
    pub fn random_step(self, real_board: &Board, player_board: &Board) -> (r: Board)
        requires
            boards_match(*real_board, *player_board),
        ensures
            is_guess(*real_board, *player_board, r),
    {
        let unknowns = unknown_positions(player_board);
        let mut new_board = player_board.copy();
        if unknowns.len() == 0 {
            proof {
                assert forall|x: int, y: int|
                    player_board.contains_pos(x, y) implies #[trigger] player_board.at(x, y) != Cell::Unknown by {
                    if player_board.at(x, y) == Cell::Unknown {
                        assert(unknowns@.contains((x as usize, y as usize)));
                    }
                }
            }
            return new_board;
        }
        let k = random_below(unknowns.len());
        let (gx, gy) = unknowns[k];
        open_fresh(real_board, &mut new_board, gx, gy);
        proof {
            assert(player_board.at(gx as int, gy as int) == Cell::Unknown);
        }
        new_board
    }

    /// One solver step. A stuck solver guesses; otherwise the flagging pass
    /// runs on the board, then the reveal pass on its result.
    pub fn solve_step(self, real_board: &Board, player_board: &Board) -> (r: Board)
        requires
            boards_match(*real_board, *player_board),
        ensures
            self.is_stuck ==> is_guess(*real_board, *player_board, r),
            !self.is_stuck ==> exists|b1: Board|
                is_flag_pass(*player_board, b1) && #[trigger] is_reveal_pass(*real_board, b1, r),
            !self.is_stuck && no_inference(*player_board) ==> r.cells@ == player_board.cells@,
    {
        if self.is_stuck {
            return self.random_step(real_board, player_board);
        }
        let flagged = flag_pass(player_board);
        let r = reveal_pass(real_board, &flagged);
        proof {
            assert(is_reveal_pass(*real_board, flagged, r));
            if no_inference(*player_board) {
                assert forall|x: int, y: int| #![trigger flagged.at(x, y)] player_board.contains_pos(x, y) implies flagged.at(x, y) == player_board.at(x, y) by {
                    if flag_target(*player_board, x, y) {
                        let (px, py) = choose|px: int, py: int|
                            adjacent(player_board.width as int, player_board.height as int, x, y, px, py) && #[trigger] flag_rule(*player_board, px, py);
                        assert(player_board.contains_pos(px, py));
                    }
                }
                lemma_grid_ext(flagged, *player_board);
                assert forall|x: int, y: int| flagged.contains_pos(x, y) implies !#[trigger] reveal_target(flagged, x, y) by {
                    if reveal_target(flagged, x, y) {
                        let (px, py) = choose|px: int, py: int|
                            adjacent(flagged.width as int, flagged.height as int, x, y, px, py) && #[trigger] reveal_rule(flagged, px, py);
                        let nb = crate::grid::neighbours(flagged.width as int, flagged.height as int, px, py);
                        crate::board::lemma_count_at_same(flagged, *player_board, nb, Tally::Flags);
                        crate::board::lemma_count_at_same(flagged, *player_board, nb, Tally::Unknowns);
                        assert(reveal_rule(*player_board, px, py));
                        assert(player_board.contains_pos(px, py));
                        assert(!flag_rule(*player_board, px, py));
                    }
                }
            }
        }
        r
    }

    /// The driver's progress check: the solver is stuck exactly when a step
    /// left the board as it was.
    pub fn update_stuck(&mut self, prev: &Board, next: &Board)
        requires
            prev.wf(),
            next.wf(),
        ensures
            final(self).is_stuck == same_board(*prev, *next),
    {
        self.is_stuck = same_cells(prev, next);
    }
}

/// Whether two boards have the same shape and cells.
pub fn same_cells(a: &Board, b: &Board) -> (r: bool)
    requires
        a.wf(),
        b.wf(),
    ensures
        r == same_board(*a, *b),
{
    if a.width != b.width || a.height != b.height || a.cells.len() != b.cells.len() {
        return false;
    }
    let mut i: usize = 0;
    while i < a.cells.len()
        invariant
            a.cells@.len() == b.cells@.len(),
            i <= a.cells@.len(),
            forall|j: int| 0 <= j < i ==> a.cells@[j] == b.cells@[j],
        decreases a.cells@.len() - i,
    {
        if a.cells[i] != b.cells[i] {
            return false;
        }
        i = i + 1;
    }
    assert(a.cells@ =~= b.cells@);
    true
}

} // verus!
