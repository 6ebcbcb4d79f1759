//! Queries on the state of a game: hidden cells, the highest number shown,
//! loss and win.
use vstd::prelude::*;

use crate::board::{count_cells, is_hidden, Board, Cell, Tally};
use crate::grid::before;

verus! {

/// The player has opened a mine at `(x, y)`.
pub open spec fn lost_at(truth: Board, player: Board, x: int, y: int) -> bool {
    !is_hidden(player.at(x, y)) && truth.at(x, y) == Cell::Mine
}

/// The number of cells the player has not revealed: unknown or flagged.
pub fn count_unknowns(board: &Board) -> (r: usize)
    ensures
        r == count_cells(board.cells@, Tally::Hidden),
{
    let mut count: usize = 0;
    let mut i: usize = 0;
    while i < board.cells.len()
        invariant
            i <= board.cells@.len(),
            count <= i,
            count == count_cells(board.cells@.take(i as int), Tally::Hidden),
        decreases board.cells@.len() - i,
    {
        let c = board.cells[i];
        assert(board.cells@.take(i + 1).drop_last() =~= board.cells@.take(i as int));
        if c == Cell::Unknown || c == Cell::Flagged {
            count = count + 1;
        }
        i = i + 1;
    }
    assert(board.cells@.take(i as int) =~= board.cells@);
    count
}

/// Whether some revealed cell of the player's board is a real mine.
pub fn check_lost(real_board: &Board, player_board: &Board) -> (r: bool)
    requires
        real_board.wf(),
        player_board.wf(),
        real_board.width == player_board.width,
        real_board.height == player_board.height,
    ensures
        r == exists|x: int, y: int|
            real_board.contains_pos(x, y) && #[trigger] lost_at(*real_board, *player_board, x, y),
{
    let mut y: usize = 0;
    while y < real_board.height
        invariant
            real_board.wf(),
            player_board.wf(),
            real_board.width == player_board.width,
            real_board.height == player_board.height,
            y <= real_board.height,
            forall|qx: int, qy: int|
                real_board.contains_pos(qx, qy) && qy < y ==> !#[trigger] lost_at(*real_board, *player_board, qx, qy),
        decreases real_board.height - y,
    {
        let mut x: usize = 0;
        while x < real_board.width
            invariant
                real_board.wf(),
                player_board.wf(),
                real_board.width == player_board.width,
                real_board.height == player_board.height,
                y < real_board.height,
                x <= real_board.width,
                forall|qx: int, qy: int|
                    real_board.contains_pos(qx, qy) && before(qx, qy, x as int, y as int)
                        ==> !#[trigger] lost_at(*real_board, *player_board, qx, qy),
            decreases real_board.width - x,
        {
            let p = player_board.get(x, y);
            if p != Cell::Unknown && p != Cell::Flagged && real_board.get(x, y) == Cell::Mine {
                assert(lost_at(*real_board, *player_board, x as int, y as int));
                return true;
            }
            x = x + 1;
        }
        y = y + 1;
    }
    false
}

/// The highest number shown on the board, or 0 when none is.
pub fn find_highest_number(board: &Board) -> (r: u8)
    ensures
        forall|i: int|
            0 <= i < board.cells@.len() ==> match #[trigger] board.cells@[i] {
                Cell::Number(n) => n <= r,
                _ => true,
            },
        r == 0 || exists|i: int| 0 <= i < board.cells@.len() && #[trigger] board.cells@[i] == Cell::Number(r),
{
    let mut highest: u8 = 0;
    let mut i: usize = 0;
    while i < board.cells.len()
        invariant
            i <= board.cells@.len(),
            forall|j: int|
                0 <= j < i ==> match #[trigger] board.cells@[j] {
                    Cell::Number(n) => n <= highest,
                    _ => true,
                },
            highest == 0 || exists|j: int| 0 <= j < i && #[trigger] board.cells@[j] == Cell::Number(highest),
        decreases board.cells@.len() - i,
    {
        match board.cells[i] {
            Cell::Number(n) => {
                if n > highest {
                    highest = n;
                }
            },
            _ => {},
        }
        i = i + 1;
    }
    highest
}

/// The player's board agrees with the real one: every cell is hidden, or is
/// the real cell and not a mine.
pub open spec fn agrees(truth: Board, player: Board) -> bool {
    &&& truth.cells@.len() == player.cells@.len()
    &&& forall|i: int|
        0 <= i < player.cells@.len() ==> is_hidden(#[trigger] player.cells@[i]) || (player.cells@[i]
            == truth.cells@[i] && truth.cells@[i] != Cell::Mine)
}

/// How many safe cells are still hidden.
pub open spec fn count_pending(p: Seq<Cell>, t: Seq<Cell>) -> nat
    decreases p.len(),
{
    if p.len() == 0 || t.len() == 0 {
        0
    } else {
        count_pending(p.drop_last(), t.drop_last()) + if is_hidden(p.last()) && t.last() != Cell::Mine {
            1nat
        } else {
            0nat
        }
    }
}

proof fn lemma_hidden_split(p: Seq<Cell>, t: Seq<Cell>)
    requires
        p.len() == t.len(),
        forall|i: int| 0 <= i < p.len() ==> is_hidden(#[trigger] p[i]) || (p[i] == t[i] && t[i] != Cell::Mine),
    ensures
        count_cells(p, Tally::Hidden) == count_cells(t, Tally::Mines) + count_pending(p, t),
        count_pending(p, t) == 0 <==> forall|i: int|
            0 <= i < p.len() && t[i] != Cell::Mine ==> !is_hidden(#[trigger] p[i]),
    decreases p.len(),
{
    if p.len() > 0 {
        let pd = p.drop_last();
        let td = t.drop_last();
        assert forall|i: int| 0 <= i < pd.len() implies is_hidden(#[trigger] pd[i]) || (pd[i] == td[i] && td[i] != Cell::Mine) by {
            assert(pd[i] == p[i]);
        }
        lemma_hidden_split(pd, td);
        assert(p.last() == p[p.len() - 1]);
        if count_pending(p, t) == 0 {
            assert forall|i: int| 0 <= i < p.len() && t[i] != Cell::Mine implies !is_hidden(#[trigger] p[i]) by {
                if i < pd.len() {
                    assert(pd[i] == p[i]);
                    assert(td[i] == t[i]);
                }
            }
        }
        if forall|i: int| 0 <= i < p.len() && t[i] != Cell::Mine ==> !is_hidden(#[trigger] p[i]) {
            assert forall|i: int| 0 <= i < pd.len() && td[i] != Cell::Mine implies !is_hidden(#[trigger] pd[i]) by {
                assert(pd[i] == p[i]);
                assert(td[i] == t[i]);
            }
            assert(t.last() == t[t.len() - 1]);
        }
    }
}

/// While the player's board agrees with the real one, the hidden cells
/// number exactly as many as the mines when, and only when, every safe cell
/// has been revealed.
pub proof fn lemma_win_detection(truth: Board, player: Board)
    requires
        agrees(truth, player),
    ensures
        count_cells(player.cells@, Tally::Hidden) == count_cells(truth.cells@, Tally::Mines) <==> forall|i: int|
            0 <= i < player.cells@.len() && truth.cells@[i] != Cell::Mine ==> !is_hidden(
                #[trigger] player.cells@[i],
            ),
{
    lemma_hidden_split(player.cells@, truth.cells@);
}

} // verus!
