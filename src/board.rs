//! Cells, boards, neighbour tallies and whole-board queries.
use vstd::prelude::*;

use crate::grid::{adjacent, get_neighbour_coordinates, in_bounds, lemma_neighbours_complete, neighbours, Grid};

verus! {

/// The state of one square, on the real board or on the player's board.
#[derive(Clone, Copy, PartialEq, Eq, Structural, Debug)]
pub enum Cell {
    Mine,
    Number(u8),
    Empty,
    Unknown,
    Selected,
    Flagged,
}

/// A board of cells.
pub type Board = Grid<Cell>;

/// Which neighbours a tally counts.
#[derive(Clone, Copy, PartialEq, Eq, Structural, Debug)]
pub enum Tally {
    /// Real mines.
    Mines,
    /// Cells the player has not revealed: unknown or flagged.
    Hidden,
    /// Unknown cells only.
    Unknowns,
    /// Flagged cells only.
    Flags,
}

pub open spec fn tallies(t: Tally, c: Cell) -> bool {
    match t {
        Tally::Mines => c == Cell::Mine,
        Tally::Hidden => c == Cell::Unknown || c == Cell::Flagged,
        Tally::Unknowns => c == Cell::Unknown,
        Tally::Flags => c == Cell::Flagged,
    }
}

/// A cell the player has not revealed.
pub open spec fn is_hidden(c: Cell) -> bool {
    tallies(Tally::Hidden, c)
}

/// A cell that can stand on a real board.
pub open spec fn is_real_cell(c: Cell) -> bool {
    match c {
        Cell::Mine | Cell::Empty => true,
        Cell::Number(n) => 1 <= n <= 8,
        _ => false,
    }
}

impl Tally {
    pub fn matches(&self, c: Cell) -> (r: bool)
        ensures
            r == tallies(*self, c),
    {
        match self {
            Tally::Mines => c == Cell::Mine,
            Tally::Hidden => c == Cell::Unknown || c == Cell::Flagged,
            Tally::Unknowns => c == Cell::Unknown,
            Tally::Flags => c == Cell::Flagged,
        }
    }
}

/// How many of the positions in `s` hold a cell that `t` counts.
pub open spec fn count_at(b: Board, s: Seq<(usize, usize)>, t: Tally) -> nat
    decreases s.len(),
{
    if s.len() == 0 {
        0
    } else {
        count_at(b, s.drop_last(), t) + if tallies(t, b.at(s.last().0 as int, s.last().1 as int)) {
            1nat
        } else {
            0nat
        }
    }
}

/// How many neighbours of `(x, y)` hold a cell that `t` counts.
pub open spec fn count_around(b: Board, x: int, y: int, t: Tally) -> nat {
    count_at(b, neighbours(b.width as int, b.height as int, x, y), t)
}

/// How many cells of `s` `t` counts.
pub open spec fn count_cells(s: Seq<Cell>, t: Tally) -> nat
    decreases s.len(),
{
    if s.len() == 0 {
        0
    } else {
        count_cells(s.drop_last(), t) + if tallies(t, s.last()) {
            1nat
        } else {
            0nat
        }
    }
}

/// The label a non-mine cell carries for `n` adjacent mines.
pub open spec fn number_cell(n: nat) -> Cell {
    if n == 0 {
        Cell::Empty
    } else {
        Cell::Number(n as u8)
    }
}

/// A ground-truth board: only mines, numbers and empties, and every non-mine
/// cell labelled with its count of adjacent mines.
pub open spec fn is_real_board(b: Board) -> bool {
    &&& b.wf()
    &&& forall|x: int, y: int|
        #![trigger b.at(x, y)]
        b.contains_pos(x, y) ==> is_real_cell(b.at(x, y)) && (b.at(x, y) != Cell::Mine ==> b.at(x, y)
            == number_cell(count_around(b, x, y, Tally::Mines)))
}

/// Tallies of positions that hold the same kind of cell on two boards agree.
pub proof fn lemma_count_at_same(a: Board, b: Board, s: Seq<(usize, usize)>, t: Tally)
    requires
        forall|i: int|
            0 <= i < s.len() ==> tallies(t, a.at((#[trigger] s[i]).0 as int, s[i].1 as int))
                == tallies(t, b.at(s[i].0 as int, s[i].1 as int)),
    ensures
        count_at(a, s, t) == count_at(b, s, t),
    decreases s.len(),
{
    if s.len() > 0 {
        let p = s.drop_last();
        assert forall|i: int| 0 <= i < p.len() implies tallies(t, a.at((#[trigger] p[i]).0 as int, p[i].1 as int))
            == tallies(t, b.at(p[i].0 as int, p[i].1 as int)) by {
            assert(p[i] == s[i]);
        }
        lemma_count_at_same(a, b, p, t);
        assert(s.last() == s[s.len() - 1]);
    }
}

/// A tally of zero means no position in `s` holds a counted cell.
pub proof fn lemma_count_at_zero(b: Board, s: Seq<(usize, usize)>, t: Tally)
    requires
        count_at(b, s, t) == 0,
    ensures
        forall|i: int|
            0 <= i < s.len() ==> !tallies(t, b.at((#[trigger] s[i]).0 as int, s[i].1 as int)),
    decreases s.len(),
{
    if s.len() > 0 {
        lemma_count_at_zero(b, s.drop_last(), t);
        assert forall|i: int| 0 <= i < s.len() implies !tallies(t, b.at((#[trigger] s[i]).0 as int, s[i].1 as int)) by {
            if i < s.len() - 1 {
                assert(s[i] == s.drop_last()[i]);
            }
        }
    }
}

/// On a real board no mine is adjacent to an empty cell.
pub proof fn lemma_empty_has_no_mine_around(b: Board, x: int, y: int, nx: int, ny: int)
    requires
        is_real_board(b),
        b.contains_pos(x, y),
        b.at(x, y) == Cell::Empty,
        adjacent(b.width as int, b.height as int, x, y, nx, ny),
    ensures
        b.at(nx, ny) != Cell::Mine,
{
    assert(is_real_cell(b.at(x, y)));
    let s = neighbours(b.width as int, b.height as int, x, y);
    if count_around(b, x, y, Tally::Mines) > 0 {
        assert(number_cell(count_around(b, x, y, Tally::Mines)) != Cell::Empty);
    }
    lemma_count_at_zero(b, s, Tally::Mines);
    lemma_neighbours_complete(b.width as int, b.height as int, x, y, nx, ny);
    let i = choose|i: int| 0 <= i < s.len() && s[i] == (nx as usize, ny as usize);
    assert(!tallies(Tally::Mines, b.at(s[i].0 as int, s[i].1 as int)));
}

/// Counts the neighbours of `(x, y)` that `t` counts.
pub fn count_tally(board: &Board, x: usize, y: usize, t: Tally) -> (r: u8)
    requires
        board.wf(),
        x < board.width,
        y < board.height,
    ensures
        r as nat == count_around(*board, x as int, y as int, t),
        r <= 8,
{
    let nb = get_neighbour_coordinates(board.width, board.height, x, y);
    let mut c: u8 = 0;
    let mut i: usize = 0;
    while i < nb.len()
        invariant
            board.wf(),
            nb@.len() <= 8,
            i <= nb@.len(),
            c <= i,
            c as nat == count_at(*board, nb@.take(i as int), t),
            forall|j: int|
                0 <= j < nb@.len() ==> in_bounds(
                    board.width as int,
                    board.height as int,
                    (#[trigger] nb@[j]).0 as int,
                    nb@[j].1 as int,
                ),
        decreases nb@.len() - i,
    {
        let (px, py) = nb[i];
        let cell = board.get(px, py);
        assert(nb@.take(i + 1).drop_last() =~= nb@.take(i as int));
        if t.matches(cell) {
            c = c + 1;
        }
        i = i + 1;
    }
    assert(nb@.take(nb@.len() as int) =~= nb@);
    c
}

/// The number of real mines next to `(x, y)`.
pub fn count_neighbours(board: &Board, x: usize, y: usize) -> (r: u8)
    requires
        board.wf(),
        x < board.width,
        y < board.height,
    ensures
        r as nat == count_around(*board, x as int, y as int, Tally::Mines),
        r <= 8,
{
    count_tally(board, x, y, Tally::Mines)
}

} // verus!
