use minesweeper::board::{count_neighbours, Board, Cell};
use minesweeper::flood::do_move;
use minesweeper::generate::{board_from_mines, create_board, label_board};
use minesweeper::grid::{get_neighbour_coordinates, Grid};
use minesweeper::progress::{check_lost, count_unknowns, find_highest_number};
use minesweeper::solver::{flag_pass, reveal_pass, same_cells, Solver};

fn hidden_board(width: usize, height: usize) -> Board {
    Grid::new(width, height, Cell::Unknown)
}

fn mine_at_corner() -> Board {
    board_from_mines(3, 3, &vec![(2, 2)])
}

#[test]
fn neighbours_at_corner_edge_and_middle() {
    let corner = get_neighbour_coordinates(3, 3, 0, 0);
    assert_eq!(corner, vec![(0, 1), (1, 0), (1, 1)]);
    let edge = get_neighbour_coordinates(3, 3, 1, 0);
    assert_eq!(edge.len(), 5);
    assert!(!edge.contains(&(1, 0)));
    let middle = get_neighbour_coordinates(3, 3, 1, 1);
    assert_eq!(middle.len(), 8);
    assert!(!middle.contains(&(1, 1)));
    let far = get_neighbour_coordinates(3, 3, 2, 2);
    assert_eq!(far, vec![(1, 1), (1, 2), (2, 1)]);
}

#[test]
fn neighbours_of_a_single_cell() {
    assert!(get_neighbour_coordinates(1, 1, 0, 0).is_empty());
}

#[test]
fn labels_around_one_mine() {
    let b = mine_at_corner();
    assert_eq!(b.get(2, 2), Cell::Mine);
    assert_eq!(b.get(1, 1), Cell::Number(1));
    assert_eq!(b.get(2, 1), Cell::Number(1));
    assert_eq!(b.get(1, 2), Cell::Number(1));
    assert_eq!(b.get(0, 0), Cell::Empty);
    assert_eq!(b.get(2, 0), Cell::Empty);
    assert_eq!(b.get(0, 2), Cell::Empty);
}

#[test]
fn count_neighbours_counts_adjacent_mines_only() {
    let b = board_from_mines(4, 4, &vec![(0, 0), (1, 0), (2, 2), (3, 3)]);
    assert_eq!(count_neighbours(&b, 1, 1), 3);
    assert_eq!(count_neighbours(&b, 0, 0), 1);
    assert_eq!(count_neighbours(&b, 3, 0), 0);
    assert_eq!(b.get(1, 1), Cell::Number(3));
    assert_eq!(b.get(3, 0), Cell::Empty);
}

#[test]
fn eight_mines_around_a_cell() {
    let mines = vec![(0, 0), (1, 0), (2, 0), (0, 1), (2, 1), (0, 2), (1, 2), (2, 2)];
    let b = board_from_mines(3, 3, &mines);
    assert_eq!(b.get(1, 1), Cell::Number(8));
}

#[test]
fn label_board_keeps_mines() {
    let mut placed: Board = Grid::new(2, 2, Cell::Empty);
    placed.set(0, 0, Cell::Mine);
    let b = label_board(&placed);
    assert_eq!(b.get(0, 0), Cell::Mine);
    assert_eq!(b.get(1, 0), Cell::Number(1));
    assert_eq!(b.get(1, 1), Cell::Number(1));
}

#[test]
fn generated_board_has_the_mines_and_labels() {
    for _ in 0..20 {
        let b = create_board(10, 8, 3, 4, 20).expect("room for the mines");
        let mut mines = 0;
        for y in 0..8 {
            for x in 0..10 {
                match b.get(x, y) {
                    Cell::Mine => {
                        mines += 1;
                        assert!(x != 3 && y != 4);
                    }
                    Cell::Number(n) => assert_eq!(count_neighbours(&b, x, y), n),
                    Cell::Empty => assert_eq!(count_neighbours(&b, x, y), 0),
                    other => panic!("unexpected cell {:?}", other),
                }
            }
        }
        assert_eq!(mines, 20);
    }
}

#[test]
fn generation_fills_every_eligible_cell() {
    let b = create_board(3, 3, 0, 0, 4).expect("exactly enough room");
    for y in 0..3 {
        for x in 0..3 {
            assert_eq!(b.get(x, y) == Cell::Mine, x != 0 && y != 0);
        }
    }
}

#[test]
fn generation_refuses_too_many_mines() {
    assert!(create_board(3, 3, 0, 0, 5).is_none());
    assert!(create_board(1, 5, 0, 2, 1).is_none());
    assert!(create_board(1, 5, 0, 2, 0).is_some());
}

#[test]
fn flood_from_empty_opens_region_and_border() {
    let real = board_from_mines(5, 1, &vec![(4, 0)]);
    let mut player = hidden_board(5, 1);
    let mut visited = Grid::new(5, 1, false);
    do_move(&real, &mut player, &mut visited, 0, 0);
    assert_eq!(player.get(0, 0), Cell::Empty);
    assert_eq!(player.get(2, 0), Cell::Empty);
    assert_eq!(player.get(3, 0), Cell::Number(1));
    assert_eq!(player.get(4, 0), Cell::Unknown);
    assert!(!visited.get(4, 0));
}

#[test]
fn flood_stops_at_a_number() {
    let real = mine_at_corner();
    let mut player = hidden_board(3, 3);
    let mut visited = Grid::new(3, 3, false);
    do_move(&real, &mut player, &mut visited, 1, 1);
    assert_eq!(player.get(1, 1), Cell::Number(1));
    assert_eq!(count_unknowns(&player), 8);
}

#[test]
fn flood_skips_visited_and_out_of_bounds() {
    let real = mine_at_corner();
    let mut player = hidden_board(3, 3);
    let mut visited = Grid::new(3, 3, false);
    visited.set(0, 0, true);
    do_move(&real, &mut player, &mut visited, 0, 0);
    do_move(&real, &mut player, &mut visited, 3, 0);
    do_move(&real, &mut player, &mut visited, 0, 7);
    assert_eq!(count_unknowns(&player), 9);
}

#[test]
fn flood_never_exposes_a_mine() {
    for _ in 0..10 {
        let real = create_board(12, 9, 5, 5, 25).expect("room for the mines");
        let solver = Solver::new();
        let player = solver.fist_step(&real, &hidden_board(12, 9), 5, 5);
        assert!(!check_lost(&real, &player));
        assert_eq!(player.get(5, 5), real.get(5, 5));
    }
}

#[test]
fn opening_move_on_three_by_three() {
    let real = mine_at_corner();
    let solver = Solver::new();
    let player = solver.fist_step(&real, &hidden_board(3, 3), 0, 0);
    for (x, y) in [(0, 0), (1, 0), (2, 0), (0, 1), (0, 2)] {
        assert_eq!(player.get(x, y), Cell::Empty);
    }
    for (x, y) in [(1, 1), (2, 1), (1, 2)] {
        assert_eq!(player.get(x, y), Cell::Number(1));
    }
    assert_eq!(player.get(2, 2), Cell::Unknown);
    let next = solver.solve_step(&real, &player);
    assert_eq!(next.get(2, 2), Cell::Flagged);
    assert_eq!(count_unknowns(&next), 1);
    assert!(!check_lost(&real, &next));
}

#[test]
fn flagging_pass_flags_both_unknowns() {
    let real = board_from_mines(3, 3, &vec![(0, 0), (2, 0)]);
    assert_eq!(real.get(1, 1), Cell::Number(2));
    let mut player = real.copy();
    player.set(0, 0, Cell::Unknown);
    player.set(2, 0, Cell::Unknown);
    let flagged = flag_pass(&player);
    assert_eq!(flagged.get(0, 0), Cell::Flagged);
    assert_eq!(flagged.get(2, 0), Cell::Flagged);
    let next = Solver::new().solve_step(&real, &player);
    assert_eq!(next.get(0, 0), Cell::Flagged);
    assert_eq!(next.get(2, 0), Cell::Flagged);
}

#[test]
fn reveal_pass_opens_the_other_neighbour() {
    let real = board_from_mines(3, 3, &vec![(0, 0)]);
    assert_eq!(real.get(1, 1), Cell::Number(1));
    let mut player = real.copy();
    player.set(0, 0, Cell::Flagged);
    player.set(2, 2, Cell::Unknown);
    let opened = reveal_pass(&real, &player);
    assert_eq!(opened.get(2, 2), Cell::Empty);
    let next = Solver::new().solve_step(&real, &player);
    assert_eq!(next.get(2, 2), Cell::Empty);
    assert_ne!(next.get(2, 2), Cell::Mine);
    assert_eq!(next.get(0, 0), Cell::Flagged);
}

#[test]
fn no_inference_leaves_board_and_sets_stuck() {
    let real = mine_at_corner();
    let player = hidden_board(3, 3);
    let mut solver = Solver::new();
    let next = solver.solve_step(&real, &player);
    assert!(same_cells(&player, &next));
    solver.update_stuck(&player, &next);
    assert!(solver.is_stuck);
    let guessed = solver.solve_step(&real, &next);
    assert_eq!(count_unknowns(&guessed) < 9, true);
    solver.update_stuck(&next, &guessed);
    assert!(!solver.is_stuck);
}

#[test]
fn random_step_opens_the_only_unknown() {
    let real = mine_at_corner();
    let mut player = real.copy();
    player.set(0, 0, Cell::Unknown);
    player.set(2, 2, Cell::Flagged);
    let next = Solver { is_stuck: true }.random_step(&real, &player);
    assert_eq!(next.get(0, 0), Cell::Empty);
    assert_eq!(next.get(2, 2), Cell::Flagged);
}

#[test]
fn random_step_without_unknowns_changes_nothing() {
    let real = mine_at_corner();
    let mut player = real.copy();
    player.set(2, 2, Cell::Flagged);
    let next = Solver { is_stuck: true }.random_step(&real, &player);
    assert!(same_cells(&player, &next));
}

#[test]
fn win_when_hidden_equals_mines() {
    let real = mine_at_corner();
    let mut player = real.copy();
    player.set(2, 2, Cell::Flagged);
    assert_eq!(count_unknowns(&player), 1);
    player.set(0, 0, Cell::Unknown);
    assert_eq!(count_unknowns(&player), 2);
}

#[test]
fn lost_when_a_mine_is_open() {
    let real = mine_at_corner();
    let mut player = hidden_board(3, 3);
    assert!(!check_lost(&real, &player));
    player.set(2, 2, Cell::Flagged);
    assert!(!check_lost(&real, &player));
    player.set(2, 2, Cell::Mine);
    assert!(check_lost(&real, &player));
}

#[test]
fn highest_number_shown() {
    let mut b = hidden_board(3, 3);
    assert_eq!(find_highest_number(&b), 0);
    b.set(0, 0, Cell::Number(1));
    b.set(2, 1, Cell::Number(3));
    b.set(1, 2, Cell::Number(2));
    assert_eq!(find_highest_number(&b), 3);
}

#[test]
fn same_cells_compares_shape_and_content() {
    let a = hidden_board(3, 2);
    let b = hidden_board(2, 3);
    assert!(!same_cells(&a, &b));
    let mut c = a.copy();
    assert!(same_cells(&a, &c));
    c.set(1, 1, Cell::Flagged);
    assert!(!same_cells(&a, &c));
}
