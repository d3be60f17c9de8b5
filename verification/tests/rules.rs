use life_board::Board;

fn board_of<const W: usize, const H: usize>(text: &[&str]) -> Board<W, H> {
    let mut cells = Vec::new();
    for row in text {
        for c in row.chars() {
            cells.push(c == '#');
        }
    }
    Board::new(cells)
}

fn live_cells<const W: usize, const H: usize>(board: &Board<W, H>) -> Vec<(usize, usize)> {
    let mut cells = Vec::new();
    for y in 0..H {
        for x in 0..W {
            if board.get(x, y) {
                cells.push((x, y));
            }
        }
    }
    cells
}

#[test]
fn next_keeps_the_dimensions() {
    let board = Board::<6, 4>::generate(|x, y| (x + y) % 2 == 0);
    let next = board.next();
    let rows = next.rows();
    assert_eq!(rows.len(), 4);
    for row in rows {
        assert_eq!(row.len(), 6);
    }
}

#[test]
fn next_leaves_the_board_as_it_was() {
    let board: Board<5, 5> = board_of(&[".....", ".....", ".###.", ".....", "....."]);
    let _ = board.next();
    assert_eq!(live_cells(&board), vec![(1, 2), (2, 2), (3, 2)]);
}

#[test]
fn dead_cell_with_three_neighbours_is_born() {
    let board: Board<3, 3> = board_of(&["##.", "#..", "..."]);
    assert!(!board.get(1, 1));
    assert_eq!(board.neighbours(1, 1), 3);
    assert!(board.next().get(1, 1));
}

#[test]
fn live_cell_with_three_neighbours_stays() {
    let board: Board<3, 3> = board_of(&["##.", "##.", "..."]);
    assert_eq!(board.neighbours(1, 1), 3);
    assert!(board.next().get(1, 1));
}

#[test]
fn live_cell_with_two_neighbours_stays() {
    let board: Board<3, 3> = board_of(&["#..", ".#.", "..#"]);
    assert_eq!(board.neighbours(1, 1), 2);
    assert!(board.next().get(1, 1));
}

#[test]
fn dead_cell_with_two_neighbours_stays_dead() {
    let board: Board<3, 3> = board_of(&["#..", "...", "..#"]);
    assert_eq!(board.neighbours(1, 1), 2);
    assert!(!board.next().get(1, 1));
}

#[test]
fn live_cell_with_one_neighbour_dies() {
    let board: Board<3, 3> = board_of(&["#..", ".#.", "..."]);
    assert_eq!(board.neighbours(1, 1), 1);
    assert!(!board.next().get(1, 1));
}

#[test]
fn live_cell_with_four_neighbours_dies() {
    let board: Board<3, 3> = board_of(&["#.#", ".#.", "#.#"]);
    assert_eq!(board.neighbours(1, 1), 4);
    assert!(!board.next().get(1, 1));
}

#[test]
fn every_count_but_three_leaves_a_dead_cell_dead() {
    let ring = [(0, 0), (1, 0), (2, 0), (0, 1), (2, 1), (0, 2), (1, 2), (2, 2)];
    for count in 0..=8usize {
        let mut board = Board::<3, 3>::clear();
        for &(x, y) in ring.iter().take(count) {
            board.set(x, y, true);
        }
        assert_eq!(board.neighbours(1, 1), count);
        assert_eq!(board.next().get(1, 1), count == 3);
    }
}

#[test]
fn every_count_but_two_and_three_kills_a_live_cell() {
    let ring = [(0, 0), (1, 0), (2, 0), (0, 1), (2, 1), (0, 2), (1, 2), (2, 2)];
    for count in 0..=8usize {
        let mut board = Board::<3, 3>::clear();
        board.set(1, 1, true);
        for &(x, y) in ring.iter().take(count) {
            board.set(x, y, true);
        }
        assert_eq!(board.neighbours(1, 1), count);
        assert_eq!(board.next().get(1, 1), count == 2 || count == 3);
    }
}

#[test]
fn neighbours_of_a_corner_are_three_at_most() {
    let board = Board::<4, 4>::generate(|_, _| true);
    assert_eq!(board.neighbours(0, 0), 3);
    assert_eq!(board.neighbours(3, 0), 3);
    assert_eq!(board.neighbours(0, 3), 3);
    assert_eq!(board.neighbours(3, 3), 3);
}

#[test]
fn neighbours_of_an_edge_are_five_at_most() {
    let board = Board::<4, 4>::generate(|_, _| true);
    assert_eq!(board.neighbours(1, 0), 5);
    assert_eq!(board.neighbours(0, 2), 5);
    assert_eq!(board.neighbours(3, 1), 5);
    assert_eq!(board.neighbours(2, 3), 5);
}

#[test]
fn neighbours_inside_are_eight() {
    let board = Board::<4, 4>::generate(|_, _| true);
    assert_eq!(board.neighbours(1, 1), 8);
    assert_eq!(board.neighbours(2, 2), 8);
}

#[test]
fn neighbours_do_not_count_the_cell_itself() {
    let mut board = Board::<3, 3>::clear();
    board.set(1, 1, true);
    assert_eq!(board.neighbours(1, 1), 0);
    assert_eq!(board.neighbours(0, 0), 1);
}

#[test]
fn neighbours_do_not_wrap_round_the_edges() {
    let mut board = Board::<4, 4>::clear();
    board.set(3, 0, true);
    board.set(0, 3, true);
    board.set(3, 3, true);
    assert_eq!(board.neighbours(0, 0), 0);
    assert_eq!(board.neighbours(0, 1), 0);
}

#[test]
fn neighbours_on_narrow_boards() {
    let single = Board::<1, 1>::generate(|_, _| true);
    assert_eq!(single.neighbours(0, 0), 0);
    let column = Board::<1, 3>::generate(|_, _| true);
    assert_eq!(column.neighbours(0, 0), 1);
    assert_eq!(column.neighbours(0, 1), 2);
    let pair = Board::<2, 3>::generate(|_, _| true);
    assert_eq!(pair.neighbours(0, 1), 5);
    assert_eq!(pair.neighbours(1, 0), 3);
}

#[test]
fn next_of_clear_is_clear() {
    let board = Board::<8, 6>::clear();
    assert!(live_cells(&board).is_empty());
    let next = board.next();
    assert!(live_cells(&next).is_empty());
    assert!(live_cells(&next.next()).is_empty());
}

#[test]
fn isolated_cell_dies() {
    for &(x, y) in [(0, 0), (4, 0), (2, 2), (0, 3), (4, 4)].iter() {
        let mut board = Board::<5, 5>::clear();
        board.set(x, y, true);
        assert_eq!(board.neighbours(x, y), 0);
        assert!(live_cells(&board.next()).is_empty());
    }
}

#[test]
fn blinker_turns() {
    let board: Board<5, 5> = board_of(&[".....", ".....", ".###.", ".....", "....."]);
    let turned = board.next();
    assert_eq!(live_cells(&turned), vec![(2, 1), (2, 2), (2, 3)]);
    assert_eq!(live_cells(&turned.next()), vec![(1, 2), (2, 2), (3, 2)]);
}

#[test]
fn block_stands_still() {
    let board: Board<4, 4> = board_of(&["....", ".##.", ".##.", "...."]);
    assert_eq!(live_cells(&board.next()), vec![(1, 1), (2, 1), (1, 2), (2, 2)]);
}

#[test]
fn full_board_keeps_its_corners() {
    let board = Board::<3, 3>::generate(|_, _| true);
    assert_eq!(live_cells(&board.next()), vec![(0, 0), (2, 0), (0, 2), (2, 2)]);
}

#[test]
fn next_counts_against_the_board_before_the_step() {
    let board: Board<4, 1> = board_of(&["###."]);
    assert_eq!(live_cells(&board.next()), vec![(1, 0)]);
}

#[test]
fn glider_after_one_generation() {
    let board = Board::<20, 20>::glider();
    assert_eq!(
        live_cells(&board.next()),
        vec![(11, 10), (12, 11), (13, 11), (11, 12), (12, 12)]
    );
}

#[test]
fn glider_moves_one_step_down_and_right_in_four_generations() {
    let start = Board::<20, 20>::glider();
    let shape = live_cells(&start);
    assert_eq!(shape, vec![(12, 10), (10, 11), (12, 11), (11, 12), (12, 12)]);
    let mut board = start;
    for _ in 0..4 {
        board = board.next();
    }
    let moved: Vec<(usize, usize)> = shape.iter().map(|&(x, y)| (x + 1, y + 1)).collect();
    assert_eq!(live_cells(&board), moved);
}

#[test]
fn glider_gun_sends_a_glider_every_thirty_generations() {
    let gun = Board::<60, 40>::glider_gun();
    let shape = live_cells(&gun);
    assert_eq!(shape.len(), 36);
    let mut board = Board::<60, 40>::glider_gun();
    for _ in 0..30 {
        board = board.next();
    }
    let after = live_cells(&board);
    assert_eq!(after.len(), 41);
    let glider: Vec<(usize, usize)> =
        after.iter().copied().filter(|cell| !shape.contains(cell)).collect();
    assert_eq!(glider, vec![(33, 19), (34, 20), (35, 20), (33, 21), (34, 21)]);
}

#[test]
fn glider_travels_where_it_just_keeps_clear_of_the_rim() {
    let mut board = Board::<14, 14>::glider();
    for _ in 0..4 {
        board = board.next();
    }
    assert_eq!(live_cells(&board), vec![(13, 11), (11, 12), (13, 12), (12, 13), (13, 13)]);
}

#[test]
fn glider_takes_four_shapes_in_turn() {
    let start = Board::<20, 20>::glider();
    let first = start.next();
    let second = first.next();
    let third = second.next();
    assert_eq!(live_cells(&first), vec![(11, 10), (12, 11), (13, 11), (11, 12), (12, 12)]);
    assert_eq!(live_cells(&second), vec![(12, 10), (13, 11), (11, 12), (12, 12), (13, 12)]);
    assert_eq!(live_cells(&third), vec![(11, 11), (13, 11), (12, 12), (13, 12), (12, 13)]);
}
