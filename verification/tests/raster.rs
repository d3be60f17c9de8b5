use life_board::raster::coordinate_along;
use life_board::Board;

fn painted<const W: usize, const H: usize>(board: &Board<W, H>) -> Vec<(usize, usize)> {
    let mut cells = Vec::new();
    for y in 0..H {
        for x in 0..W {
            if board.get(x, y) {
                cells.push((x, y));
            }
        }
    }
    cells
}

fn sorted(mut cells: Vec<(usize, usize)>) -> Vec<(usize, usize)> {
    cells.sort_by_key(|&(x, y)| (y, x));
    cells
}

#[test]
fn line_from_a_cell_to_itself_sets_that_cell() {
    let mut board = Board::<5, 5>::clear();
    board.line(0, 0, 0, 0, true);
    assert_eq!(painted(&board), vec![(0, 0)]);
}

#[test]
fn line_from_a_cell_to_itself_away_from_the_corner() {
    let mut board = Board::<5, 5>::clear();
    board.line(3, 2, 3, 2, true);
    assert_eq!(painted(&board), vec![(3, 2)]);
}

#[test]
fn line_along_a_row_sets_a_run_of_cells() {
    let mut board = Board::<5, 5>::clear();
    board.line(0, 0, 3, 0, true);
    assert_eq!(painted(&board), vec![(0, 0), (1, 0), (2, 0), (3, 0)]);
}

#[test]
fn line_along_a_row_from_right_to_left() {
    let mut board = Board::<6, 3>::clear();
    board.line(5, 1, 2, 1, true);
    assert_eq!(painted(&board), vec![(2, 1), (3, 1), (4, 1), (5, 1)]);
}

#[test]
fn line_along_a_column() {
    let mut board = Board::<4, 8>::clear();
    board.line(3, 7, 3, 2, true);
    assert_eq!(painted(&board), vec![(3, 2), (3, 3), (3, 4), (3, 5), (3, 6), (3, 7)]);
}

#[test]
fn line_along_the_diagonal() {
    let mut board = Board::<6, 6>::clear();
    board.line(0, 0, 5, 5, true);
    assert_eq!(painted(&board), vec![(0, 0), (1, 1), (2, 2), (3, 3), (4, 4), (5, 5)]);
}

#[test]
fn line_rounds_a_half_away_from_its_start() {
    let mut board = Board::<5, 3>::clear();
    board.line(0, 0, 4, 2, true);
    assert_eq!(painted(&board), sorted(vec![(0, 0), (1, 1), (2, 1), (3, 2), (4, 2)]));

    let mut back = Board::<5, 3>::clear();
    back.line(4, 2, 0, 0, true);
    assert_eq!(painted(&back), sorted(vec![(4, 2), (3, 1), (2, 1), (1, 0), (0, 0)]));
}

#[test]
fn line_with_a_gentle_slope() {
    let mut board = Board::<8, 4>::clear();
    board.line(0, 0, 7, 3, true);
    assert_eq!(
        painted(&board),
        sorted(vec![(0, 0), (1, 0), (2, 1), (3, 1), (4, 2), (5, 2), (6, 3), (7, 3)])
    );
}

#[test]
fn line_with_a_steep_slope_up_and_left() {
    let mut board = Board::<10, 10>::clear();
    board.line(9, 9, 2, 4, true);
    assert_eq!(
        painted(&board),
        sorted(vec![(9, 9), (8, 8), (7, 8), (6, 7), (5, 6), (4, 5), (3, 5), (2, 4)])
    );
}

#[test]
fn line_down_and_left() {
    let mut board = Board::<7, 5>::clear();
    board.line(6, 1, 0, 4, true);
    assert_eq!(
        painted(&board),
        sorted(vec![(6, 1), (5, 2), (4, 2), (3, 3), (2, 3), (1, 4), (0, 4)])
    );
}

#[test]
fn line_erases_with_false() {
    let mut board = Board::<4, 2>::generate(|_, _| true);
    board.line(0, 1, 3, 1, false);
    assert_eq!(painted(&board), vec![(0, 0), (1, 0), (2, 0), (3, 0)]);
}

#[test]
fn line_leaves_other_cells_as_they_were() {
    let mut board = Board::<4, 3>::clear();
    board.set(0, 2, true);
    board.set(3, 0, true);
    board.line(1, 1, 2, 1, true);
    assert_eq!(painted(&board), vec![(3, 0), (1, 1), (2, 1), (0, 2)]);
}

#[test]
fn line_has_no_gaps() {
    let mut board = Board::<160, 90>::clear();
    board.line(3, 80, 150, 7, true);
    let cells = painted(&board);
    assert_eq!(cells.len(), 148);
    for x in 3..=150usize {
        assert_eq!(cells.iter().filter(|cell| cell.0 == x).count(), 1);
    }
    assert!(board.get(3, 80));
    assert!(board.get(150, 7));
}

#[test]
fn coordinate_along_rounds_to_the_nearest_cell() {
    let there: Vec<usize> = (0..=7).map(|i| coordinate_along(0, 10, 7, i)).collect();
    assert_eq!(there, vec![0, 1, 3, 4, 6, 7, 9, 10]);
    let back: Vec<usize> = (0..=7).map(|i| coordinate_along(10, 0, 7, i)).collect();
    assert_eq!(back, vec![10, 9, 7, 6, 4, 3, 1, 0]);
}

#[test]
fn coordinate_along_stays_put_without_steps() {
    assert_eq!(coordinate_along(4, 4, 0, 0), 4);
    assert_eq!(coordinate_along(4, 4, 9, 5), 4);
}

#[test]
fn coordinate_along_takes_large_coordinates() {
    let far = usize::MAX - 1;
    assert_eq!(coordinate_along(0, far, far, far), far);
    assert_eq!(coordinate_along(far, 0, far, far), 0);
    assert_eq!(coordinate_along(0, far, far, 1), 1);
}
