use sudoku_solver::board::{solve, Board, Index};

fn make_board() -> Board {
    Board::new(&[
        [0, 0, 3, 4, 0, 7, 0, 6, 0],
        [7, 0, 0, 0, 0, 0, 0, 4, 0],
        [0, 0, 0, 0, 1, 0, 2, 5, 0],
        [4, 8, 0, 3, 0, 0, 1, 0, 0],
        [0, 5, 0, 0, 0, 0, 0, 0, 2],
        [0, 6, 0, 0, 2, 0, 0, 0, 0],
        [0, 9, 0, 1, 0, 5, 0, 0, 8],
        [1, 0, 0, 6, 0, 0, 0, 0, 5],
        [0, 0, 0, 0, 0, 0, 4, 0, 0],
    ])
}

fn solved_grid() -> [[u8; 9]; 9] {
    [
        [5, 2, 3, 4, 8, 7, 9, 6, 1],
        [7, 1, 9, 5, 6, 2, 8, 4, 3],
        [8, 4, 6, 9, 1, 3, 2, 5, 7],
        [4, 8, 2, 3, 5, 9, 1, 7, 6],
        [9, 5, 1, 7, 4, 6, 3, 8, 2],
        [3, 6, 7, 8, 2, 1, 5, 9, 4],
        [2, 9, 4, 1, 7, 5, 6, 3, 8],
        [1, 3, 8, 6, 9, 4, 7, 2, 5],
        [6, 7, 5, 2, 3, 8, 4, 1, 9],
    ]
}

fn make_solved_board() -> Board {
    Board::new(&solved_grid())
}

#[test]
fn test_get_cell() {
    let board = make_board();
    assert_eq!(board.get_cell(&Index(3, 6)), Some(1));
    assert_eq!(board.get_cell(&Index(0, 2)), Some(3));
    assert_eq!(board.get_cell(&Index(8, 8)), None);
}

#[test]
fn test_get_row() {
    let board = make_board();
    assert_eq!(
        board.get_row(3),
        [Some(4), Some(8), None, Some(3), None, None, Some(1), None, None]
    );
}

#[test]
fn test_get_column() {
    let board = make_board();
    assert_eq!(
        board.get_column(5),
        [Some(7), None, None, None, None, None, Some(5), None, None]
    )
}

#[test]
fn test_get_subgrid() {
    let board = make_board();
    assert_eq!(
        board.get_subgrid(&Index(5, 5)),
        [Some(3), None, None, None, None, None, None, Some(2), None]
    )
}

#[test]
fn test_valid_entry() {
    let mut board = make_board();
    assert!(board.is_valid_entry(&Index(0, 2)));
    board.update_cell(&Index(0, 0), 3);
    assert!(!board.is_valid_entry(&Index(0, 0)));
}

#[test]
fn test_valid_board() {
    let board = make_board();
    assert!(board.is_valid_board());
}

#[test]
fn test_complete() {
    let complete = make_solved_board();
    assert!(complete.is_complete());
}

#[test]
fn test_solve_mut() {
    let mut board = make_board();
    let solved_board = make_solved_board();
    let experimental_solution = solve(&mut board).unwrap_or_else(|| {
        panic!("this should not happen because we know the board is solvable")
    });

    assert_eq!(experimental_solution, solved_board);
}

#[test]
fn new_maps_zero_to_empty_and_keeps_digits() {
    let raw = [
        [0, 0, 3, 4, 0, 7, 0, 6, 0],
        [7, 0, 0, 0, 0, 0, 0, 4, 0],
        [0, 0, 0, 0, 1, 0, 2, 5, 0],
        [4, 8, 0, 3, 0, 0, 1, 0, 0],
        [0, 5, 0, 0, 0, 0, 0, 0, 2],
        [0, 6, 0, 0, 2, 0, 0, 0, 0],
        [0, 9, 0, 1, 0, 5, 0, 0, 8],
        [1, 0, 0, 6, 0, 0, 0, 0, 5],
        [0, 0, 0, 0, 0, 0, 4, 0, 0],
    ];
    let board = Board::new(&raw);
    for i in 0..9 {
        for j in 0..9 {
            let expected = if raw[i][j] == 0 { None } else { Some(raw[i][j]) };
            assert_eq!(board.get_cell(&Index(i, j)), expected);
        }
    }
}

#[test]
fn update_cell_writes_and_clears() {
    let mut board = make_board();
    board.update_cell(&Index(8, 8), 9);
    assert_eq!(board.get_cell(&Index(8, 8)), Some(9));
    board.update_cell(&Index(8, 8), 0);
    assert_eq!(board.get_cell(&Index(8, 8)), None);
    assert_eq!(board, make_board());
}

#[test]
fn empty_board_is_valid_and_not_complete() {
    let board = Board::new(&[[0; 9]; 9]);
    assert!(board.is_valid_board());
    assert!(!board.is_complete());
    assert_eq!(board.valid_entries(&Index(4, 4)), [true; 9]);
}

#[test]
fn duplicate_in_column_is_invalid() {
    let mut board = make_board();
    // 7 stands at (1, 0); (5, 0) is empty and in another box.
    board.update_cell(&Index(5, 0), 7);
    assert!(!board.is_valid_entry(&Index(5, 0)));
    assert!(!board.is_valid_entry(&Index(1, 0)));
    assert!(!board.is_valid_board());
}

#[test]
fn duplicate_in_box_only_is_invalid() {
    let mut board = make_board();
    // 3 stands at (0, 2); (1, 1) shares only its box.
    board.update_cell(&Index(1, 1), 3);
    assert!(!board.is_valid_entry(&Index(1, 1)));
    assert!(!board.is_valid_board());
}

#[test]
fn valid_entries_exclude_row_column_and_box() {
    let board = make_board();
    // Row 0 holds 3 4 6 7, column 0 holds 1 4 7, the box holds 3 7.
    assert_eq!(
        board.valid_entries(&Index(0, 0)),
        [false, true, false, false, true, false, false, true, true]
    );
    // Row 4 holds 2 5, column 4 holds 1 2, the box holds 2 3.
    assert_eq!(
        board.valid_entries(&Index(4, 4)),
        [false, false, false, true, false, true, true, true, true]
    );
}

#[test]
fn next_empty_is_first_in_row_major_order() {
    let board = make_board();
    let idx = board.next_empty().unwrap();
    assert_eq!((idx.0, idx.1), (0, 0));
    let mut solved = make_solved_board();
    assert!(solved.next_empty().is_none());
    solved.update_cell(&Index(4, 7), 0);
    solved.update_cell(&Index(6, 2), 0);
    let idx = solved.next_empty().unwrap();
    assert_eq!((idx.0, idx.1), (4, 7));
}

#[test]
fn solve_complete_board_returns_it_unchanged() {
    let mut board = make_solved_board();
    let result = solve(&mut board);
    assert_eq!(result, Some(make_solved_board()));
    assert_eq!(board, make_solved_board());
}

#[test]
fn solve_invalid_board_finds_nothing_and_restores_it() {
    let mut raw = solved_grid();
    // Two 5s in row 0, and a few cells left to fill.
    raw[0][1] = 5;
    raw[8][8] = 0;
    raw[7][0] = 0;
    let original = Board::new(&raw);
    let mut board = Board::new(&raw);
    assert!(!board.is_valid_board());
    assert_eq!(solve(&mut board), None);
    assert_eq!(board, original);
}

#[test]
fn solve_full_invalid_board_finds_nothing() {
    let mut raw = solved_grid();
    raw[0][0] = 2;
    let mut board = Board::new(&raw);
    assert_eq!(solve(&mut board), None);
}

#[test]
fn solve_unsolvable_valid_board_finds_nothing() {
    // (0, 0) sees 1–8 in its row and 9 in its column.
    let mut raw = [[0u8; 9]; 9];
    for j in 1..9 {
        raw[0][j] = j as u8;
    }
    raw[3][0] = 9;
    let original = Board::new(&raw);
    let mut board = Board::new(&raw);
    assert!(board.is_valid_board());
    assert_eq!(board.valid_entries(&Index(0, 0)), [false; 9]);
    assert_eq!(solve(&mut board), None);
    assert_eq!(board, original);
}

#[test]
fn solution_keeps_givens_and_fills_every_unit() {
    let original = make_board();
    let mut board = make_board();
    let s = solve(&mut board).unwrap();
    assert!(s.is_complete());
    assert!(s.is_valid_board());
    for i in 0..9 {
        let mut row = s.get_row(i).to_vec();
        let mut col = s.get_column(i).to_vec();
        let mut sub = s.get_subgrid(&Index(i / 3 * 3, i % 3 * 3)).to_vec();
        row.sort();
        col.sort();
        sub.sort();
        let all: Vec<Option<u8>> = (1..=9).map(Some).collect();
        assert_eq!(row, all);
        assert_eq!(col, all);
        assert_eq!(sub, all);
        for j in 0..9 {
            if let Some(d) = original.get_cell(&Index(i, j)) {
                assert_eq!(s.get_cell(&Index(i, j)), Some(d));
            }
        }
    }
}

#[test]
fn solve_twice_gives_the_same_solution() {
    let mut first = make_board();
    let mut second = make_board();
    let a = solve(&mut first);
    let b = solve(&mut second);
    assert!(a.is_some());
    assert_eq!(a, b);
    assert_eq!(first, second);
}

#[test]
fn render_draws_boxes_and_blanks() {
    let board = make_board();
    let expected = "\
-------------------------
|     3 | 4   7 |   6   |
| 7     |       |   4   |
|       |   1   | 2 5   |
-------------------------
| 4 8   | 3     | 1     |
|   5   |       |     2 |
|   6   |   2   |       |
-------------------------
|   9   | 1   5 |     8 |
| 1     | 6     |     5 |
|       |       | 4     |
-------------------------
";
    assert_eq!(board.render(), expected);
}
