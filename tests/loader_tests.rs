use sudoku_solver::board::{solve, Board};
use sudoku_solver::loader::{parse_cell, LoadError};

const PASS: &str = "\
0,7,3,8,0,4,2,1,6
0,0,0,2,0,9,5,0,0
2,8,5,6,0,3,0,9,7
0,0,0,3,0,0,0,7,4
7,5,0,0,0,0,3,0,1
0,0,4,0,2,0,0,0,0
0,9,7,5,6,0,0,0,0
0,0,0,7,0,0,1,0,0
4,2,0,0,3,0,0,6,0
";

fn pass_board() -> Board {
    Board::new(&[
        [0, 7, 3, 8, 0, 4, 2, 1, 6],
        [0, 0, 0, 2, 0, 9, 5, 0, 0],
        [2, 8, 5, 6, 0, 3, 0, 9, 7],
        [0, 0, 0, 3, 0, 0, 0, 7, 4],
        [7, 5, 0, 0, 0, 0, 3, 0, 1],
        [0, 0, 4, 0, 2, 0, 0, 0, 0],
        [0, 9, 7, 5, 6, 0, 0, 0, 0],
        [0, 0, 0, 7, 0, 0, 1, 0, 0],
        [4, 2, 0, 0, 3, 0, 0, 6, 0],
    ])
}

fn rows(text: &str) -> Vec<Option<Vec<String>>> {
    text.lines()
        .map(|l| Some(l.split(',').map(String::from).collect()))
        .collect()
}

#[test]
fn test_from_csv() {
    let board = Board::from_csv_bytes(PASS.as_bytes()).unwrap();
    assert_eq!(board, pass_board());
}

#[test]
fn test_invalid_non_int() {
    let text = PASS.replacen("0,7,3", "0,x,3", 1);
    let board = Board::from_csv_bytes(text.as_bytes());
    assert_eq!(board, Err(LoadError::NotAnInteger));
    assert_eq!(
        board.unwrap_err().message(),
        "Invalid csv file. Only int numbers allowed"
    );
}

#[test]
fn test_invalid_8_lines() {
    let text: String = PASS.lines().take(8).map(|l| format!("{}\n", l)).collect();
    let board = Board::from_csv_bytes(text.as_bytes());
    assert_eq!(board, Err(LoadError::WrongDimensions));
    assert_eq!(
        board.unwrap_err().message(),
        "Invalid csv file. Only 9x9 boards allowed"
    );
}

#[test]
fn test_invalid_column() {
    let text: String = PASS
        .lines()
        .map(|l| format!("{}\n", &l[..l.len() - 2]))
        .collect();
    let board = Board::from_csv_bytes(text.as_bytes());
    assert_eq!(board, Err(LoadError::WrongDimensions));
    assert_eq!(
        board.unwrap_err().message(),
        "Invalid csv file. Only 9x9 boards allowed"
    );
}

#[test]
fn test_invalid_sudoku() {
    let text = PASS.replacen("0,7,3,8", "7,7,3,8", 1);
    let board = Board::from_csv_bytes(text.as_bytes());
    assert_eq!(board, Err(LoadError::RuleViolation));
    assert_eq!(
        board.unwrap_err().message(),
        "Invalid Board: Board does not satisfy sudoku rules"
    );
}

#[test]
fn test_pass() {
    let mut board = Board::from_csv_bytes(PASS.as_bytes()).unwrap();
    solve(&mut board);
    assert_eq!(
        board,
        Board::new(&[
            [9, 7, 3, 8, 5, 4, 2, 1, 6],
            [1, 4, 6, 2, 7, 9, 5, 8, 3],
            [2, 8, 5, 6, 1, 3, 4, 9, 7],
            [8, 1, 2, 3, 9, 5, 6, 7, 4],
            [7, 5, 9, 4, 8, 6, 3, 2, 1],
            [6, 3, 4, 1, 2, 7, 9, 5, 8],
            [3, 9, 7, 5, 6, 1, 8, 4, 2],
            [5, 6, 8, 7, 4, 2, 1, 3, 9],
            [4, 2, 1, 9, 3, 8, 7, 6, 5]
        ])
    )
}

#[test]
fn fields_are_trimmed() {
    let text = PASS.replacen("0,7,3,8", " 0 ,\t7, 3,8 ", 1);
    assert_eq!(Board::from_csv_bytes(text.as_bytes()), Ok(pass_board()));
}

#[test]
fn parse_cell_values() {
    assert_eq!(parse_cell("0"), Ok(0));
    assert_eq!(parse_cell(" 9 "), Ok(9));
    assert_eq!(parse_cell("+5"), Ok(5));
    assert_eq!(parse_cell("007"), Ok(7));
    assert_eq!(parse_cell("10"), Err(LoadError::OutOfRange));
    assert_eq!(parse_cell("255"), Err(LoadError::OutOfRange));
    assert_eq!(parse_cell("256"), Err(LoadError::NotAnInteger));
    assert_eq!(parse_cell("-1"), Err(LoadError::NotAnInteger));
    assert_eq!(parse_cell(""), Err(LoadError::NotAnInteger));
    assert_eq!(parse_cell("+"), Err(LoadError::NotAnInteger));
    assert_eq!(parse_cell("4.0"), Err(LoadError::NotAnInteger));
}

#[test]
fn out_of_range_field_is_reported() {
    let text = PASS.replacen("0,7,3", "0,12,3", 1);
    let board = Board::from_csv_bytes(text.as_bytes());
    assert_eq!(board, Err(LoadError::OutOfRange));
    assert_eq!(
        board.unwrap_err().message(),
        "Invalid csv file. Only numbers between 0 and 9 allowed"
    );
}

#[test]
fn ten_rows_are_refused() {
    let text = format!("{}0,0,0,0,0,0,0,0,0\n", PASS);
    assert_eq!(
        Board::from_csv_bytes(text.as_bytes()),
        Err(LoadError::WrongDimensions)
    );
}

#[test]
fn a_short_later_row_is_unreadable() {
    // The reader expects every record to have as many fields as the first.
    let text = PASS.replacen("0,0,0,2,0,9,5,0,0", "0,0,0,2,0,9,5,0", 1);
    assert_eq!(
        Board::from_csv_bytes(text.as_bytes()),
        Err(LoadError::Unreadable)
    );
}

#[test]
fn records_report_first_error_in_order() {
    let mut recs = rows(PASS);
    recs[2] = None;
    assert_eq!(Board::from_records(&recs), Err(LoadError::Unreadable));
    let mut recs = rows(PASS);
    recs[1] = Some(vec!["a".to_string(); 9]);
    recs[2] = None;
    assert_eq!(Board::from_records(&recs), Err(LoadError::NotAnInteger));
    let mut recs = rows(PASS);
    recs[0] = Some(vec!["1".to_string(); 9]);
    assert_eq!(Board::from_records(&recs), Err(LoadError::RuleViolation));
    assert_eq!(Board::from_records(&rows(PASS)), Ok(pass_board()));
    assert_eq!(Board::from_records(&Vec::new()), Err(LoadError::WrongDimensions));
}

#[test]
fn duplicate_in_row_never_reaches_the_solver() {
    let text = PASS.replacen("4,2,0,0,3", "4,2,0,0,4", 1);
    assert_eq!(
        Board::from_csv_bytes(text.as_bytes()),
        Err(LoadError::RuleViolation)
    );
}
