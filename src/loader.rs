//! Loading a board from comma-separated text: nine records of nine fields,
//! each field an integer 0–9 once surrounding whitespace is trimmed.
use crate::board::{cell_of, grid_wf, in_range, valid_grid, Board, Grid};
use vstd::prelude::*;

verus! {

/// Why a board could not be loaded.
#[derive(Clone, Copy, PartialEq, Eq, Debug)]
pub enum LoadError {
    /// A record of the text could not be read.
    Unreadable,
    /// Not nine records, or a record without nine fields.
    WrongDimensions,
    /// A field is not an unsigned integer.
    NotAnInteger,
    /// A field is an integer above 9.
    OutOfRange,
    /// The grid is well formed but a digit stands twice in a row, a column or a box.
    RuleViolation,
}

/// The message that reports an error to a user.
pub open spec fn message_of(e: LoadError) -> Seq<char> {
    match e {
        LoadError::Unreadable => "Unreadable csv"@,
        LoadError::WrongDimensions => "Invalid csv file. Only 9x9 boards allowed"@,
        LoadError::NotAnInteger => "Invalid csv file. Only int numbers allowed"@,
        LoadError::OutOfRange => "Invalid csv file. Only numbers between 0 and 9 allowed"@,
        LoadError::RuleViolation => "Invalid Board: Board does not satisfy sudoku rules"@,
    }
}

impl LoadError {
    /// The message that reports this error to a user.
    pub fn message(&self) -> (r: &'static str)
        ensures
            r@ == message_of(*self),
    {
        match self {
            LoadError::Unreadable => "Unreadable csv",
            LoadError::WrongDimensions => "Invalid csv file. Only 9x9 boards allowed",
            LoadError::NotAnInteger => "Invalid csv file. Only int numbers allowed",
            LoadError::OutOfRange => "Invalid csv file. Only numbers between 0 and 9 allowed",
            LoadError::RuleViolation => "Invalid Board: Board does not satisfy sudoku rules",
        }
    }
}

/// The records that a CSV reader without a header row reads from `bytes`:
/// the fields of each record, or `None` for a record that it could not read.
pub uninterp spec fn csv_records_of(bytes: Seq<u8>) -> Seq<Option<Seq<Seq<char>>>>;

/// `s` without its leading and trailing whitespace.
pub uninterp spec fn trimmed(s: Seq<char>) -> Seq<char>;

/// The model of a read record: the text of each field.
pub open spec fn record_view(rec: Option<Vec<String>>) -> Option<Seq<Seq<char>>> {
    match rec {
        Some(fields) => Some(fields@.map_values(|f: String| f@)),
        None => None,
    }
}

/// The model of read records.
pub open spec fn records_view(recs: Seq<Option<Vec<String>>>) -> Seq<Option<Seq<Seq<char>>>> {
    recs.map_values(|rec: Option<Vec<String>>| record_view(rec))
}

/// Relies on csv's `ReaderBuilder::from_reader` and `Reader::records`, with
/// no header row: the records that it reads from the bytes, in order.
#[verifier::external_body]
fn read_records(bytes: &[u8]) -> (r: Vec<Option<Vec<String>>>)
    ensures
        records_view(r@) == csv_records_of(bytes@),
{
    let mut reader = csv::ReaderBuilder::new().has_headers(false).from_reader(bytes);
    reader.records().map(|rec| rec.ok().map(|rec| rec.iter().map(String::from).collect())).collect()
}

/// Relies on `str::trim`: the text without leading and trailing whitespace.
#[verifier::external_body]
fn trim_text(s: &str) -> (r: &str)
    ensures
        r@ == trimmed(s@),
{
    s.trim()
}

/// Every character of `s` is an ASCII decimal digit.
pub open spec fn all_digits(s: Seq<char>) -> bool {
    forall|i: int| 0 <= i < s.len() ==> '0' <= #[trigger] s[i] <= '9'
}

/// The value of a string of decimal digits.
pub open spec fn digits_value(s: Seq<char>) -> int
    decreases s.len(),
{
    if s.len() == 0 {
        0
    } else {
        10 * digits_value(s.drop_last()) + (s.last() as int - '0' as int)
    }
}

/// The digits of an unsigned integer's text: the text after an optional `+`.
pub open spec fn unsigned_digits(s: Seq<char>) -> Seq<char> {
    if s.len() > 0 && s[0] == '+' {
        s.subrange(1, s.len() as int)
    } else {
        s
    }
}

/// The `u8` that `s` writes in decimal: an optional `+`, then one digit or
/// more, of value at most 255.
pub open spec fn u8_of_text(s: Seq<char>) -> Option<u8> {
    let d = unsigned_digits(s);
    if d.len() > 0 && all_digits(d) && digits_value(d) <= 255 {
        Some(digits_value(d) as u8)
    } else {
        None
    }
}

/// Relies on `<u8 as FromStr>::from_str`: an optional `+` and decimal digits
/// whose value fits in a `u8`; anything else is an error.
#[verifier::external_body]
fn parse_u8(s: &str) -> (r: Option<u8>)
    ensures
        r == u8_of_text(s@),
{
    s.parse::<u8>().ok()
}

/// What a field stands for: its integer, or why it is refused.
pub open spec fn field_value(f: Seq<char>) -> Result<u8, LoadError> {
    match u8_of_text(trimmed(f)) {
        None => Err(LoadError::NotAnInteger),
        Some(v) => if v > 9 {
            Err(LoadError::OutOfRange)
        } else {
            Ok(v)
        },
    }
}

/// The first refused field of a record from position `j` on, if any.
pub open spec fn fields_error(fields: Seq<Seq<char>>, j: int) -> Option<LoadError>
    decreases fields.len() - j,
{
    if j < 0 || j >= fields.len() {
        None
    } else {
        match field_value(fields[j]) {
            Err(e) => Some(e),
            Ok(_) => fields_error(fields, j + 1),
        }
    }
}

/// The first error among the records from position `i` on, taken in order; a
/// count of records other than nine is reported once the nine rows are read.
pub open spec fn records_error(recs: Seq<Option<Seq<Seq<char>>>>, i: int) -> Option<LoadError>
    decreases recs.len() - i,
{
    if i < 0 || i >= recs.len() {
        if recs.len() == 9 {
            None
        } else {
            Some(LoadError::WrongDimensions)
        }
    } else if i >= 9 {
        Some(LoadError::WrongDimensions)
    } else {
        match recs[i] {
            None => Some(LoadError::Unreadable),
            Some(fields) => if fields.len() != 9 {
                Some(LoadError::WrongDimensions)
            } else {
                match fields_error(fields, 0) {
                    Some(e) => Some(e),
                    None => records_error(recs, i + 1),
                }
            },
        }
    }
}

/// The grid that nine records of nine accepted fields stand for.
pub open spec fn grid_of(recs: Seq<Option<Seq<Seq<char>>>>) -> Grid {
    Seq::new(
        9,
        |i: int| Seq::new(9, |j: int| cell_of(field_value(recs[i]->0[j])->Ok_0)),
    )
}

/// What loading the records gives: the first error in reading order, else
/// the board if it satisfies the rules.
pub open spec fn load_outcome(recs: Seq<Option<Seq<Seq<char>>>>) -> Result<Grid, LoadError> {
    match records_error(recs, 0) {
        Some(e) => Err(e),
        None => if valid_grid(grid_of(recs)) {
            Ok(grid_of(recs))
        } else {
            Err(LoadError::RuleViolation)
        },
    }
}

/// Reads one field: its integer, or why it is refused.
pub fn parse_cell(field: &str) -> (r: Result<u8, LoadError>)
    ensures
        r == field_value(field@),
{
    match parse_u8(trim_text(field)) {
        None => Err(LoadError::NotAnInteger),
        Some(v) => if v > 9 {
            Err(LoadError::OutOfRange)
        } else {
            Ok(v)
        },
    }
}

/// Reads the records into a grid of raw values, 0 standing for an empty cell,
/// or reports the first error in reading order.
pub fn grid_from_records(records: &Vec<Option<Vec<String>>>) -> (r: Result<[[u8; 9]; 9], LoadError>)
    ensures
        match r {
            Ok(raw) => {
                &&& records_error(records_view(records@), 0) is None
                &&& forall|i: int, j: int| in_range(i, j) ==> #[trigger] raw@[i]@[j] <= 9
                &&& forall|i: int, j: int|
                    in_range(i, j) ==> #[trigger] cell_of(raw@[i]@[j]) == grid_of(
                        records_view(records@),
                    )[i][j]
            },
            Err(e) => records_error(records_view(records@), 0) == Some(e),
        },
{
    let ghost recs = records_view(records@);
    let mut raw: [[u8; 9]; 9] = [[0; 9]; 9];
    let mut i: usize = 0;
    while i < records.len()
        invariant
            0 <= i <= records.len(),
            i <= 9,
            recs == records_view(records@),
            records_error(recs, 0) == records_error(recs, i as int),
            forall|a: int, b: int|
                0 <= a < i && 0 <= b < 9 ==> #[trigger] raw@[a]@[b] == field_value(recs[a]->0[b])->Ok_0
                    && raw@[a]@[b] <= 9,
        decreases records.len() - i,
    {
        if i >= 9 {
            return Err(LoadError::WrongDimensions);
        }
        assert(recs[i as int] == record_view(records@[i as int]));
        let fields = match &records[i] {
            None => {
                return Err(LoadError::Unreadable);
            },
            Some(fields) => fields,
        };
        let ghost text = recs[i as int]->0;
        if fields.len() != 9 {
            return Err(LoadError::WrongDimensions);
        }
        let mut row: [u8; 9] = [0; 9];
        let mut j: usize = 0;
        while j < 9
            invariant
                0 <= j <= 9,
                i < 9,
                fields@.len() == 9,
                text == record_view(Some(*fields))->0,
                i < records.len(),
                records@[i as int] == Some(*fields),
                recs == records_view(records@),
                records_error(recs, 0) == records_error(recs, i as int),
                forall|a: int, b: int|
                    0 <= a < i && 0 <= b < 9 ==> #[trigger] raw@[a]@[b] == field_value(
                        recs[a]->0[b],
                    )->Ok_0 && raw@[a]@[b] <= 9,
                fields_error(text, 0) == fields_error(text, j as int),
                forall|b: int|
                    0 <= b < j ==> #[trigger] row@[b] == field_value(text[b])->Ok_0 && row@[b] <= 9,
            decreases 9 - j,
        {
            let v = parse_cell(fields[j].as_str());
            assert(text[j as int] == fields@[j as int]@);
            match v {
                Err(e) => {
                    return Err(e);
                },
                Ok(v) => {
                    row[j] = v;
                },
            }
            j += 1;
        }
        raw[i] = row;
        i += 1;
    }
    if i != 9 {
        return Err(LoadError::WrongDimensions);
    }
    Ok(raw)
}

impl Board {
    /// Loads a board from read records: nine records of nine fields, each an
    /// integer 0–9, whose digits satisfy the rules.
    pub fn from_records(records: &Vec<Option<Vec<String>>>) -> (r: Result<Board, LoadError>)
        ensures
            match r {
                Ok(b) => b.wf() && load_outcome(records_view(records@)) == Ok::<Grid, LoadError>(b@),
                Err(e) => load_outcome(records_view(records@)) == Err::<Grid, LoadError>(e),
            },
    {
        let raw = grid_from_records(records)?;
        let board = Board::new(&raw);
        assert(board@ =~~= grid_of(records_view(records@)));
        if !board.is_valid_board() {
            return Err(LoadError::RuleViolation);
        }
        Ok(board)
    }

    /// Loads a board from the bytes of comma-separated text without a header
    /// row.
    pub fn from_csv_bytes(bytes: &[u8]) -> (r: Result<Board, LoadError>)
        ensures
            match r {
                Ok(b) => b.wf() && load_outcome(csv_records_of(bytes@)) == Ok::<Grid, LoadError>(b@),
                Err(e) => load_outcome(csv_records_of(bytes@)) == Err::<Grid, LoadError>(e),
            },
    {
        let records = read_records(bytes);
        Board::from_records(&records)
    }
}

} // verus!
