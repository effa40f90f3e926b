use vstd::prelude::*;
use vstd::string::StringSliceAdditionalSpecFns;

verus! {

/// A position on the board typed by the player.
#[derive(Clone, Copy, Debug, PartialEq, Eq, Structural)]
pub struct Point {
    pub row: usize,
    pub col: usize,
}

/// Why a typed coordinate was not understood.
#[derive(Clone, Copy, Debug, PartialEq, Eq, Structural)]
pub enum ParseError {
    /// The text is not two bytes long.
    BadLength,
    /// The text is not a column letter A-H (either case) and a row digit 1-8.
    BadPattern,
}

/// The column that a letter A-H or a-h names, counted from 0.
pub open spec fn column_of(b: u8) -> Option<int> {
    if 65 <= b <= 72 {
        Some(b - 65)
    } else if 97 <= b <= 104 {
        Some(b - 97)
    } else {
        None
    }
}

/// The row that a digit 1-8 names, counted from 0.
pub open spec fn row_of(b: u8) -> Option<int> {
    if 49 <= b <= 56 {
        Some(b - 49)
    } else {
        None
    }
}

/// Reads a coordinate such as `C5` or `c5`: the letter gives the column,
/// the digit the row, both counted from 0.
pub fn get_location(input: &str) -> (r: Result<Point, ParseError>)
    ensures
        (input.spec_bytes().len() != 2) <==> r == Err::<Point, ParseError>(ParseError::BadLength),
        input.spec_bytes().len() == 2 ==> match (
            column_of(input.spec_bytes()[0]),
            row_of(input.spec_bytes()[1]),
        ) {
            (Some(c), Some(w)) => r == Ok::<Point, ParseError>(
                Point { row: w as usize, col: c as usize },
            ),
            _ => r == Err::<Point, ParseError>(ParseError::BadPattern),
        },
{
    let b = input.as_bytes();
    if b.len() != 2 {
        return Err(ParseError::BadLength);
    }
    let letter = b[0];
    let digit = b[1];
    let col: usize = if 65 <= letter && letter <= 72 {
        (letter - 65) as usize
    } else if 97 <= letter && letter <= 104 {
        (letter - 97) as usize
    } else {
        return Err(ParseError::BadPattern);
    };
    if digit < 49 || digit > 56 {
        return Err(ParseError::BadPattern);
    }
    Ok(Point { row: (digit - 49) as usize, col })
}

} // verus!
