//! A position in the rows of a table.

use vstd::prelude::*;

verus! {

/// Where a cursor is to start.
pub enum CursorPosition {
    START,
    POS(usize),
    END,
}

/// Why a cursor cannot be made or moved.
#[derive(Debug, Clone, Copy, PartialEq, Eq, Structural)]
pub enum CursorError {
    /// The position is not the number of a row.
    RowNumberTooBig,
    /// The cursor stands on the last row.
    AlreadyAtEnd,
}

impl CursorError {
    /// The error in words.
    pub fn message(&self) -> (text: String)
        ensures
            text@ == match self {
                CursorError::RowNumberTooBig => "The row number is too big"@,
                CursorError::AlreadyAtEnd => "The cursor is already at the end of table"@,
            },
    {
        match self {
            CursorError::RowNumberTooBig => String::from_str("The row number is too big"),
            CursorError::AlreadyAtEnd => String::from_str(
                "The cursor is already at the end of table",
            ),
        }
    }
}

/// A position in a table: the number of a row, and whether it was the
/// last row when the cursor came to stand on it.
pub struct Cursor {
    pub row_num: usize,
    pub end_of_table: bool,
}

impl Cursor {
    /// A cursor at the given position of a table of `total_rows_number`
    /// rows. The start is row 0, the end is the last row; a row number
    /// must be the number of a row.
    pub fn new(total_rows_number: usize, cursor_position: CursorPosition) -> (r: Result<
        Self,
        CursorError,
    >)
        requires
            cursor_position is END ==> total_rows_number >= 1,
        ensures
            match cursor_position {
                CursorPosition::START => r is Ok && r->Ok_0.row_num == 0 && !r->Ok_0.end_of_table,
                CursorPosition::POS(row_num) => if row_num >= total_rows_number {
                    r == Err::<Self, CursorError>(CursorError::RowNumberTooBig)
                } else {
                    r is Ok && r->Ok_0.row_num == row_num && (r->Ok_0.end_of_table <==> row_num
                        == total_rows_number - 1)
                },
                CursorPosition::END => r is Ok && r->Ok_0.row_num == total_rows_number - 1
                    && r->Ok_0.end_of_table,
            },
    {
        match cursor_position {
            CursorPosition::START => Ok(Cursor { row_num: 0, end_of_table: false }),
            CursorPosition::POS(row_num) => {
                if row_num >= total_rows_number {
                    Err(CursorError::RowNumberTooBig)
                } else {
                    Ok(Cursor { row_num, end_of_table: row_num == total_rows_number - 1 })
                }
            },
            CursorPosition::END => Ok(
                Cursor { row_num: total_rows_number - 1, end_of_table: true },
            ),
        }
    }

    /// Moves the cursor to the next row of a table of
    /// `total_rows_number` rows and returns its number. A cursor that
    /// came to stand on the last row stays there, unless the table has
    /// grown since.
    pub fn cursor_advance(&mut self, total_rows_number: usize) -> (r: Result<usize, CursorError>)
        requires
            total_rows_number >= 1,
            old(self).row_num < usize::MAX,
        ensures
            if old(self).end_of_table && old(self).row_num >= total_rows_number - 1 {
                r == Err::<usize, CursorError>(CursorError::AlreadyAtEnd) && *final(self) == *old(
                    self,
                )
            } else {
                &&& r == Ok::<usize, CursorError>((old(self).row_num + 1) as usize)
                &&& final(self).row_num == old(self).row_num + 1
                &&& final(self).end_of_table <==> final(self).row_num == total_rows_number - 1
            },
    {
        if self.end_of_table && self.row_num >= total_rows_number - 1 {
            return Err(CursorError::AlreadyAtEnd);
        }
        self.row_num += 1;
        self.end_of_table = self.row_num == total_rows_number - 1;
        Ok(self.row_num)
    }
}

} // verus!
