//! A row of the table: a number, an e-mail address and a user name, the
//! two strings within the width of their columns.

use vstd::prelude::*;
use vstd::utf8::encode_utf8;

verus! {

/// The width of the column of row numbers, in bytes.
pub const COLUMN_ID_SIZE: usize = 4;

/// The width of the column of e-mail addresses, in bytes.
pub const COLUMN_EMAIL_SIZE: usize = 256;

/// The width of the column of user names, in bytes.
pub const COLUMN_USERNAME_SIZE: usize = 32;

/// A row of the table.
pub struct RowData {
    pub id: u32,
    pub email: String,
    pub user_name: String,
}

/// What a row holds, as plain mathematical values.
pub struct RowView {
    pub id: u32,
    pub email: Seq<char>,
    pub user_name: Seq<char>,
}

impl View for RowData {
    type V = RowView;

    open spec fn view(&self) -> RowView {
        RowView { id: self.id, email: self.email@, user_name: self.user_name@ }
    }
}

/// Why a row cannot be made.
#[derive(Debug, Clone, Copy, PartialEq, Eq, Structural)]
pub enum RowDataError {
    /// The e-mail address takes more bytes than its column has.
    EmailTooLong,
    /// The user name takes more bytes than its column has.
    UserNameTooLong,
}

impl RowDataError {
    /// The error in words.
    pub fn message(&self) -> (text: String)
        ensures
            text@ == match self {
                RowDataError::EmailTooLong => "The user's mail is too long"@,
                RowDataError::UserNameTooLong => "The username is too long"@,
            },
    {
        match self {
            RowDataError::EmailTooLong => String::from_str("The user's mail is too long"),
            RowDataError::UserNameTooLong => String::from_str("The username is too long"),
        }
    }
}

/// How many bytes a string takes.
pub open spec fn byte_len(s: Seq<char>) -> nat {
    encode_utf8(s).len()
}

impl RowData {
    /// The two strings fit their columns.
    pub open spec fn fits(&self) -> bool {
        byte_len(self.email@) <= COLUMN_EMAIL_SIZE && byte_len(self.user_name@)
            <= COLUMN_USERNAME_SIZE
    }

    /// A row with copies of the two strings, unless one of them is longer
    /// than its column; the e-mail address is looked at first.
    pub fn new(id: u32, email: &String, user_name: &String) -> (r: Result<RowData, RowDataError>)
        ensures
            match r {
                Ok(row) => {
                    &&& byte_len(email@) <= COLUMN_EMAIL_SIZE
                    &&& byte_len(user_name@) <= COLUMN_USERNAME_SIZE
                    &&& row.id == id
                    &&& row.email@ == email@
                    &&& row.user_name@ == user_name@
                    &&& row.fits()
                },
                Err(e) => if byte_len(email@) > COLUMN_EMAIL_SIZE {
                    e == RowDataError::EmailTooLong
                } else {
                    byte_len(user_name@) > COLUMN_USERNAME_SIZE && e
                        == RowDataError::UserNameTooLong
                },
            },
    {
        if email.as_str().as_bytes().len() > COLUMN_EMAIL_SIZE {
            return Err(RowDataError::EmailTooLong);
        }
        if user_name.as_str().as_bytes().len() > COLUMN_USERNAME_SIZE {
            return Err(RowDataError::UserNameTooLong);
        }
        Ok(RowData { id, email: email.clone(), user_name: user_name.clone() })
    }
}

} // verus!
