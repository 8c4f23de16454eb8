//! The table: its pages and the counter that numbers its rows.

use crate::database::indexer::Indexer;
use crate::database::page::{PAGE_SIZE, PageView};
use crate::database::pager::{Pager, pages_with_row};
use crate::database::row_data::{
    byte_len, COLUMN_EMAIL_SIZE, COLUMN_USERNAME_SIZE, RowData, RowDataError, RowView,
};
use crate::repl::statement::{InsertStatement, Statement};
use vstd::prelude::*;

verus! {

/// How many pages a table is meant to have at most.
pub const TABLE_MAX_PAGES: usize = 100;

/// A table of rows.
pub struct Table {
    pager: Pager,
    indexer: Indexer,
    max_num_rows: usize,
}

/// What a statement did.
#[derive(Debug, Clone, Copy, PartialEq, Eq, Structural)]
pub enum StatementOutcome {
    /// A row was inserted; the page that took it holds this many rows.
    Inserted(usize),
    /// All rows were asked for; the caller shows them.
    Selected,
}

impl Table {
    /// The pages of the table.
    pub closed spec fn pages(&self) -> Seq<PageView> {
        self.pager@
    }

    /// The number of the next row.
    pub closed spec fn next_index(&self) -> u32 {
        self.indexer@
    }

    /// The largest number of rows that the table is meant for.
    pub closed spec fn max_num_rows(&self) -> usize {
        self.max_num_rows
    }

    /// The pages are well formed.
    pub closed spec fn wf(&self) -> bool {
        self.pager.wf()
    }

    /// A table over the pages of `pager`; its rows are numbered on from
    /// the last row of the last page, or from 1.
    pub fn new(pager: Pager) -> (table: Self)
        requires
            pager.wf(),
            pager@.len() > 0 ==> pager@.last().last_idx < u32::MAX,
        ensures
            table.wf(),
            table.pages() == pager@,
            table.max_num_rows() == PAGE_SIZE * TABLE_MAX_PAGES,
            table.next_index() == if pager@.len() == 0 {
                1
            } else {
                pager@.last().last_idx + 1
            },
    {
        let last_saved_index = match pager.get_last_saved_index() {
            Some(last) => last,
            None => 0,
        };
        Table {
            pager,
            indexer: Indexer::new(Some(last_saved_index)),
            max_num_rows: PAGE_SIZE * TABLE_MAX_PAGES,
        }
    }

    /// Whether the table has a number left for another row.
    pub fn has_next_index(&self) -> (b: bool)
        ensures
            b == (self.next_index() < u32::MAX),
    {
        self.indexer.has_next_index()
    }

    /// Inserts a row with the next number and the strings of the
    /// statement. The number is used up even where the strings do not fit
    /// their columns.
    pub fn insert(&mut self, insert_statement: &InsertStatement) -> (r: Result<usize, RowDataError>)
        requires
            old(self).wf(),
            old(self).next_index() < u32::MAX,
        ensures
            final(self).wf(),
            final(self).next_index() == old(self).next_index() + 1,
            final(self).max_num_rows() == old(self).max_num_rows(),
            match r {
                Ok(num_rows) => {
                    &&& byte_len(insert_statement.email@) <= COLUMN_EMAIL_SIZE
                    &&& byte_len(insert_statement.user_name@) <= COLUMN_USERNAME_SIZE
                    &&& final(self).pages() == pages_with_row(
                        old(self).pages(),
                        RowView {
                            id: old(self).next_index(),
                            email: insert_statement.email@,
                            user_name: insert_statement.user_name@,
                        },
                    )
                    &&& num_rows == final(self).pages().last().num_rows
                },
                Err(e) => {
                    &&& final(self).pages() == old(self).pages()
                    &&& if byte_len(insert_statement.email@) > COLUMN_EMAIL_SIZE {
                        e == RowDataError::EmailTooLong
                    } else {
                        byte_len(insert_statement.user_name@) > COLUMN_USERNAME_SIZE && e
                            == RowDataError::UserNameTooLong
                    }
                },
            },
    {
        let id = self.indexer.get_next_index();
        match RowData::new(id, &insert_statement.email, &insert_statement.user_name) {
            Ok(new_row) => {
                let num_rows = self.pager.insert_new_row(&new_row);
                Ok(num_rows)
            },
            Err(e) => Err(e),
        }
    }

    /// Carries out a statement: inserts a row, or leaves the table as it
    /// is for the caller to show.
    pub fn execute_statement(&mut self, statement: &Statement) -> (r: Result<
        StatementOutcome,
        RowDataError,
    >)
        requires
            old(self).wf(),
            statement is Insert ==> old(self).next_index() < u32::MAX,
        ensures
            final(self).wf(),
            final(self).max_num_rows() == old(self).max_num_rows(),
            match statement {
                Statement::Insert(insert_statement) => {
                    &&& final(self).next_index() == old(self).next_index() + 1
                    &&& r is Ok <==> byte_len(insert_statement.email@) <= COLUMN_EMAIL_SIZE
                        && byte_len(insert_statement.user_name@) <= COLUMN_USERNAME_SIZE
                    &&& match r {
                        Ok(outcome) => {
                            &&& outcome == StatementOutcome::Inserted(
                                final(self).pages().last().num_rows as usize,
                            )
                            &&& final(self).pages() == pages_with_row(
                                old(self).pages(),
                                RowView {
                                    id: old(self).next_index(),
                                    email: insert_statement.email@,
                                    user_name: insert_statement.user_name@,
                                },
                            )
                        },
                        Err(e) => {
                            &&& final(self).pages() == old(self).pages()
                            &&& e == if byte_len(insert_statement.email@) > COLUMN_EMAIL_SIZE {
                                RowDataError::EmailTooLong
                            } else {
                                RowDataError::UserNameTooLong
                            }
                        },
                    }
                },
                Statement::Select(_) => {
                    &&& r == Ok::<StatementOutcome, RowDataError>(StatementOutcome::Selected)
                    &&& final(self).pages() == old(self).pages()
                    &&& final(self).next_index() == old(self).next_index()
                },
            },
    {
        match statement {
            Statement::Insert(insert_statement) => match self.insert(insert_statement) {
                Ok(num_rows) => Ok(StatementOutcome::Inserted(num_rows)),
                Err(e) => Err(e),
            },
            Statement::Select(_select_statement) => Ok(StatementOutcome::Selected),
        }
    }

    /// The pager of the table.
    pub fn get_pager(&self) -> (pager: &Pager)
        ensures
            pager@ == self.pages(),
            pager.wf() == self.wf(),
    {
        &self.pager
    }

    /// The largest number of rows that the table is meant for.
    pub fn get_max_num_rows(&self) -> (n: usize)
        ensures
            n == self.max_num_rows(),
    {
        self.max_num_rows
    }
}

} // verus!
