//! The statements that the front end knows.

use vstd::prelude::*;

verus! {

/// The kind of a statement.
#[derive(Debug, Clone, Copy, PartialEq, Eq, Structural)]
pub enum StatementType {
    StatementInsert,
    StatementSelect,
}

/// Whether a line holds a statement or a meta command.
#[derive(Debug, Clone, Copy, PartialEq, Eq, Structural)]
pub enum Statements {
    Statement,
    MetaCommand,
}

/// Whether a statement was recognized.
#[derive(Debug, Clone, Copy, PartialEq, Eq, Structural)]
pub enum PrepareResult {
    PrepareSuccess,
    PrepareUnrecognizedStatement,
}

/// An insertion of a row with an e-mail address and a user name.
pub struct InsertStatement {
    pub email: String,
    pub user_name: String,
}

impl InsertStatement {
    /// The statement that the words of a line spell: the second word is
    /// the e-mail address, the third the user name.
    pub fn new(words: &Vec<String>) -> (statement: Self)
        requires
            words.len() >= 3,
        ensures
            statement.email@ == words[1]@,
            statement.user_name@ == words[2]@,
    {
        InsertStatement { email: words[1].clone(), user_name: words[2].clone() }
    }
}

/// A selection of all rows.
pub struct SelectStatement;

impl SelectStatement {
    /// The statement that the words of a line spell.
    pub fn new(words: &Vec<String>) -> (statement: Self) {
        SelectStatement
    }
}

/// A statement.
pub enum Statement {
    Insert(InsertStatement),
    Select(SelectStatement),
}

/// What a statement is, as plain mathematical values.
pub enum StatementView {
    Insert { email: Seq<char>, user_name: Seq<char> },
    Select,
}

impl View for Statement {
    type V = StatementView;

    open spec fn view(&self) -> StatementView {
        match self {
            Statement::Insert(insert) => StatementView::Insert {
                email: insert.email@,
                user_name: insert.user_name@,
            },
            Statement::Select(_) => StatementView::Select,
        }
    }
}

impl Statement {
    /// The kind of the statement.
    pub fn get_statement_type(&self) -> (kind: StatementType)
        ensures
            kind == match self {
                Statement::Insert(_) => StatementType::StatementInsert,
                Statement::Select(_) => StatementType::StatementSelect,
            },
    {
        match self {
            Statement::Insert(_) => StatementType::StatementInsert,
            Statement::Select(_) => StatementType::StatementSelect,
        }
    }
}

} // verus!
