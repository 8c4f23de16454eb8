//! What every statement can tell: its kind.

use crate::repl::statement::{InsertStatement, SelectStatement, StatementType};
use vstd::prelude::*;

verus! {

/// A statement that knows its kind.
pub trait Statement {
    /// The kind of the statements of this type.
    spec fn kind() -> StatementType;

    fn get_statement_type(&self) -> (kind: StatementType)
        ensures
            kind == Self::kind(),
    ;
}

impl Statement for InsertStatement {
    open spec fn kind() -> StatementType {
        StatementType::StatementInsert
    }

    fn get_statement_type(&self) -> (kind: StatementType) {
        StatementType::StatementInsert
    }
}

impl Statement for SelectStatement {
    open spec fn kind() -> StatementType {
        StatementType::StatementSelect
    }

    fn get_statement_type(&self) -> (kind: StatementType) {
        StatementType::StatementSelect
    }
}

} // verus!
