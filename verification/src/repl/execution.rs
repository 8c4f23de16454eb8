//! What is to be done with a parsed line.

use crate::repl::meta_commands::is_exit_command;
use crate::repl::parser::ParsedStatement;
use crate::repl::statement::{Statement, Statements, StatementType};
use vstd::prelude::*;

verus! {

/// What the caller is to do.
#[derive(Debug, Clone, Copy, PartialEq, Eq, Structural)]
pub enum Execution {
    /// Carry out a statement of this kind.
    Statement(StatementType),
    /// End the session.
    Exit,
    /// Tell the user that the meta command is not known.
    UnknownMetaCommand,
}

/// A parsed line holds what its kind promises: a statement, or the text
/// of a meta command.
pub open spec fn complete(parsed: &ParsedStatement) -> bool {
    match parsed.statement_type {
        Statements::Statement => parsed.statement is Some,
        Statements::MetaCommand => parsed.meta_command is Some,
    }
}

/// Decides what is to be done with a parsed line.
pub fn execute(parsed_statement: &ParsedStatement) -> (r: Execution)
    requires
        complete(parsed_statement),
    ensures
        r == match parsed_statement.statement_type {
            Statements::Statement => Execution::Statement(
                match parsed_statement.statement->Some_0 {
                    Statement::Insert(_) => StatementType::StatementInsert,
                    Statement::Select(_) => StatementType::StatementSelect,
                },
            ),
            Statements::MetaCommand => if parsed_statement.meta_command->Some_0@ == ".exit"@ {
                Execution::Exit
            } else {
                Execution::UnknownMetaCommand
            },
        },
{
    match parsed_statement.statement_type {
        Statements::Statement => match &parsed_statement.statement {
            Some(statement) => Execution::Statement(statement.get_statement_type()),
            None => vstd::pervasive::unreached(),
        },
        Statements::MetaCommand => match &parsed_statement.meta_command {
            Some(command) => {
                if is_exit_command(command) {
                    Execution::Exit
                } else {
                    Execution::UnknownMetaCommand
                }
            },
            None => vstd::pervasive::unreached(),
        },
    }
}

} // verus!
