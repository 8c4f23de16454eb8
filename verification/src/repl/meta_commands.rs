//! Meta commands: lines that start with a dot.

use crate::repl::input_buffer::InputBuffer;
use vstd::prelude::*;

verus! {

/// Whether a meta command was recognized.
#[derive(Debug, Clone, Copy, PartialEq, Eq, Structural)]
pub enum MetaCommandResult {
    MetaCommandSuccess,
    MetaCommandUnrecognizedCommand,
}

/// Whether the text is the command that ends the session.
pub fn is_exit_command(command: &String) -> (b: bool)
    ensures
        b == (command@ == ".exit"@),
{
    let exit = String::from_str(".exit");
    *command == exit
}

/// Recognizes the meta command in the buffer. The only command is
/// `.exit`; the caller ends the session on success.
pub fn do_meta_command(input_buffer: &InputBuffer) -> (r: MetaCommandResult)
    ensures
        r == match input_buffer.buffer {
            Some(command) => if command@ == ".exit"@ {
                MetaCommandResult::MetaCommandSuccess
            } else {
                MetaCommandResult::MetaCommandUnrecognizedCommand
            },
            None => MetaCommandResult::MetaCommandUnrecognizedCommand,
        },
{
    match &input_buffer.buffer {
        Some(command) => {
            if is_exit_command(&**command) {
                MetaCommandResult::MetaCommandSuccess
            } else {
                MetaCommandResult::MetaCommandUnrecognizedCommand
            }
        },
        None => MetaCommandResult::MetaCommandUnrecognizedCommand,
    }
}

} // verus!
