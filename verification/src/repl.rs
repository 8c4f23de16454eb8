//! The front end that could feed the table: a line of input, the
//! statement or meta command that it holds, and what is to be done with
//! it.

pub mod execution;
pub mod input_buffer;
pub mod meta_commands;
pub mod parser;
pub mod statement;
pub mod statement_trait;
