//! From a line of input to a statement or a meta command.

use crate::repl::input_buffer::InputBuffer;
use crate::repl::statement::{
    InsertStatement, SelectStatement, Statement, Statements, StatementView,
};
use vstd::prelude::*;

verus! {

/// The words of a text: its runs of characters between white space, as
/// `str::split_whitespace` of std yields them.
pub uninterp spec fn words_of(text: Seq<char>) -> Seq<Seq<char>>;

/// `str::split_whitespace` of std: the words of the text, in order, each
/// as a string of its own.
#[verifier::external_body]
fn split_whitespace(text: &str) -> (words: Vec<String>)
    ensures
        words@.len() == words_of(text@).len(),
        forall|i: int| 0 <= i < words@.len() ==> (#[trigger] words@[i])@ == words_of(text@)[i],
{
    text.split_whitespace().map(|word| word.to_string()).collect()
}

/// The statement that a line of words spells: an insertion or a
/// selection, where the line has at least three words and starts with
/// `insert` or `select`.
pub open spec fn statement_of(words: Seq<Seq<char>>) -> Option<StatementView> {
    if words.len() >= 3 && words[0] == "insert"@ {
        Some(StatementView::Insert { email: words[1], user_name: words[2] })
    } else if words.len() >= 3 && words[0] == "select"@ {
        Some(StatementView::Select)
    } else {
        None
    }
}

/// The views of the words.
pub open spec fn word_views(words: Seq<String>) -> Seq<Seq<char>> {
    Seq::new(words.len(), |i: int| words[i]@)
}

/// The statement that the words spell, if they spell one.
pub fn statement_from_words(words: &Vec<String>) -> (r: Option<Statement>)
    ensures
        match r {
            Some(statement) => statement_of(word_views(words@)) == Some(statement@),
            None => statement_of(word_views(words@)) is None,
        },
{
    let words_count = words.len();
    if words_count >= 3 {
        let insert = String::from_str("insert");
        if words[0] == insert {
            let insert_statement = InsertStatement::new(words);
            return Some(Statement::Insert(insert_statement));
        }
        let select = String::from_str("select");
        if words[0] == select {
            let select_statement = SelectStatement::new(words);
            return Some(Statement::Select(select_statement));
        }
    }
    None
}

/// The statement in the buffer, if the buffer holds a line that spells
/// one.
pub fn prepare_statement(input_buffer: &InputBuffer) -> (r: Option<Statement>)
    ensures
        match input_buffer.buffer {
            Some(text) => match r {
                Some(statement) => statement_of(words_of(text@)) == Some(statement@),
                None => statement_of(words_of(text@)) is None,
            },
            None => r is None,
        },
{
    match &input_buffer.buffer {
        Some(statement_str) => ParsedStatement::prepare_statement(&**statement_str),
        None => None,
    }
}

/// What a line of input holds.
pub struct ParsedStatement {
    pub statement_type: Statements,
    pub statement: Option<Statement>,
    pub meta_command: Option<String>,
}

/// The text starts with a dot.
pub open spec fn starts_with_dot(text: Seq<char>) -> bool {
    text.len() > 0 && text[0] == '.'
}

/// Whether the text starts with a dot.
pub fn is_meta_command(text: &String) -> (b: bool)
    ensures
        b == starts_with_dot(text@),
{
    let text = text.as_str();
    text.unicode_len() > 0 && text.get_char(0) == '.'
}

impl ParsedStatement {
    /// The statement that the text spells, if it spells one.
    pub fn prepare_statement(statement_str: &String) -> (r: Option<Statement>)
        ensures
            match r {
                Some(statement) => statement_of(words_of(statement_str@)) == Some(statement@),
                None => statement_of(words_of(statement_str@)) is None,
            },
    {
        let words = split_whitespace(statement_str.as_str());
        proof {
            assert(word_views(words@) =~= words_of(statement_str@));
        }
        statement_from_words(&words)
    }

    /// What the line holds: a meta command, where it starts with a dot,
    /// else the statement that it spells, if it spells one.
    pub fn new(buffer: &Box<String>) -> (parsed: Self)
        ensures
            if starts_with_dot(buffer@) {
                &&& parsed.statement_type == Statements::MetaCommand
                &&& parsed.statement is None
                &&& parsed.meta_command matches Some(command) && command@ == buffer@
            } else {
                &&& parsed.statement_type == Statements::Statement
                &&& parsed.meta_command is None
                &&& match parsed.statement {
                    Some(statement) => statement_of(words_of(buffer@)) == Some(statement@),
                    None => statement_of(words_of(buffer@)) is None,
                }
            },
    {
        if is_meta_command(&**buffer) {
            ParsedStatement {
                statement_type: Statements::MetaCommand,
                statement: None,
                meta_command: Some((**buffer).clone()),
            }
        } else {
            ParsedStatement {
                statement_type: Statements::Statement,
                statement: ParsedStatement::prepare_statement(&**buffer),
                meta_command: None,
            }
        }
    }

    /// Whether the line is to be handed on: a meta command always is, a
    /// statement where the line spelled one.
    pub fn is_recognized(&self) -> (b: bool)
        ensures
            b == (self.statement_type == Statements::MetaCommand || self.statement is Some),
    {
        match self.statement_type {
            Statements::Statement => self.statement.is_some(),
            Statements::MetaCommand => true,
        }
    }
}

/// Tells statements from meta commands.
pub struct Parser {}

impl Parser {
    /// What kind of line the buffer holds: a meta command, where the line
    /// starts with a dot, else a statement; nothing where there is no
    /// line.
    pub fn parse(input_buffer: &InputBuffer) -> (r: Option<Statements>)
        ensures
            r == match input_buffer.buffer {
                Some(text) => Some(
                    if starts_with_dot(text@) {
                        Statements::MetaCommand
                    } else {
                        Statements::Statement
                    },
                ),
                None => None,
            },
    {
        match &input_buffer.buffer {
            Some(buffer) => {
                if is_meta_command(&**buffer) {
                    Some(Statements::MetaCommand)
                } else {
                    Some(Statements::Statement)
                }
            },
            None => None,
        }
    }
}

} // verus!
