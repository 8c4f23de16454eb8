use b_tree::repl::execution::{execute, Execution};
use b_tree::repl::input_buffer::InputBuffer;
use b_tree::repl::meta_commands::{do_meta_command, is_exit_command, MetaCommandResult};
use b_tree::repl::parser::{
    is_meta_command, prepare_statement, statement_from_words, ParsedStatement, Parser,
};
use b_tree::repl::statement::{
    InsertStatement, SelectStatement, Statement, StatementType, Statements,
};
use b_tree::repl::statement_trait::Statement as StatementKind;

fn line(text: &str) -> InputBuffer {
    let mut input_buffer = InputBuffer::new();
    input_buffer.input_length = text.len();
    input_buffer.buffer = Some(Box::new(text.to_string()));
    input_buffer
}

fn words(text: &[&str]) -> Vec<String> {
    text.iter().map(|w| w.to_string()).collect()
}

#[test]
fn a_new_buffer_holds_no_line() {
    let input_buffer = InputBuffer::new();
    assert_eq!(input_buffer.input_length, 0);
    assert!(input_buffer.buffer.is_none());
}

#[test]
fn an_insert_statement_takes_the_second_and_third_word() {
    let statement = InsertStatement::new(&words(&["insert", "a@b.c", "bob"]));
    assert_eq!(statement.email, "a@b.c");
    assert_eq!(statement.user_name, "bob");
    let statement = InsertStatement::new(&words(&["x", "y", "z", "more"]));
    assert_eq!(statement.email, "y");
    assert_eq!(statement.user_name, "z");
}

#[test]
fn statements_know_their_kind() {
    let insert = InsertStatement::new(&words(&["insert", "a@b.c", "bob"]));
    let select = SelectStatement::new(&words(&["select", "a", "b"]));
    assert_eq!(StatementKind::get_statement_type(&insert), StatementType::StatementInsert);
    assert_eq!(StatementKind::get_statement_type(&select), StatementType::StatementSelect);
    assert_eq!(Statement::Insert(insert).get_statement_type(), StatementType::StatementInsert);
    assert_eq!(Statement::Select(select).get_statement_type(), StatementType::StatementSelect);
}

#[test]
fn three_words_that_start_with_insert_are_an_insertion() {
    match statement_from_words(&words(&["insert", "a@b.c", "bob"])) {
        Some(Statement::Insert(insert)) => {
            assert_eq!(insert.email, "a@b.c");
            assert_eq!(insert.user_name, "bob");
        }
        _ => unreachable!("unreachable"),
    }
    assert!(matches!(
        statement_from_words(&words(&["select", "a", "b"])),
        Some(Statement::Select(_))
    ));
}

#[test]
fn fewer_than_three_words_are_no_statement() {
    assert!(statement_from_words(&words(&[])).is_none());
    assert!(statement_from_words(&words(&["insert"])).is_none());
    assert!(statement_from_words(&words(&["insert", "a@b.c"])).is_none());
    assert!(statement_from_words(&words(&["select"])).is_none());
    assert!(statement_from_words(&words(&["select", "x"])).is_none());
}

#[test]
fn other_first_words_are_no_statement() {
    assert!(statement_from_words(&words(&["update", "a", "b"])).is_none());
    assert!(statement_from_words(&words(&["INSERT", "a", "b"])).is_none());
    assert!(statement_from_words(&words(&["inserts", "a", "b"])).is_none());
    assert!(statement_from_words(&words(&["a", "insert", "b"])).is_none());
}

#[test]
fn a_line_is_split_at_white_space() {
    match ParsedStatement::prepare_statement(&"  insert \t a@b.c\n bob   extra ".to_string()) {
        Some(Statement::Insert(insert)) => {
            assert_eq!(insert.email, "a@b.c");
            assert_eq!(insert.user_name, "bob");
        }
        _ => unreachable!("unreachable"),
    }
    // one word, whatever it holds
    assert!(ParsedStatement::prepare_statement(&"insert,a@b.c,bob".to_string()).is_none());
    assert!(ParsedStatement::prepare_statement(&"".to_string()).is_none());
    assert!(ParsedStatement::prepare_statement(&"   ".to_string()).is_none());
    assert!(matches!(
        ParsedStatement::prepare_statement(&"select * all".to_string()),
        Some(Statement::Select(_))
    ));
}

#[test]
fn a_statement_is_prepared_from_the_buffer() {
    assert!(prepare_statement(&InputBuffer::new()).is_none());
    assert!(prepare_statement(&line("insert a")).is_none());
    match prepare_statement(&line("insert a@b.c bob")) {
        Some(Statement::Insert(insert)) => {
            assert_eq!(insert.email, "a@b.c");
            assert_eq!(insert.user_name, "bob");
        }
        _ => unreachable!("unreachable"),
    }
}

#[test]
fn a_line_that_starts_with_a_dot_is_a_meta_command() {
    assert!(is_meta_command(&".exit".to_string()));
    assert!(is_meta_command(&".".to_string()));
    assert!(!is_meta_command(&"".to_string()));
    assert!(!is_meta_command(&" .exit".to_string()));
    assert!(!is_meta_command(&"insert .a b".to_string()));
    let parsed = ParsedStatement::new(&Box::new(".tables now".to_string()));
    assert!(parsed.statement_type == Statements::MetaCommand);
    assert!(parsed.statement.is_none());
    assert_eq!(parsed.meta_command, Some(".tables now".to_string()));
    assert!(parsed.is_recognized());
}

#[test]
fn any_other_line_is_a_statement() {
    let parsed = ParsedStatement::new(&Box::new("insert a@b.c bob".to_string()));
    assert!(parsed.statement_type == Statements::Statement);
    assert!(parsed.meta_command.is_none());
    assert!(matches!(parsed.statement, Some(Statement::Insert(_))));
    assert!(parsed.is_recognized());
    let parsed = ParsedStatement::new(&Box::new("hello".to_string()));
    assert!(parsed.statement_type == Statements::Statement);
    assert!(parsed.statement.is_none());
    assert!(parsed.meta_command.is_none());
    assert!(!parsed.is_recognized());
}

#[test]
fn the_parser_tells_the_kind_of_a_line() {
    assert_eq!(Parser::parse(&InputBuffer::new()), None);
    assert_eq!(Parser::parse(&line(".exit")), Some(Statements::MetaCommand));
    assert_eq!(Parser::parse(&line("select")), Some(Statements::Statement));
    assert_eq!(Parser::parse(&line("")), Some(Statements::Statement));
}

#[test]
fn exit_is_the_only_meta_command() {
    assert!(is_exit_command(&".exit".to_string()));
    assert!(!is_exit_command(&".exit ".to_string()));
    assert!(!is_exit_command(&"exit".to_string()));
    assert_eq!(do_meta_command(&line(".exit")), MetaCommandResult::MetaCommandSuccess);
    assert_eq!(
        do_meta_command(&line(".quit")),
        MetaCommandResult::MetaCommandUnrecognizedCommand
    );
    assert_eq!(
        do_meta_command(&InputBuffer::new()),
        MetaCommandResult::MetaCommandUnrecognizedCommand
    );
}

#[test]
fn what_is_to_be_done_follows_the_kind_of_the_line() {
    let parsed = ParsedStatement::new(&Box::new("insert a@b.c bob".to_string()));
    assert_eq!(execute(&parsed), Execution::Statement(StatementType::StatementInsert));
    let parsed = ParsedStatement::new(&Box::new("select a b".to_string()));
    assert_eq!(execute(&parsed), Execution::Statement(StatementType::StatementSelect));
    let parsed = ParsedStatement::new(&Box::new(".exit".to_string()));
    assert_eq!(execute(&parsed), Execution::Exit);
    let parsed = ParsedStatement::new(&Box::new(".help".to_string()));
    assert_eq!(execute(&parsed), Execution::UnknownMetaCommand);
}
