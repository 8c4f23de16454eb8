use b_tree::database::cursor::{Cursor, CursorError, CursorPosition};
use b_tree::database::deserializer::{
    read_utf8, u32_to_be_bytes, Deserializer, U32Deserializer, UTF8Deserializer,
};
use b_tree::database::indexer::Indexer;
use b_tree::database::page::{Page, PAGE_SIZE, ROWS_PER_PAGE, ROW_SIZE};
use b_tree::database::pager::Pager;
use b_tree::database::table::{StatementOutcome, Table, TABLE_MAX_PAGES};
use b_tree::repl::statement::{InsertStatement, SelectStatement, Statement};
use b_tree::database::row_data::{RowData, RowDataError};

fn row(id: u32, email: &str, user_name: &str) -> RowData {
    match RowData::new(id, &email.to_string(), &user_name.to_string()) {
        Ok(row) => row,
        Err(_) => unreachable!("unreachable"),
    }
}

#[test]
fn row_data_keeps_what_it_is_given() {
    let r = row(7, "a@b.c", "bob");
    assert_eq!(r.id, 7);
    assert_eq!(r.email, "a@b.c");
    assert_eq!(r.user_name, "bob");
}

#[test]
fn row_data_accepts_strings_that_just_fit() {
    let email = "e".repeat(256);
    let user_name = "u".repeat(32);
    let r = RowData::new(1, &email, &user_name);
    assert!(r.is_ok());
}

#[test]
fn row_data_rejects_a_long_email() {
    let email = "e".repeat(257);
    let r = RowData::new(1, &email, &"bob".to_string());
    assert_eq!(r.err(), Some(RowDataError::EmailTooLong));
    // the e-mail address is looked at first
    let r = RowData::new(1, &email, &"u".repeat(33));
    assert_eq!(r.err(), Some(RowDataError::EmailTooLong));
}

#[test]
fn row_data_rejects_a_long_user_name() {
    let r = RowData::new(1, &"a@b.c".to_string(), &"u".repeat(33));
    assert_eq!(r.err(), Some(RowDataError::UserNameTooLong));
}

#[test]
fn row_data_counts_bytes_not_characters() {
    // 17 characters of two bytes each
    let user_name = "é".repeat(17);
    let r = RowData::new(1, &"a@b.c".to_string(), &user_name);
    assert_eq!(r.err(), Some(RowDataError::UserNameTooLong));
    let r = RowData::new(1, &"a@b.c".to_string(), &"é".repeat(16));
    assert!(r.is_ok());
}

#[test]
fn row_data_errors_have_their_messages() {
    assert_eq!(RowDataError::EmailTooLong.message(), "The user's mail is too long");
    assert_eq!(RowDataError::UserNameTooLong.message(), "The username is too long");
}

#[test]
fn numbers_are_spelled_with_the_first_byte_counting_most() {
    assert_eq!(u32_to_be_bytes(0x0102_0304), vec![1, 2, 3, 4]);
    assert_eq!(u32_to_be_bytes(0), vec![0, 0, 0, 0]);
    assert_eq!(u32_to_be_bytes(u32::MAX), vec![255, 255, 255, 255]);
    assert_eq!(u32_to_be_bytes(258), vec![0, 0, 1, 2]);
}

#[test]
fn numbers_are_read_back_from_their_bytes() {
    let data = vec![9, 1, 2, 3, 4, 9];
    assert_eq!(U32Deserializer::deserialize(&data, 1, 4), 0x0102_0304);
    let data = vec![255, 255, 255, 255];
    assert_eq!(U32Deserializer::deserialize(&data, 0, 4), u32::MAX);
    for x in [0u32, 1, 255, 256, 65_535, 65_536, 16_777_216, 4_000_000_000] {
        assert_eq!(U32Deserializer::deserialize(&u32_to_be_bytes(x), 0, 4), x);
    }
}

#[test]
fn strings_are_read_back_from_their_bytes() {
    let data = vec![1, b'h', b'i', 0, 0xc3, 0xa9, 7];
    assert_eq!(UTF8Deserializer::deserialize(&data, 1, 2), "hi");
    assert_eq!(UTF8Deserializer::deserialize(&data, 1, 3), "hi\0");
    assert_eq!(UTF8Deserializer::deserialize(&data, 4, 2), "é");
    assert_eq!(read_utf8(&data, 1, 5), Some("hi\0é".to_string()));
    assert_eq!(read_utf8(&data, 0, 0), Some(String::new()));
}

#[test]
fn bytes_that_are_not_utf8_are_not_read_as_a_string() {
    let data = vec![b'h', 0xc3, b'i', 0xff];
    // a character cut in two
    assert_eq!(read_utf8(&data, 0, 2), None);
    assert_eq!(read_utf8(&data, 3, 1), None);
    assert_eq!(read_utf8(&data, 0, 1), Some("h".to_string()));
}

#[test]
fn an_empty_page_holds_nothing() {
    let page = Page::new(None);
    assert_eq!(page.get_num_rows(), 0);
    assert_eq!(page.get_last_idx(), 0);
    assert!(page.get_destination().is_empty());
}

#[test]
fn a_row_is_laid_out_in_its_columns() {
    let mut page = Page::new(None);
    let n = page.insert_row(&row(0x0102_0304, "a@b.c", "bob"));
    assert_eq!(n, 1);
    assert_eq!(page.get_num_rows(), 1);
    assert_eq!(page.get_last_idx(), 0x0102_0304);
    let bytes = page.get_destination();
    assert_eq!(bytes.len(), ROW_SIZE);
    assert_eq!(ROW_SIZE, 292);
    assert_eq!(&bytes[0..4], &[1, 2, 3, 4]);
    assert_eq!(&bytes[4..9], b"a@b.c");
    assert!(bytes[9..260].iter().all(|b| *b == 0));
    assert_eq!(&bytes[260..263], b"bob");
    assert!(bytes[263..292].iter().all(|b| *b == 0));
}

#[test]
fn rows_follow_one_another() {
    let mut page = Page::new(None);
    assert_eq!(page.insert_row(&row(1, "one@x.y", "one")), 1);
    assert_eq!(page.insert_row(&row(2, "two@x.y", "two")), 2);
    assert_eq!(page.insert_row(&row(3, "three@x.y", "three")), 3);
    assert_eq!(page.get_last_idx(), 3);
    let bytes = page.get_destination();
    assert_eq!(bytes.len(), 3 * ROW_SIZE);
    assert_eq!(&bytes[ROW_SIZE..ROW_SIZE + 4], &[0, 0, 0, 2]);
    assert_eq!(&bytes[2 * ROW_SIZE + 4..2 * ROW_SIZE + 13], b"three@x.y");
}

#[test]
fn a_value_is_cut_or_filled_to_its_column() {
    let page = Page::new(None);
    assert_eq!(page.get_value_padded(&"abc".to_string(), 5), vec![b'a', b'b', b'c', 0, 0]);
    assert_eq!(page.get_value_padded(&"abcdef".to_string(), 4), vec![b'a', b'b', b'c', b'd']);
    assert_eq!(page.get_value_padded(&"abc".to_string(), 3), vec![b'a', b'b', b'c']);
    assert_eq!(page.get_value_padded(&"abc".to_string(), 0), Vec::<u8>::new());
    assert_eq!(page.get_value_padded(&String::new(), 2), vec![0, 0]);
}

#[test]
fn a_row_is_read_back_with_the_zeros_that_fill_its_columns() {
    let mut page = Page::new(None);
    page.insert_row(&row(5, "a@b.c", "bob"));
    page.insert_row(&row(6, "d@e.f", "dan"));
    let back = page.deserialize_row(1).unwrap();
    assert_eq!(back.id, 6);
    assert_eq!(back.email.len(), 256);
    assert_eq!(back.email, format!("d@e.f{}", "\0".repeat(251)));
    assert_eq!(back.user_name, format!("dan{}", "\0".repeat(29)));
    let first = page.deserialize_row(0).unwrap();
    assert_eq!(first.id, 5);
    assert_eq!(first.email.trim_end_matches('\0'), "a@b.c");
}

fn raw_page(rows: &[(usize, u32, &str, &str)]) -> Vec<u8> {
    let mut data = vec![0u8; PAGE_SIZE];
    for (at, id, email, user_name) in rows {
        let start = at * ROW_SIZE;
        data[start..start + 4].copy_from_slice(&id.to_be_bytes());
        data[start + 4..start + 4 + email.len()].copy_from_slice(email.as_bytes());
        data[start + 260..start + 260 + user_name.len()].copy_from_slice(user_name.as_bytes());
    }
    data
}

#[test]
fn the_rows_in_use_end_with_the_last_row_that_is_not_blank() {
    assert_eq!(ROWS_PER_PAGE, 14);
    assert_eq!(Page::count_rows(&vec![0u8; PAGE_SIZE]), 0);
    assert_eq!(Page::count_rows(&raw_page(&[(0, 1, "a", "b")])), 1);
    // a blank row in front of a row in use counts
    assert_eq!(Page::count_rows(&raw_page(&[(2, 9, "a", "b")])), 3);
    assert_eq!(Page::count_rows(&raw_page(&[(0, 1, "a", "b"), (13, 2, "c", "d")])), 14);
    // what lies behind the last whole row does not count
    let mut data = vec![0u8; PAGE_SIZE];
    data[PAGE_SIZE - 1] = 1;
    assert_eq!(Page::count_rows(&data), 0);
    // one byte is enough
    let mut data = vec![0u8; PAGE_SIZE];
    data[ROW_SIZE + 100] = 1;
    assert_eq!(Page::count_rows(&data), 2);
}

#[test]
fn a_page_is_read_from_raw_data() {
    let data = raw_page(&[(0, 11, "a@b.c", "bob"), (1, 12, "d@e.f", "dan")]);
    let page = Page::new(Some(&data));
    assert_eq!(page.get_num_rows(), 2);
    assert_eq!(page.get_last_idx(), 12);
    assert_eq!(page.get_destination(), &data[..2 * ROW_SIZE]);
    let (last_idx, num_rows, rows) = Page::parse_raw_data(&data);
    assert_eq!(last_idx, 12);
    assert_eq!(num_rows, 2);
    assert_eq!(rows, &data[..2 * ROW_SIZE]);
    let back = page.deserialize_row(0).unwrap();
    assert_eq!(back.id, 11);
    assert_eq!(back.user_name.trim_end_matches('\0'), "bob");
}

#[test]
fn a_page_from_raw_data_takes_more_rows() {
    let data = raw_page(&[(0, 11, "a@b.c", "bob")]);
    let mut page = Page::new(Some(&data));
    assert_eq!(page.insert_row(&row(12, "d@e.f", "dan")), 2);
    assert_eq!(page.get_destination().len(), 2 * ROW_SIZE);
    assert_eq!(page.get_last_idx(), 12);
}

#[test]
fn a_row_that_does_not_hold_utf8_is_not_read_back() {
    let mut data = raw_page(&[(0, 11, "a@b.c", "bob")]);
    data[4] = 0xff;
    let page = Page::new(Some(&data));
    assert!(page.deserialize_row(0).is_none());
}

#[test]
fn the_indexer_starts_at_one() {
    let mut indexer = Indexer::new(None);
    assert_eq!(indexer.get_next_index(), 1);
    assert_eq!(indexer.get_next_index(), 2);
    assert_eq!(indexer.get_next_index(), 3);
}

#[test]
fn the_indexer_goes_on_after_the_last_index() {
    let mut indexer = Indexer::new(Some(41));
    assert!(indexer.has_next_index());
    assert_eq!(indexer.get_next_index(), 42);
    assert_eq!(indexer.get_next_index(), 43);
    let mut indexer = Indexer::new(Some(0));
    assert_eq!(indexer.get_next_index(), 1);
}

#[test]
fn the_indexer_knows_when_it_has_run_out() {
    let mut indexer = Indexer::new(Some(u32::MAX - 2));
    assert!(indexer.has_next_index());
    assert_eq!(indexer.get_next_index(), u32::MAX - 1);
    assert!(!indexer.has_next_index());
}

#[test]
fn a_cursor_starts_where_it_is_told() {
    let c = Cursor::new(5, CursorPosition::START).unwrap();
    assert_eq!((c.row_num, c.end_of_table), (0, false));
    let c = Cursor::new(5, CursorPosition::POS(3)).unwrap();
    assert_eq!((c.row_num, c.end_of_table), (3, false));
    let c = Cursor::new(5, CursorPosition::POS(4)).unwrap();
    assert_eq!((c.row_num, c.end_of_table), (4, true));
    let c = Cursor::new(5, CursorPosition::END).unwrap();
    assert_eq!((c.row_num, c.end_of_table), (4, true));
    assert_eq!(Cursor::new(5, CursorPosition::POS(5)).err(), Some(CursorError::RowNumberTooBig));
    assert_eq!(Cursor::new(0, CursorPosition::POS(0)).err(), Some(CursorError::RowNumberTooBig));
}

#[test]
fn a_cursor_advances_to_the_last_row_and_no_further() {
    let mut c = Cursor::new(3, CursorPosition::START).unwrap();
    assert_eq!(c.cursor_advance(3), Ok(1));
    assert!(!c.end_of_table);
    assert_eq!(c.cursor_advance(3), Ok(2));
    assert!(c.end_of_table);
    assert_eq!(c.cursor_advance(3), Err(CursorError::AlreadyAtEnd));
    assert_eq!(c.row_num, 2);
    // the table has grown
    assert_eq!(c.cursor_advance(5), Ok(3));
    assert!(!c.end_of_table);
}

#[test]
fn cursor_errors_have_their_messages() {
    assert_eq!(CursorError::RowNumberTooBig.message(), "The row number is too big");
    assert_eq!(
        CursorError::AlreadyAtEnd.message(),
        "The cursor is already at the end of table"
    );
}

#[test]
fn a_pager_without_pages_has_no_last_index() {
    let pager = Pager::new(Vec::new());
    assert_eq!(pager.get_last_saved_index(), None);
    assert!(pager.get_pages().is_empty());
}

#[test]
fn a_pager_begins_a_page_for_the_first_row_and_fills_it() {
    let mut pager = Pager::new(Vec::new());
    assert_eq!(pager.insert_new_row(&row(1, "a@b.c", "bob")), 1);
    assert_eq!(pager.get_pages().len(), 1);
    assert_eq!(pager.insert_new_row(&row(2, "d@e.f", "dan")), 2);
    assert_eq!(pager.get_pages().len(), 1);
    assert_eq!(pager.get_last_saved_index(), Some(2));
    assert_eq!(pager.get_pages()[0].get_destination().len(), 2 * ROW_SIZE);
}

#[test]
fn a_pager_goes_on_with_the_pages_it_is_given() {
    let data = raw_page(&[(0, 11, "a@b.c", "bob")]);
    let mut pager = Pager::new(vec![Page::new(Some(&data))]);
    assert_eq!(pager.get_last_saved_index(), Some(11));
    assert_eq!(pager.insert_new_row(&row(12, "d@e.f", "dan")), 2);
    assert_eq!(pager.get_pages().len(), 1);
    // a page without rows in front of the next row begins a new page
    let mut pager = Pager::new(vec![Page::new(None)]);
    assert_eq!(pager.insert_new_row(&row(1, "a@b.c", "bob")), 1);
    assert_eq!(pager.get_pages().len(), 2);
    assert_eq!(pager.get_pages()[0].get_num_rows(), 0);
}

#[test]
fn a_table_numbers_its_rows() {
    let mut table = Table::new(Pager::new(Vec::new()));
    assert_eq!(table.get_max_num_rows(), PAGE_SIZE * TABLE_MAX_PAGES);
    assert_eq!(table.get_max_num_rows(), 409_600);
    let words = |e: &str, u: &str| vec!["insert".to_string(), e.to_string(), u.to_string()];
    let first = InsertStatement::new(&words("a@b.c", "bob"));
    assert_eq!(table.insert(&first), Ok(1));
    let second = Statement::Insert(InsertStatement::new(&words("d@e.f", "dan")));
    assert_eq!(table.execute_statement(&second), Ok(StatementOutcome::Inserted(2)));
    let pages = table.get_pager().get_pages();
    assert_eq!(pages.len(), 1);
    assert_eq!(pages[0].deserialize_row(0).unwrap().id, 1);
    assert_eq!(pages[0].deserialize_row(1).unwrap().id, 2);
    let select = Statement::Select(SelectStatement::new(&words("x", "y")));
    assert_eq!(table.execute_statement(&select), Ok(StatementOutcome::Selected));
    assert_eq!(table.get_pager().get_pages()[0].get_num_rows(), 2);
}

#[test]
fn a_row_that_does_not_fit_uses_up_its_number() {
    let mut table = Table::new(Pager::new(Vec::new()));
    let long = InsertStatement::new(&vec!["insert".to_string(), "e".repeat(300), "bob".to_string()]);
    assert_eq!(table.insert(&long), Err(RowDataError::EmailTooLong));
    assert!(table.get_pager().get_pages().is_empty());
    let long = InsertStatement::new(&vec!["insert".to_string(), "a@b.c".to_string(), "u".repeat(40)]);
    assert_eq!(table.insert(&long), Err(RowDataError::UserNameTooLong));
    let fits = InsertStatement::new(&vec!["insert".to_string(), "a@b.c".to_string(), "bob".to_string()]);
    assert_eq!(table.insert(&fits), Ok(1));
    assert_eq!(table.get_pager().get_last_saved_index(), Some(3));
}

#[test]
fn a_table_goes_on_after_the_rows_of_its_pages() {
    let data = raw_page(&[(0, 41, "a@b.c", "bob")]);
    let mut table = Table::new(Pager::new(vec![Page::new(Some(&data))]));
    assert!(table.has_next_index());
    let fits = InsertStatement::new(&vec!["insert".to_string(), "d@e.f".to_string(), "dan".to_string()]);
    assert_eq!(table.insert(&fits), Ok(2));
    assert_eq!(table.get_pager().get_last_saved_index(), Some(42));
}
