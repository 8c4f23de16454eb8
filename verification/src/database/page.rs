//! A page of the table: its rows laid end to end as bytes, each column
//! padded with zeros to its width.

use crate::database::deserializer::{
    be_bytes, be_u32, Deserializer, read_utf8, u32_to_be_bytes, U32Deserializer,
};
use crate::database::row_data::{
    COLUMN_EMAIL_SIZE, COLUMN_ID_SIZE, COLUMN_USERNAME_SIZE, RowData, RowView,
};
use vstd::prelude::*;
use vstd::slice::slice_subrange;
use vstd::utf8::{decode_utf8, encode_utf8, valid_utf8};

verus! {

/// The size of a page of the file, in bytes.
pub const PAGE_SIZE: usize = 4096;

/// The bytes of a row: those of its three columns.
pub const ROW_SIZE: usize = 292;

/// Where the e-mail address begins in a row.
pub const EMAIL_OFFSET: usize = 4;

/// Where the user name begins in a row.
pub const USERNAME_OFFSET: usize = 260;

/// How many whole rows fit a page of the file.
pub const ROWS_PER_PAGE: usize = 14;

/// A page of rows.
pub struct Page {
    num_rows: usize,
    destination: Vec<u8>,
    last_idx: u32,
}

/// What a page holds, as plain mathematical values.
pub struct PageView {
    pub num_rows: nat,
    pub bytes: Seq<u8>,
    pub last_idx: u32,
}

impl View for Page {
    type V = PageView;

    closed spec fn view(&self) -> PageView {
        PageView {
            num_rows: self.num_rows as nat,
            bytes: self.destination@,
            last_idx: self.last_idx,
        }
    }
}

/// The first `length` of the bytes, or all of them and zeros after them
/// up to `length`.
pub open spec fn padded(bytes: Seq<u8>, length: nat) -> Seq<u8> {
    Seq::new(
        length,
        |i: int|
            if i < bytes.len() {
                bytes[i]
            } else {
                0u8
            },
    )
}

/// The bytes of a row: its number, its e-mail address and its user name,
/// each in its column.
pub open spec fn row_bytes(row: RowView) -> Seq<u8> {
    be_bytes(row.id) + padded(encode_utf8(row.email), COLUMN_EMAIL_SIZE as nat) + padded(
        encode_utf8(row.user_name),
        COLUMN_USERNAME_SIZE as nat,
    )
}

/// Row `i` of the raw data is all zeros.
pub open spec fn row_blank(data: Seq<u8>, i: int) -> bool {
    forall|k: int| i * ROW_SIZE <= k < (i + 1) * ROW_SIZE ==> #[trigger] data[k] == 0
}

/// How many of the first `n` rows of the raw data are in use: up to and
/// including the last one that is not all zeros.
pub open spec fn used_rows(data: Seq<u8>, n: nat) -> nat
    decreases n,
{
    if n == 0 {
        0
    } else if !row_blank(data, n - 1) {
        n
    } else {
        used_rows(data, (n - 1) as nat)
    }
}

/// The first four bytes of a row's bytes spell the row's number, and the
/// row takes `ROW_SIZE` bytes.
pub proof fn lemma_row_bytes(row: RowView)
    ensures
        row_bytes(row).len() == ROW_SIZE,
        be_u32(row_bytes(row).subrange(0, 4)) == row.id,
{
    assert(row_bytes(row).subrange(0, 4) =~= be_bytes(row.id));
}

impl Page {
    /// The page has as many bytes as its rows take.
    pub closed spec fn wf(&self) -> bool {
        self.destination@.len() == self.num_rows * ROW_SIZE
    }

    /// Whether row `i` of the raw data is all zeros.
    fn is_row_blank(data: &[u8], i: usize) -> (b: bool)
        requires
            (i + 1) * ROW_SIZE <= data@.len(),
        ensures
            b == row_blank(data@, i as int),
    {
        assert(data@.len() == data.len());
        let start = i * ROW_SIZE;
        let end = start + ROW_SIZE;
        let mut k = start;
        while k < end
            invariant
                start <= k <= end,
                start == i * ROW_SIZE,
                end == (i + 1) * ROW_SIZE,
                end <= data@.len(),
                forall|j: int| start <= j < k ==> #[trigger] data@[j] == 0,
            decreases end - k,
        {
            if data[k] != 0 {
                return false;
            }
            k += 1;
        }
        true
    }

    /// How many rows of the raw data of a page are in use.
    pub fn count_rows(data: &[u8]) -> (n: usize)
        requires
            data@.len() >= ROWS_PER_PAGE * ROW_SIZE,
        ensures
            n == used_rows(data@, ROWS_PER_PAGE as nat),
            n <= ROWS_PER_PAGE,
    {
        let mut n: usize = ROWS_PER_PAGE;
        while n > 0
            invariant
                n <= ROWS_PER_PAGE,
                data@.len() >= ROWS_PER_PAGE * ROW_SIZE,
                used_rows(data@, ROWS_PER_PAGE as nat) == used_rows(data@, n as nat),
            decreases n,
        {
            if !Self::is_row_blank(data, n - 1) {
                return n;
            }
            n -= 1;
        }
        n
    }

    /// Reads the raw data of a page: the number of the last row in use,
    /// how many rows are in use, and the bytes of those rows.
    pub fn parse_raw_data(data: &[u8]) -> (r: (u32, usize, &[u8]))
        requires
            data@.len() >= ROWS_PER_PAGE * ROW_SIZE,
            used_rows(data@, ROWS_PER_PAGE as nat) >= 1,
        ensures
            r.1 == used_rows(data@, ROWS_PER_PAGE as nat),
            1 <= r.1 <= ROWS_PER_PAGE,
            r.2@ == data@.subrange(0, r.1 * ROW_SIZE),
            r.0 == be_u32(data@.subrange((r.1 - 1) * ROW_SIZE, (r.1 - 1) * ROW_SIZE + 4)),
    {
        let last_non_empty_row_idx = Self::count_rows(data);
        let start = (last_non_empty_row_idx - 1) * ROW_SIZE;
        let b0: u32 = data[start] as u32;
        let b1: u32 = data[start + 1] as u32;
        let b2: u32 = data[start + 2] as u32;
        let b3: u32 = data[start + 3] as u32;
        let last_idx = b0 * 0x100_0000 + b1 * 0x1_0000 + b2 * 0x100 + b3;
        (last_idx, last_non_empty_row_idx, slice_subrange(data, 0, last_non_empty_row_idx * ROW_SIZE))
    }

    /// An empty page, or the page that the raw data holds. Raw data must
    /// be a whole page with a row in use.
    pub fn new(data: Option<&[u8]>) -> (page: Self)
        requires
            data matches Some(rows) ==> rows@.len() >= ROWS_PER_PAGE * ROW_SIZE && used_rows(
                rows@,
                ROWS_PER_PAGE as nat,
            ) >= 1,
        ensures
            page.wf(),
            match data {
                Some(rows) => {
                    let n = used_rows(rows@, ROWS_PER_PAGE as nat);
                    &&& page@.num_rows == n
                    &&& page@.bytes == rows@.subrange(0, n * ROW_SIZE)
                    &&& page@.last_idx == be_u32(
                        rows@.subrange((n - 1) * ROW_SIZE, (n - 1) * ROW_SIZE + 4),
                    )
                },
                None => page@ == (PageView { num_rows: 0, bytes: Seq::empty(), last_idx: 0 }),
            },
    {
        match data {
            Some(rows) => {
                let (last_idx, num_rows, destination_rows) = Self::parse_raw_data(rows);
                Page { num_rows, last_idx, destination: vstd::slice::slice_to_vec(destination_rows) }
            },
            None => Page { num_rows: 0, destination: Vec::new(), last_idx: 0 },
        }
    }

    /// The bytes of the string in a column of `length` bytes: cut off at
    /// `length`, or filled up with zeros.
    pub fn get_value_padded(&self, value_str: &String, length: usize) -> (result: Vec<u8>)
        ensures
            result@ == padded(encode_utf8(value_str@), length as nat),
    {
        let value_bytes = value_str.as_str().as_bytes();
        let mut result: Vec<u8> = Vec::new();
        let mut i: usize = 0;
        while i < length
            invariant
                i <= length,
                value_bytes@ == encode_utf8(value_str@),
                result@ == padded(encode_utf8(value_str@), i as nat),
            decreases length - i,
        {
            if i < value_bytes.len() {
                result.push(value_bytes[i]);
            } else {
                result.push(0);
            }
            i += 1;
            proof {
                assert(result@ =~= padded(encode_utf8(value_str@), i as nat));
            }
        }
        result
    }

    /// Appends the bytes of a row to the page and returns how many rows
    /// the page holds then.
    pub fn insert_row(&mut self, row_data: &RowData) -> (num_rows: usize)
        requires
            old(self).wf(),
        ensures
            final(self).wf(),
            final(self)@.bytes == old(self)@.bytes + row_bytes(row_data@),
            final(self)@.num_rows == old(self)@.num_rows + 1,
            final(self)@.last_idx == row_data.id,
            num_rows == final(self)@.num_rows,
    {
        let ghost before = self.destination@;
        let mut id_bytes = u32_to_be_bytes(row_data.id);
        let mut email = self.get_value_padded(&row_data.email, COLUMN_EMAIL_SIZE);
        let mut user_name = self.get_value_padded(&row_data.user_name, COLUMN_USERNAME_SIZE);
        self.destination.append(&mut id_bytes);
        self.destination.append(&mut email);
        self.destination.append(&mut user_name);
        proof {
            assert(self.destination@ =~= before + row_bytes(row_data@));
            assert(self.destination.len() == self.destination@.len());
        }
        self.num_rows += 1;
        self.last_idx = row_data.id;
        self.num_rows
    }

    /// The row with the number `row_num` in the page, read back from its
    /// bytes; the strings come with the zeros that fill their columns.
    /// Nothing where a column does not hold UTF-8.
    pub fn deserialize_row(&self, row_num: usize) -> (r: Option<RowData>)
        requires
            self.wf(),
            row_num < self@.num_rows,
        ensures
            ({
                let offset = row_num * ROW_SIZE;
                let email = self@.bytes.subrange(
                    offset + EMAIL_OFFSET,
                    offset + EMAIL_OFFSET + COLUMN_EMAIL_SIZE,
                );
                let user_name = self@.bytes.subrange(
                    offset + USERNAME_OFFSET,
                    offset + USERNAME_OFFSET + COLUMN_USERNAME_SIZE,
                );
                match r {
                    Some(row) => {
                        &&& row.id == be_u32(self@.bytes.subrange(offset, offset + COLUMN_ID_SIZE))
                        &&& valid_utf8(email)
                        &&& valid_utf8(user_name)
                        &&& row.email@ == decode_utf8(email)
                        &&& row.user_name@ == decode_utf8(user_name)
                    },
                    None => !valid_utf8(email) || !valid_utf8(user_name),
                }
            }),
    {
        assert(self.destination.len() == self.destination@.len());
        assert(row_num * ROW_SIZE + ROW_SIZE <= self.num_rows * ROW_SIZE) by (nonlinear_arith)
            requires
                row_num < self.num_rows,
        ;
        let offset = row_num * ROW_SIZE;
        let id = U32Deserializer::deserialize(&self.destination, offset, COLUMN_ID_SIZE);
        let email = match read_utf8(&self.destination, offset + EMAIL_OFFSET, COLUMN_EMAIL_SIZE) {
            Some(email) => email,
            None => {
                return None;
            },
        };
        let user_name = match read_utf8(
            &self.destination,
            offset + USERNAME_OFFSET,
            COLUMN_USERNAME_SIZE,
        ) {
            Some(user_name) => user_name,
            None => {
                return None;
            },
        };
        Some(RowData { id, email, user_name })
    }

    /// The number of the row that was inserted last.
    pub fn get_last_idx(&self) -> (last_idx: u32)
        ensures
            last_idx == self@.last_idx,
    {
        self.last_idx
    }

    /// How many rows the page holds.
    pub fn get_num_rows(&self) -> (num_rows: usize)
        ensures
            num_rows == self@.num_rows,
    {
        self.num_rows
    }

    /// The bytes of the rows.
    pub fn get_destination(&self) -> (destination: &[u8])
        ensures
            destination@ == self@.bytes,
    {
        self.destination.as_slice()
    }
}

} // verus!
