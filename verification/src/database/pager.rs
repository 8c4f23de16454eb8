//! The pages of a table, in order.

use crate::database::page::{Page, PAGE_SIZE, PageView, row_bytes};
use crate::database::row_data::{RowData, RowView};
use vstd::prelude::*;

verus! {

/// The pages of a table. Rows go to the last page; a new page is begun
/// where there is none, or where the number of rows of the last one is a
/// multiple of `PAGE_SIZE`.
pub struct Pager {
    pages: Vec<Page>,
}

impl View for Pager {
    type V = Seq<PageView>;

    closed spec fn view(&self) -> Seq<PageView> {
        Seq::new(self.pages@.len(), |i: int| self.pages@[i]@)
    }
}

/// The page after a row was appended to it.
pub open spec fn page_with_row(page: PageView, row: RowView) -> PageView {
    PageView {
        num_rows: page.num_rows + 1,
        bytes: page.bytes + row_bytes(row),
        last_idx: row.id,
    }
}

/// Whether the next row begins a new page.
pub open spec fn begins_page(pages: Seq<PageView>) -> bool {
    pages.len() == 0 || pages.last().num_rows % (PAGE_SIZE as nat) == 0
}

/// The pages after a row was inserted.
pub open spec fn pages_with_row(pages: Seq<PageView>, row: RowView) -> Seq<PageView> {
    if begins_page(pages) {
        pages.push(
            page_with_row(PageView { num_rows: 0, bytes: Seq::empty(), last_idx: 0 }, row),
        )
    } else {
        pages.drop_last().push(page_with_row(pages.last(), row))
    }
}

impl Pager {
    /// Every page has as many bytes as its rows take.
    pub closed spec fn wf(&self) -> bool {
        forall|i: int| 0 <= i < self.pages@.len() ==> (#[trigger] self.pages@[i]).wf()
    }

    /// A pager over the given pages.
    pub fn new(pages: Vec<Page>) -> (pager: Self)
        requires
            forall|i: int| 0 <= i < pages@.len() ==> (#[trigger] pages@[i]).wf(),
        ensures
            pager.wf(),
            pager@ == Seq::new(pages@.len(), |i: int| pages@[i]@),
    {
        Pager { pages }
    }

    /// The number of the last row of the last page, if there is a page.
    pub fn get_last_saved_index(&self) -> (r: Option<u32>)
        ensures
            r == if self@.len() == 0 {
                None
            } else {
                Some(self@.last().last_idx)
            },
    {
        let n = self.pages.len();
        if n > 0 {
            Some(self.pages[n - 1].get_last_idx())
        } else {
            None
        }
    }

    /// Inserts the row into the last page, or into a new page where the
    /// last one has a multiple of `PAGE_SIZE` rows or there is none.
    /// Returns how many rows that page holds then.
    pub fn insert_new_row(&mut self, new_row_data: &RowData) -> (num_rows: usize)
        requires
            old(self).wf(),
        ensures
            final(self).wf(),
            final(self)@ == pages_with_row(old(self)@, new_row_data@),
            num_rows == final(self)@.last().num_rows,
    {
        let ghost before = self@;
        let n = self.pages.len();
        let begin = if n == 0 {
            true
        } else {
            self.pages[n - 1].get_num_rows() % PAGE_SIZE == 0
        };
        if begin {
            self.pages.push(Page::new(None));
        }
        let last = self.pages.len() - 1;
        let num_rows = self.pages[last].insert_row(new_row_data);
        proof {
            assert(self@ =~= pages_with_row(before, new_row_data@));
        }
        num_rows
    }

    /// The pages.
    pub fn get_pages(&self) -> (pages: &Vec<Page>)
        ensures
            self@ == Seq::new(pages@.len(), |i: int| pages@[i]@),
    {
        &self.pages
    }
}

} // verus!
