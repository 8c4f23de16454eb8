//! The counter that numbers the rows of a table.

use vstd::prelude::*;

verus! {

/// Hands out row numbers in ascending order.
pub struct Indexer {
    cur_index: u32,
}

impl View for Indexer {
    type V = u32;

    /// The number that is handed out next.
    closed spec fn view(&self) -> u32 {
        self.cur_index
    }
}

impl Indexer {
    /// A counter that goes on after `last_idx`, or starts at 1.
    pub fn new(last_idx: Option<u32>) -> (indexer: Self)
        requires
            last_idx matches Some(last) ==> last < u32::MAX,
        ensures
            indexer@ == match last_idx {
                Some(last) => last + 1,
                None => 1,
            },
    {
        Indexer {
            cur_index: match last_idx {
                Some(last_idx_val) => last_idx_val + 1,
                None => 1,
            },
        }
    }

    /// Whether a number can still be handed out without running over.
    pub fn has_next_index(&self) -> (b: bool)
        ensures
            b == (self@ < u32::MAX),
    {
        self.cur_index < u32::MAX
    }

    /// Hands out the current number and moves on by one.
    pub fn get_next_index(&mut self) -> (result: u32)
        requires
            old(self)@ < u32::MAX,
        ensures
            result == old(self)@,
            final(self)@ == old(self)@ + 1,
    {
        let result = self.cur_index;
        self.cur_index += 1;
        result
    }
}

} // verus!
