//! A line of input.

use vstd::prelude::*;

verus! {

/// A line of input and its length in bytes; no line before the first is
/// read.
#[derive(Debug)]
pub struct InputBuffer {
    pub input_length: usize,
    pub buffer: Option<Box<String>>,
}

impl InputBuffer {
    /// A buffer without a line.
    pub fn new() -> (input_buffer: Self)
        ensures
            input_buffer.input_length == 0,
            input_buffer.buffer is None,
    {
        InputBuffer { input_length: 0, buffer: None }
    }
}

} // verus!
