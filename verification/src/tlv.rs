//! The cursor that Type-Length-Value parsing walks the input with.

use vstd::prelude::*;

verus! {

/// Walks the input, tracking how far in it has read. The cursor may pass the
/// end: reading there gives nothing rather than failing.
pub struct Reader<'a> {
    pub input: &'a [u8],
    pub location: usize,
}

impl<'a> Reader<'a> {
    /// A cursor at the start of `input`.
    pub fn new(input: &'a [u8]) -> (r: Self)
        ensures
            r.input@ == input@,
            r.location == 0,
    {
        Reader { input, location: 0 }
    }

    /// Whether the cursor has reached or passed the end.
    pub fn at_end(&self) -> (r: bool)
        ensures
            r == (self.input@.len() <= self.location),
    {
        self.input.len() <= self.location
    }

    /// The byte at the cursor, or `None` when the cursor is at or past the
    /// end.
    pub fn peek(&self) -> (r: Option<u8>)
        ensures
            self.location < self.input@.len() ==> r == Some(self.input@[self.location as int]),
            self.location >= self.input@.len() ==> r is None,
    {
        if self.location < self.input.len() {
            Some(self.input[self.location])
        } else {
            None
        }
    }
}

} // verus!
