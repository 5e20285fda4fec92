use vstd::prelude::*;

verus! {

/// A half-open range of line numbers in a `DIndex`.
#[derive(Debug, PartialEq, Eq, Clone, Copy)]
pub struct DIndexRange((u64, u64));

impl View for DIndexRange {
    type V = (u64, u64);

    closed spec fn view(&self) -> (u64, u64) {
        self.0
    }
}

impl DIndexRange {
    pub fn new(start: usize, end: usize) -> (r: DIndexRange)
        ensures
            r@ == (start as u64, end as u64),
    {
        DIndexRange((start as u64, end as u64))
    }

    /// The range between two line numbers as stored.
    pub fn from_bounds(start: u64, end: u64) -> (r: DIndexRange)
        ensures
            r@ == (start, end),
    {
        DIndexRange((start, end))
    }

    pub fn start(&self) -> (s: u64)
        ensures
            s == self@.0,
    {
        self.0.0
    }

    pub fn end(&self) -> (e: u64)
        ensures
            e == self@.1,
    {
        self.0.1
    }
}

} // verus!
