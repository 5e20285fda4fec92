use vstd::prelude::*;

use super::range::DIndexRange;

verus! {

/// The line ranges whose lines, in order, make up one version.
#[derive(Debug, PartialEq, Eq, Clone)]
pub struct DIndexKey(Vec<DIndexRange>);

impl View for DIndexKey {
    type V = Seq<(u64, u64)>;

    closed spec fn view(&self) -> Seq<(u64, u64)> {
        self.0@.map_values(|r: DIndexRange| r@)
    }
}

impl DIndexKey {
    pub fn from_ranges(ranges: Vec<DIndexRange>) -> (key: DIndexKey)
        ensures
            key@ == ranges@.map_values(|r: DIndexRange| r@),
    {
        DIndexKey(ranges)
    }

    pub fn ranges(&self) -> (ranges: &Vec<DIndexRange>)
        ensures
            ranges@.map_values(|r: DIndexRange| r@) == self@,
    {
        &self.0
    }

    pub fn into_ranges(self) -> (ranges: Vec<DIndexRange>)
        ensures
            ranges@.map_values(|r: DIndexRange| r@) == self@,
    {
        self.0
    }

    /// Whether two keys hold the same ranges in the same order.
    pub fn same_ranges(&self, other: &DIndexKey) -> (same: bool)
        ensures
            same == (self@ == other@),
    {
        if self.0.len() != other.0.len() {
            assert(self@.len() != other@.len());
            return false;
        }
        let mut i: usize = 0;
        while i < self.0.len()
            invariant
                self.0.len() == other.0.len(),
                i <= self.0.len(),
                forall|k: int| 0 <= k < i ==> self@[k] == other@[k],
            decreases self.0.len() - i,
        {
            if self.0[i].start() != other.0[i].start() || self.0[i].end() != other.0[i].end() {
                assert(self@[i as int] != other@[i as int]);
                return false;
            }
            assert(self@[i as int] == other@[i as int]);
            i = i + 1;
        }
        assert(self@ =~= other@);
        true
    }

    pub fn len(&self) -> (n: usize)
        ensures
            n == self@.len(),
    {
        self.0.len()
    }
}

} // verus!
