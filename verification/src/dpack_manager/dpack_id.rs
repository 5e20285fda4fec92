use vstd::prelude::*;

use crate::codec::{push_u64_be, u64_be};
use crate::text::push_char;

verus! {

/// The digits of `n` in decimal.
pub open spec fn decimal(n: nat) -> Seq<char>
    decreases n,
{
    if n < 10 {
        seq![((48 + n) as u32) as char]
    } else {
        decimal(n / 10).push(((48 + n % 10) as u32) as char)
    }
}

/// The number of a pack.
#[derive(Debug, Copy, Clone, PartialEq, Eq)]
pub struct DPackId(u64);

impl View for DPackId {
    type V = u64;

    closed spec fn view(&self) -> u64 {
        self.0
    }
}

fn push_decimal(s: &mut String, n: u64)
    ensures
        final(s)@ == old(s)@ + decimal(n as nat),
    decreases n,
{
    if n >= 10 {
        push_decimal(s, n / 10);
    }
    let d = (n % 10) as u8;
    let c = (48u8 + d) as char;
    assert(c == ((48 + n % 10) as u32) as char);
    push_char(s, c);
    assert(final(s)@ =~= old(s)@ + decimal(n as nat));
}

impl DPackId {
    pub fn new(id: u64) -> (p: DPackId)
        ensures
            p@ == id,
    {
        DPackId(id)
    }

    /// The first pack.
    pub fn default() -> (p: DPackId)
        ensures
            p@ == 0,
    {
        DPackId(0)
    }

    /// The pack after this one.
    pub fn next(&self) -> (p: DPackId)
        requires
            self@ < u64::MAX,
        ensures
            p@ == self@ + 1,
    {
        DPackId(self.0 + 1)
    }

    /// The number of the pack.
    pub fn value(&self) -> (n: u64)
        ensures
            n == self@,
    {
        self.0
    }

    /// The big-endian bytes of the number.
    pub fn push_bytes(&self, out: &mut Vec<u8>)
        ensures
            final(out)@ == old(out)@ + u64_be(self@),
    {
        push_u64_be(out, self.0)
    }

    /// The number in decimal, as the name of the pack's file.
    pub fn to_decimal(&self) -> (s: String)
        ensures
            s@ == decimal(self@ as nat),
    {
        let mut s = String::new();
        push_decimal(&mut s, self.0);
        assert(s@ =~= decimal(self@ as nat));
        s
    }
}

} // verus!
