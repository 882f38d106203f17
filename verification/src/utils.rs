use vstd::prelude::*;
use vstd::string::StrSliceExecFns;

verus! {

/// Counts the characters of the last piece of text written into it; the
/// formatting helpers use it to learn how many digits a number prints with.
#[derive(Default)]
pub struct CharCounter {
    count: usize,
}

impl CharCounter {
    /// The recorded character count.
    pub closed spec fn count_spec(&self) -> nat {
        self.count as nat
    }

    /// A fresh counter that has seen no text.
    pub fn new() -> (r: Self)
        ensures
            r.count_spec() == 0,
    {
        CharCounter { count: 0 }
    }

    /// Consumes the counter, returning the recorded count.
    pub fn count(self) -> (r: usize)
        ensures
            r == self.count_spec(),
    {
        self.count
    }

    /// Records the length of a piece of text, replacing any earlier record.
    pub fn write_str(&mut self, s: &str)
        ensures
            final(self).count_spec() == s@.len(),
    {
        self.count = s.unicode_len();
    }
}

} // verus!
