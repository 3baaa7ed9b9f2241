//! A constellation: a pattern together with its primorial offsets.
use vstd::prelude::*;

verus! {

pub struct Constellation {
    pattern: Vec<u64>,
    offsets: Vec<u64>,
}

impl Constellation {
    /// The pattern of the constellation.
    pub closed spec fn pattern_spec(&self) -> Seq<u64> {
        self.pattern@
    }

    /// The primorial offsets of the constellation.
    pub closed spec fn offsets_spec(&self) -> Seq<u64> {
        self.offsets@
    }

    /// A constellation with the given pattern and offsets (the receiver is
    /// not read).
    pub fn new(&self, pattern: Vec<u64>, offsets: Vec<u64>) -> (c: Constellation)
        ensures
            c.pattern_spec() == pattern@,
            c.offsets_spec() == offsets@,
    {
        Constellation { pattern: pattern, offsets: offsets }
    }

    /// The pattern of the constellation.
    pub fn pattern(&self) -> (p: &[u64])
        ensures
            p@ == self.pattern_spec(),
    {
        self.pattern.as_slice()
    }

    /// The primorial offsets of the constellation.
    pub fn offsets(&self) -> (o: &[u64])
        ensures
            o@ == self.offsets_spec(),
    {
        self.offsets.as_slice()
    }
}

impl Default for Constellation {
    /// The constellation with an empty pattern and no offsets.
    fn default() -> (c: Self)
        ensures
            c.pattern_spec() == Seq::<u64>::empty(),
            c.offsets_spec() == Seq::<u64>::empty(),
    {
        Constellation { pattern: Vec::new(), offsets: Vec::new() }
    }
}

} // verus!
