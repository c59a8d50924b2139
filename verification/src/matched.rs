//! Per-argument match record: occurrence count and captured values.

use vstd::prelude::*;

verus! {

/// How many times one argument was seen on the command line, and the raw
/// values captured for it, in arrival order.
pub struct MatchedArg {
    pub occurs: u64,
    pub vals: Vec<String>,
}

/// Mathematical content of a [`MatchedArg`]: the occurrence count as an
/// unbounded integer and the captured values as character sequences.
#[verifier::ext_equal]
pub ghost struct Record {
    pub occurs: int,
    pub vals: Seq<Seq<char>>,
}

impl MatchedArg {
    /// The record seen as a mathematical value.
    pub open spec fn model(self) -> Record {
        Record { occurs: self.occurs as int, vals: self.vals.deep_view() }
    }

    /// A fresh record.  By convention the first observation of an argument
    /// counts as one occurrence, so a fresh record starts at count 1 with no
    /// values captured yet.
    pub fn new() -> (r: Self)
        ensures
            r.model() == (Record { occurs: 1, vals: Seq::<Seq<char>>::empty() }),
    {
        let r = MatchedArg { occurs: 1, vals: Vec::new() };
        proof {
            assert(r.model().vals =~= Seq::<Seq<char>>::empty());
        }
        r
    }
}

} // verus!
