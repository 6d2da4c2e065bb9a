use vstd::prelude::*;

verus! {

/// Where a record lies on disk: the segment it is in, the byte offset at
/// which it begins, and its encoded length in bytes.
#[derive(Clone, Copy, Debug, PartialEq, Eq, Structural)]
pub struct Pointer {
    pub fid: u64,
    pub start: u64,
    pub len: u64,
}

impl Pointer {
    pub fn new(fid: u64, start: u64, len: u64) -> (r: Self)
        ensures
            r == (Pointer { fid, start, len }),
    {
        Self { fid, start, len }
    }
}

} // verus!
