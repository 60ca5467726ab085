use vstd::prelude::*;

verus! {

/// A position in a sequence whose length is not known until use: either a
/// zero-based offset from the start, or a zero-based offset from the end,
/// where `Backward(0)` is the last element.
#[derive(Clone, Copy, Debug, PartialEq, Eq, Structural)]
pub enum Index {
    Forward(usize),
    Backward(usize),
}

/// The position an index resolves to against a sequence of length `len`:
/// `Forward(n)` is `n`, `Backward(n)` is `len - 1 - n`. The result may fall
/// outside `[0, len)`; resolution then fails.
pub open spec fn pos_spec(ix: Index, len: int) -> int {
    match ix {
        Index::Forward(n) => n as int,
        Index::Backward(n) => len - 1 - n as int,
    }
}

impl Index {
    /// Raw-magnitude constructor: a non-negative `input` is a forward offset,
    /// a negative one is a backward offset of magnitude `|input|`. Distinct
    /// from the textual grammar's convention, where `-1` means the last
    /// element.
    pub fn new(input: isize) -> (r: Index)
        ensures
            input >= 0 ==> r == Index::Forward(input as usize),
            input < 0 ==> (r matches Index::Backward(m) && m as int == -(input as int)),
    {
        if input >= 0 {
            Index::Forward(input as usize)
        } else {
            // |input| computed without overflowing on the minimum value.
            let m: usize = ((-(input + 1)) as usize) + 1;
            Index::Backward(m)
        }
    }
}

} // verus!
