use vstd::prelude::*;

verus! {

/// The interactive debugger console. It holds no state: reading commands and
/// printing are done by the program that drives it.
pub struct Console {}

impl Console {
    /// A console.
    pub fn new() -> (c: Console)
        ensures
            c == (Console {}),
    {
        Console {}
    }
}

} // verus!
