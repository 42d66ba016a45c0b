use vstd::prelude::*;

verus! {

/// The release of this library.
pub fn version() -> (r: &'static str)
    ensures
        r@.len() > 0,
{
    let v = "0.1.0";
    proof {
        reveal_strlit("0.1.0");
    }
    v
}

} // verus!
