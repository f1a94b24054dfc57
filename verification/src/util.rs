use vstd::prelude::*;

verus! {

/// Where the test fixtures live, relative to the crate root.
pub fn tests_data() -> (r: String)
    ensures
        r@ == "tests/data"@,
{
    String::from_str("tests/data")
}

} // verus!
