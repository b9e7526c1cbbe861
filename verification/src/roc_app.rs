//! An application that greets.
use vstd::prelude::*;
use vstd::string::StringExecFns;

verus! {

pub fn roc_main(input: String) -> (greeting: String)
    ensures
        greeting@ == "Hello, "@ + input@,
{
    let mut greeting = String::new();
    greeting.append("Hello, ");
    greeting.append(input.as_str());
    assert(greeting@ =~= "Hello, "@ + input@);
    greeting
}

} // verus!
