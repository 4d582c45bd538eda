//! What the web service answers without looking at a poll.

use vstd::prelude::*;

verus! {

/// The greeting of the service.
pub open spec fn greeting() -> Seq<char> {
    "Hello World!"@
}

/// The greeting of the service.
pub fn hello() -> (text: &'static str)
    ensures
        text@ == greeting(),
{
    "Hello World!"
}

} // verus!
