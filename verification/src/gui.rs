//! Commands of the desktop front end that compute their answer.

use vstd::prelude::*;

use crate::text::concat;

verus! {

/// The greeting for `name`.
pub fn greet(name: &str) -> (r: String)
    ensures
        r@ == "Hello, "@ + name@ + "! You've been greeted from Rust!"@,
{
    let mut r = concat("Hello, ", name);
    r.append("! You've been greeted from Rust!");
    r
}

} // verus!
