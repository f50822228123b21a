//! The greeting.

use vstd::prelude::*;
use vstd::string::StringExecFns;

verus! {

/// The greeting for `name`. Someone without a name is greeted as Anonymous.
pub open spec fn greeting(name: Seq<char>) -> Seq<char> {
    if name.len() == 0 {
        "Hello, Anonymous! You've been greeted from Rust!"@
    } else {
        "Hello, "@ + name + "! You've been greeted from Rust!"@
    }
}

/// Greets `name`.
pub fn greet(name: &str) -> (r: String)
    ensures
        r@ == greeting(name@),
{
    if name.is_empty() {
        return String::from_str("Hello, Anonymous! You've been greeted from Rust!");
    }
    let mut text = String::from_str("Hello, ");
    text.append(name);
    text.append("! You've been greeted from Rust!");
    text
}

} // verus!
