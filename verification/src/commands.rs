//! The request a user's add invocation carries: whether it is global and
//! which specifier strings it names.

use vstd::prelude::*;
use vstd::string::*;

verus! {

/// An add invocation: a global flag and the requested specifiers.
pub struct AddCommand {
    pub global: bool,
    pub packages: Vec<String>,
}

impl AddCommand {
    /// A command over exactly these specifiers.
    pub fn new(global: bool, packages: Vec<String>) -> (r: AddCommand)
        ensures
            r.global == global,
            r.packages == packages,
    {
        AddCommand { global, packages }
    }
}

/// The manifest text a fresh project starts with: the given name, version
/// one, and no dependencies.
pub fn default_manifest(name: &str) -> (r: String)
    ensures
        r@ == "{\n  \"name\": \""@ + name@ + "\",\n  \"version\": \"1.0.0\",\n  \"dependencies\": {}\n}"@,
{
    let mut out = String::from_str("{\n  \"name\": \"");
    out.append(name);
    out.append("\",\n  \"version\": \"1.0.0\",\n  \"dependencies\": {}\n}");
    out
}

} // verus!
