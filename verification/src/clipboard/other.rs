//! The clipboard where no backend exists: nothing is on it and nothing can be written.
use vstd::prelude::*;
use crate::convert::Flavor;

verus! {

/// The names of the formats on the clipboard: none.
pub fn types() -> (v: Vec<String>)
    ensures
        v@.len() == 0,
{
    Vec::new()
}

/// Whether flavor `f` is on the clipboard: never.
pub fn has(f: Flavor) -> (b: bool)
    ensures
        !b,
{
    false
}

/// The bytes of flavor `f`: none.
pub fn read(f: Flavor) -> (r: Option<Vec<u8>>)
    ensures
        r is None,
{
    None
}

/// Writing fails: there is no clipboard to write to.
pub fn write(items: &[(Flavor, Vec<u8>)], keep_others: bool) -> (r: Result<(), String>)
    ensures
        r matches Err(e) && e@ == "clipboard access is not implemented on this platform yet"@,
{
    Err(String::from_str("clipboard access is not implemented on this platform yet"))
}

} // verus!
