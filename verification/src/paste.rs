//! Sending the paste keystroke to the app in front, so that a choice in the popup lands where
//! the user was. This platform has no way to do it.
use vstd::prelude::*;

verus! {

/// Whether the process may send keystrokes to other apps: not on this platform.
pub fn trusted(prompt: bool) -> (b: bool)
    ensures
        !b,
{
    false
}

/// Sends the paste keystroke; this platform cannot.
pub fn paste() -> (r: Result<(), String>)
    ensures
        r matches Err(e) && e@ == "auto-paste is not implemented on this platform"@,
{
    Err(String::from_str("auto-paste is not implemented on this platform"))
}

} // verus!
