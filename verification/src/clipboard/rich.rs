//! RTF -> HTML and HTML -> RTF. This platform offers no system converter, so both give `None`.
use vstd::prelude::*;

verus! {

pub fn rtf_to_html(rtf: &[u8]) -> (h: Option<String>)
    ensures
        (h is None),
{
    None
}

pub fn html_to_rtf(html: &str) -> (r: Option<Vec<u8>>)
    ensures
        (r is None),
{
    None
}

} // verus!
