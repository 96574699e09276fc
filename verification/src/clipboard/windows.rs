//! Windows: the registered clipboard formats of each flavor, and which existing formats a
//! rewrite carries over.
use vstd::prelude::*;
use crate::convert::Flavor;

verus! {

/// The standard format of UTF-16 text (`CF_UNICODETEXT`).
pub const CF_UNICODETEXT: u32 = 13;

/// The name under which flavor `f` is registered; the text flavor has a standard format
/// instead.
pub open spec fn format_name_spec(f: Flavor) -> Option<Seq<char>> {
    match f {
        Flavor::Text => None,
        Flavor::Html => Some("HTML Format"@),
        Flavor::Rtf => Some("Rich Text Format"@),
        Flavor::Md => Some("ClipTo Markdown"@),
    }
}

/// The name under which flavor `f` is registered.
pub fn format_name(f: Flavor) -> (n: Option<&'static str>)
    ensures
        match n {
            Some(s) => format_name_spec(f) == Some(s@),
            None => format_name_spec(f) is None,
        },
{
    match f {
        Flavor::Text => None,
        Flavor::Html => Some("HTML Format"),
        Flavor::Rtf => Some("Rich Text Format"),
        Flavor::Md => Some("ClipTo Markdown"),
    }
}

/// Formats that Windows derives from the UTF-16 text by itself: `CF_TEXT`, `CF_OEMTEXT` and
/// `CF_LOCALE`.
pub open spec fn synthesized(id: u32) -> bool {
    id == 1 || id == 7 || id == 16
}

/// The existing formats that a rewrite writing the formats `written` carries over, in order.
pub open spec fn kept_spec(existing: Seq<u32>, written: Seq<u32>) -> Seq<u32> {
    existing.filter(|id: u32| !written.contains(id) && !synthesized(id))
}

fn contains_id(v: &[u32], id: u32) -> (b: bool)
    ensures
        b == v@.contains(id),
{
    let mut i: usize = 0;
    while i < v.len()
        invariant
            i <= v.len(),
            forall|j: int| 0 <= j < i ==> v@[j] != id,
        decreases v.len() - i,
    {
        if v[i] == id {
            return true;
        }
        i += 1;
    }
    false
}

/// The formats of `existing` that a rewrite writing `written` carries over: all but those it
/// writes and those Windows derives from the text.
pub fn kept_formats(existing: &[u32], written: &[u32]) -> (v: Vec<u32>)
    ensures
        v@ == kept_spec(existing@, written@),
{
    let mut v: Vec<u32> = Vec::new();
    let mut i: usize = 0;
    while i < existing.len()
        invariant
            i <= existing.len(),
            v@ == existing@.take(i as int).filter(|id: u32| !written@.contains(id) && !synthesized(id)),
        decreases existing.len() - i,
    {
        proof {
            assert(existing@.take(i + 1).drop_last() =~= existing@.take(i as int));
            reveal(Seq::filter);
        }
        let id = existing[i];
        if !contains_id(written, id) && !(id == 1 || id == 7 || id == 16) {
            v.push(id);
        }
        i += 1;
    }
    assert(existing@.take(existing.len() as int) =~= existing@);
    v
}

} // verus!
