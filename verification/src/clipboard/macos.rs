//! macOS: the pasteboard types that stand for each flavor, and which existing types a
//! rewrite carries over.
use vstd::prelude::*;
use crate::clipboard::{keep_existing_type, legacy_type, text_alias};
use crate::convert::Flavor;

verus! {

/// The private pasteboard type that carries the Markdown source written by `rich`.
pub const MARKDOWN_TYPE: &'static str = "me.jkn.clipto.markdown";

/// The pasteboard type of flavor `f`: AppKit's string, HTML and RTF types (whose values Apple
/// documents), and the private Markdown type.
pub open spec fn pasteboard_type_spec(f: Flavor) -> Seq<char> {
    match f {
        Flavor::Text => "public.utf8-plain-text"@,
        Flavor::Html => "public.html"@,
        Flavor::Rtf => "public.rtf"@,
        Flavor::Md => "me.jkn.clipto.markdown"@,
    }
}

/// The pasteboard type of flavor `f`.
pub fn pasteboard_type(f: Flavor) -> (t: &'static str)
    ensures
        t@ == pasteboard_type_spec(f),
{
    match f {
        Flavor::Text => "public.utf8-plain-text",
        Flavor::Html => "public.html",
        Flavor::Rtf => "public.rtf",
        Flavor::Md => MARKDOWN_TYPE,
    }
}

pub open spec fn names_view(v: Seq<String>) -> Seq<Seq<char>> {
    v.map_values(|s: String| s@)
}

/// Whether an existing type is carried over: it is not written anew and not an alias.
pub open spec fn carried(name: Seq<char>, written: Seq<Seq<char>>, writing_text: bool) -> bool {
    !written.contains(name) && !(legacy_type(name) || (writing_text && text_alias(name)))
}

/// The existing types that a rewrite carries over, in order.
pub open spec fn carried_spec(existing: Seq<Seq<char>>, written: Seq<Seq<char>>, writing_text: bool) -> Seq<Seq<char>>
    decreases existing.len(),
{
    if existing.len() == 0 {
        seq![]
    } else {
        let rest = carried_spec(existing.drop_last(), written, writing_text);
        if carried(existing.last(), written, writing_text) {
            rest.push(existing.last())
        } else {
            rest
        }
    }
}

fn names_contain(v: &Vec<String>, name: &str) -> (b: bool)
    ensures
        b == names_view(v@).contains(name@),
{
    let c = crate::text::chars_of(name);
    let mut i: usize = 0;
    while i < v.len()
        invariant
            i <= v.len(),
            c@ == name@,
            forall|j: int| 0 <= j < i ==> names_view(v@)[j] != name@,
        decreases v.len() - i,
    {
        if crate::convert::same_chars(&c, v[i].as_str()) {
            assert(names_view(v@)[i as int] == name@);
            return true;
        }
        i += 1;
    }
    false
}

/// The types of `existing` that a rewrite writing the types `written` carries over; with
/// `writing_text` the text is among what is written.
pub fn carried_types(existing: &Vec<String>, written: &Vec<String>, writing_text: bool) -> (v: Vec<String>)
    ensures
        names_view(v@) == carried_spec(names_view(existing@), names_view(written@), writing_text),
{
    let ghost ex = names_view(existing@);
    let mut v: Vec<String> = Vec::new();
    let mut i: usize = 0;
    while i < existing.len()
        invariant
            i <= existing.len(),
            ex == names_view(existing@),
            names_view(v@) == carried_spec(ex.take(i as int), names_view(written@), writing_text),
        decreases existing.len() - i,
    {
        proof {
            assert(ex.take(i + 1).drop_last() =~= ex.take(i as int));
        }
        let name = existing[i].as_str();
        if !names_contain(written, name) && keep_existing_type(name, writing_text) {
            let ghost before = names_view(v@);
            v.push(existing[i].clone());
            assert(names_view(v@) =~= before.push(ex[i as int]));
        }
        i += 1;
    }
    assert(ex.take(existing.len() as int) =~= ex);
    v
}

} // verus!
