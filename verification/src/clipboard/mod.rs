//! The platform-independent part of the clipboard layer: which flavors are present, which
//! formats a rewrite carries over, and the rich-text converters of this platform.
pub mod linux;
pub mod macos;
pub mod other;
pub mod rich;
pub mod windows;

use vstd::prelude::*;
use crate::convert::Flavor;
use crate::text::{chars_of, contains_in, contains_seq, matches_at, starts_with};

verus! {

/// The flavors, in `Flavor::ALL` order, for which `available` holds.
pub open spec fn present_flavors(available: Seq<bool>) -> Seq<Flavor> {
    seq![Flavor::Text, Flavor::Html, Flavor::Rtf, Flavor::Md].filter(|f: Flavor| available[flavor_index(f) as int])
}

pub open spec fn flavor_index(f: Flavor) -> nat {
    match f {
        Flavor::Text => 0,
        Flavor::Html => 1,
        Flavor::Rtf => 2,
        Flavor::Md => 3,
    }
}

/// Flavors we understand that are present, given for each of `Flavor::ALL` whether the
/// platform reports it on the clipboard.
pub fn present(available: [bool; 4]) -> (v: Vec<Flavor>)
    ensures
        v@ == present_flavors(available@),
{
    let all = Flavor::ALL;
    let ghost full = seq![Flavor::Text, Flavor::Html, Flavor::Rtf, Flavor::Md];
    assert(all@ =~= full);
    let mut v: Vec<Flavor> = Vec::new();
    let mut i: usize = 0;
    while i < 4
        invariant
            i <= 4,
            all@ == full,
            full == seq![Flavor::Text, Flavor::Html, Flavor::Rtf, Flavor::Md],
            v@ == full.take(i as int).filter(|f: Flavor| available@[flavor_index(f) as int]),
        decreases 4 - i,
    {
        proof {
            assert(full.take(i + 1).drop_last() =~= full.take(i as int));
            reveal(Seq::filter);
            assert(full.take(i + 1).last() == full[i as int]);
            assert(flavor_index(full[i as int]) == i) by {
                if i == 0 {
                    assert(full[0] == Flavor::Text);
                } else if i == 1 {
                    assert(full[1] == Flavor::Html);
                } else if i == 2 {
                    assert(full[2] == Flavor::Rtf);
                } else {
                    assert(full[3] == Flavor::Md);
                }
            }
        }
        if available[i] {
            v.push(all[i]);
        }
        i += 1;
    }
    assert(full.take(4) =~= full);
    v
}

/// A legacy pasteboard type name: no dot, or a space in it.
pub open spec fn legacy_type(name: Seq<char>) -> bool {
    !contains_seq(name, seq!['.']) || contains_seq(name, seq![' '])
}

/// An alias of the text flavor that a rewrite of the text must not carry over.
pub open spec fn text_alias(name: Seq<char>) -> bool {
    starts_with(name, "public.utf16"@) || name == "public.plain-text"@
}

/// Whether an existing pasteboard type is carried over when the clipboard is rewritten.
/// Legacy pboard types ("NSStringPboardType", "Apple HTML pasteboard type", ...) are aliases of
/// the modern types: re-adding them would overwrite what was just written. Same for the
/// UTF-16 variants of the text flavor when the text is being written.
pub fn keep_existing_type(name: &str, writing_text: bool) -> (keep: bool)
    ensures
        keep == !(legacy_type(name@) || (writing_text && text_alias(name@))),
{
    let c = chars_of(name);
    let n = c.len();
    proof {
        assert(c@.subrange(0, n as int) =~= c@);
        assert(['.']@ =~= seq!['.']);
        assert([' ']@ =~= seq![' ']);
        reveal_strlit("public.utf16");
    }
    let legacy = !contains_in(&c, 0, n, &['.']) || contains_in(&c, 0, n, &[' ']);
    let utf16 = ['p', 'u', 'b', 'l', 'i', 'c', '.', 'u', 't', 'f', '1', '6'];
    assert(utf16@ =~= "public.utf16"@);
    let alias = writing_text && (matches_at(&c, 0, n, &utf16) || crate::convert::same_chars(
        &c,
        "public.plain-text",
    ));
    !(legacy || alias)
}

} // verus!
