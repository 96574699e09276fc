use clipto::clipboard::keep_existing_type;

/// Regression: Chrome's clipboard carries NSStringPboardType, whose old text overwrote the
/// Markdown written by `ct md` when it was carried over.
#[test]
fn legacy_aliases_are_not_carried_over() {
    for legacy in ["NSStringPboardType", "Apple HTML pasteboard type", "NeXT Rich Text Format v1.0 pasteboard type", "CorePasteboardFlavorType 0x75743136"] {
        assert!(!keep_existing_type(legacy, true), "{legacy}");
        assert!(!keep_existing_type(legacy, false), "{legacy}");
    }
    assert!(!keep_existing_type("public.utf16-external-plain-text", true));
    assert!(keep_existing_type("public.utf16-external-plain-text", false));
    for modern in ["public.html", "public.rtf", "org.chromium.source-url", "me.jkn.clipto.markdown", "public.png"] {
        assert!(keep_existing_type(modern, true), "{modern}");
    }
}
