use clipto::markdown::{from_html, to_html, to_plain};

const SAMPLE: &str = "# AROS work update\n## jonx — work in progress\n- **AFS+**: portable filesystem. Runs as `C:Ferail` on AROS.\n- **Zed**: blocked on `mmap`.\n## <name> — work in progress\n- ...\n";

#[test]
fn html_keeps_structure_and_escapes_raw_tags() {
    let h = to_html(SAMPLE);
    assert!(h.contains("<h1>AROS work update</h1>"));
    assert!(h.contains("<li><strong>AFS+</strong>: portable filesystem. Runs as <code>C:Ferail</code> on AROS.</li>"));
    assert!(h.contains("&lt;name&gt;"), "raw html must be escaped: {h}");
}

#[test]
fn plain_strips_syntax() {
    let p = to_plain(SAMPLE);
    assert!(p.starts_with("AROS WORK UPDATE\n"));
    assert!(p.contains("• AFS+: portable filesystem. Runs as C:Ferail on AROS.\n"));
    assert!(!p.contains("**"));
}

#[test]
fn round_trip_markdown_html_markdown() {
    let md = from_html(&to_html(SAMPLE));
    assert!(md.contains("# AROS work update"));
    assert!(md.contains("- **AFS+**: portable filesystem. Runs as `C:Ferail` on AROS."));
    assert!(md.contains("## \\<name> — work in progress"), "{md}");
}

#[test]
fn nested_and_ordered_lists_from_html() {
    let html = "<h2>Plan</h2><p>Some <b>bold</b> and <a href=\"https://aros.org\">a link</a> with <code>code</code>.</p>\
                <ol><li>First</li><li>Second<ul><li>sub one</li><li>sub <b>two</b></li></ul></li><li>Third</li></ol>\
                <pre>make -j8\n./configure</pre><p>Done.</p>";
    let md = from_html(html);
    assert!(md.contains("## Plan"));
    assert!(md.contains("Some **bold** and [a link](https://aros.org) with `code`."));
    assert!(md.contains("1. First\n2. Second"));
    assert!(md.contains("- sub one"));
    assert!(md.contains("```\nmake -j8\n./configure\n```"), "{md}");
    let plain = to_plain(&md);
    assert!(plain.contains("1. First\n2. Second\n"));
    assert!(plain.contains("a link (https://aros.org)"));
}
