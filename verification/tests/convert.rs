use clipto::convert::{convert, looks_like_markdown, satisfied, Flavor, Output, Snapshot, Source, Target};

const MD: &str = "# Update\n\n## Work in progress\n\n- **AFS+**: portable filesystem, runs as `C:Ferail` on AROS.\n- **Zed**: blocked on `mmap`.\n\n1. First\n2. Second\n\nSee [the site](https://aros.org) for more.\n";
const HTML: &str = "<h2>Plan</h2><p>Some <b>bold</b>, <i>italic</i> and <a href=\"https://aros.org\">a link</a> with <code>code</code>.</p><ol><li>First</li><li>Second<ul><li>sub one</li><li>sub <b>two</b></li></ul></li></ol><pre>make -j8\n./configure</pre>";

fn flavor(out: &Output, f: Flavor) -> Option<String> {
    out.items.iter().find(|(x, _)| *x == f).map(|(_, b)| String::from_utf8_lossy(b).into_owned())
}

#[test]
fn markdown_to_rich_writes_every_flavor() {
    let out = convert(&Source::Markdown(MD.into()), Target::Rich);
    let html = flavor(&out, Flavor::Html).unwrap();
    assert!(html.starts_with("<!DOCTYPE html>"));
    assert!(html.contains("<h1>Update</h1>"));
    assert!(html.contains("<li><strong>AFS+</strong>: portable filesystem, runs as <code>C:Ferail</code> on AROS.</li>"));
    assert!(html.contains("<a href=\"https://aros.org\">the site</a>"));
    let plain = flavor(&out, Flavor::Text).unwrap();
    assert!(plain.starts_with("UPDATE\n"));
    assert!(plain.contains("• AFS+: portable filesystem, runs as C:Ferail on AROS.\n"));
    assert!(plain.contains("1. First\n2. Second\n"));
    assert!(plain.contains("See the site (https://aros.org) for more."));
    assert_eq!(flavor(&out, Flavor::Md).unwrap(), MD, "the source is kept in the private flavor");
}

#[test]
fn markdown_to_html_and_plain() {
    let html = convert(&Source::Markdown(MD.into()), Target::Html).result;
    assert!(html.contains("<h2>Work in progress</h2>"));
    assert!(!html.contains("<!DOCTYPE"), "html target is the bare body");
    let plain = convert(&Source::Markdown(MD.into()), Target::Plain).result;
    assert!(!plain.contains('#') && !plain.contains("**") && !plain.contains('`'));
    let text = convert(&Source::Markdown(MD.into()), Target::Text).result;
    assert_eq!(text, MD, "text keeps Markdown text untouched");
}

#[test]
fn html_to_markdown_plain_and_text() {
    let src = Source::Html(HTML.into());
    let md = convert(&src, Target::Md).result;
    assert!(md.contains("## Plan"));
    assert!(md.contains("Some **bold**, *italic* and [a link](https://aros.org) with `code`."));
    assert!(md.contains("1. First\n2. Second\n"));
    assert!(md.lines().any(|l| l.starts_with(" ") && l.trim_start() == "- sub one"), "{md}");
    assert!(md.contains("- sub **two**"));
    assert!(md.contains("```\nmake -j8\n./configure\n```"));
    let plain = convert(&src, Target::Plain).result;
    assert!(plain.contains("Some bold, italic and a link (https://aros.org) with code."));
    assert!(plain.contains("    make -j8\n    ./configure"));
    assert_eq!(convert(&src, Target::Text).result, plain, "text on a rich source is the plain rendering");
}

#[test]
fn html_to_rich_rebuilds_from_markdown() {
    let out = convert(&Source::Html(HTML.into()), Target::Rich);
    let html = flavor(&out, Flavor::Html).unwrap();
    assert!(html.contains("<h2>Plan</h2>"));
    assert!(html.contains("<strong>bold</strong>"));
    assert!(html.contains("<ol>") && html.contains("<ul>"));
    assert!(html.contains("<pre><code>make -j8\n./configure"));
}

#[test]
fn markdown_rich_markdown_round_trip_through_html() {
    let rich = convert(&Source::Markdown(MD.into()), Target::Rich);
    let html = flavor(&rich, Flavor::Html).unwrap();
    let back = convert(&Source::Html(html), Target::Md).result;
    assert!(back.contains("# Update\n\n## Work in progress"));
    assert!(back.contains("- **AFS+**: portable filesystem, runs as `C:Ferail` on AROS."));
    assert!(back.contains("1. First\n2. Second"));
    assert!(back.contains("[the site](https://aros.org)"));
}

fn snap(present: &[Flavor], text: &str, md: Option<&str>) -> Snapshot {
    Snapshot { present: present.to_vec(), text: text.into(), md_source: md.map(str::to_string) }
}

/// Regression: a page copied from a browser has HTML plus flat text. `md`, `plain` and `html`
/// must convert from the HTML; `rich` is already satisfied.
#[test]
fn browser_page_html_plus_flat_text() {
    let c = snap(&[Flavor::Text, Flavor::Html], "ClipTo\nct converts what is on the clipboard.\n\nInstall", None);
    assert!(satisfied(Target::Md, &c).is_none());
    assert!(satisfied(Target::Plain, &c).is_none());
    assert!(satisfied(Target::Html, &c).is_none());
    assert!(satisfied(Target::Rich, &c).is_some());
    assert_eq!(Target::Html.prefer_given(false)[1], Flavor::Html);
    assert_eq!(Target::Md.prefer_given(false)[1], Flavor::Html);
}

/// Regression: Markdown typed in a browser field comes with an HTML wrapper; the text is the
/// real source, so `rich` and `html` must build from it and `rich` must not be skipped.
#[test]
fn markdown_typed_in_a_browser_field() {
    let c = snap(&[Flavor::Text, Flavor::Html], "# Title\n- **bold** item\n", None);
    assert!(satisfied(Target::Rich, &c).is_none());
    assert!(satisfied(Target::Md, &c).is_some(), "text already is Markdown");
    assert_eq!(Target::Rich.prefer_given(true)[1], Flavor::Text);
    assert_eq!(Target::Html.prefer_given(true)[1], Flavor::Text);
}

#[test]
fn skip_rule_other_cases() {
    let flat = snap(&[Flavor::Text], "just some words\nsecond line", None);
    assert!(satisfied(Target::Plain, &flat).is_some());
    assert!(satisfied(Target::Text, &flat).is_some());
    assert!(satisfied(Target::Md, &flat).is_some());
    assert!(satisfied(Target::Rich, &flat).is_none());
    let after_rich = snap(&[Flavor::Text, Flavor::Html, Flavor::Rtf, Flavor::Md], "TITLE\n• item", Some("# Title\n- item\n"));
    assert!(satisfied(Target::Md, &after_rich).is_none(), "text is the plain rendering, md must restore the source");
    let restored = snap(&[Flavor::Text, Flavor::Html, Flavor::Rtf, Flavor::Md], "# Title\n- item\n", Some("# Title\n- item\n"));
    assert!(satisfied(Target::Md, &restored).is_some());
    let html_src = snap(&[Flavor::Text], "<p>hi</p>", None);
    assert!(satisfied(Target::Html, &html_src).is_some());
    assert!(satisfied(Target::Text, &after_rich).is_none());
}

#[test]
fn markdown_detection() {
    assert!(looks_like_markdown("# Title\n- **bold** item\n"));
    assert!(looks_like_markdown("runs as `C:Ferail` on AROS"));
    assert!(!looks_like_markdown("Kalamatee [1:20 AM] have a play with C:IPMI\nJohn made updates to AROS WIP.\n"));
    assert!(!looks_like_markdown("/Users/aros/Desktop/Screenshot.png"));
}
