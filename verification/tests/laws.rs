use clipto::chooser::{rows_for, ChooserView};
use clipto::clipboard::linux::{message, read_message};
use clipto::config::{hidden_targets, set_hidden_targets};
use clipto::convert::{convert, convert_for, read_source, ClipboardReads, Flavor, Snapshot, Source, Target};
use clipto::daemon::{describe, menu_target, plan_request, target_item_id, wrap_preview, Plan, Request};
use clipto::markdown::{code_in_pre, from_html, normalize, shown_as_text, to_html, to_plain, EventKind};
use clipto::term::paint;

const MD: &str = "# Update\n\n- **AFS+**: runs as `C:Ferail`.\n\n1. First\n2. Second\n";

#[test]
fn md_after_rich_restores_the_source() {
    let out = convert(&Source::Markdown(MD.into()), Target::Rich);
    let md = out.items.iter().find(|(f, _)| *f == Flavor::Md).unwrap().1.clone();
    let text = out.items.iter().find(|(f, _)| *f == Flavor::Text).unwrap().1.clone();
    let reads = ClipboardReads { text: Some(text.clone()), html: None, rtf: None, md: Some(md) };
    let src = read_source(&Target::Md.prefer(Some(text)), &reads).unwrap();
    assert_eq!(convert(&src, Target::Md).result, MD);
}

#[test]
fn hidden_list_round_trips() {
    let hidden = vec![Target::Text, Target::Rich, Target::Html];
    assert_eq!(hidden_targets(&set_hidden_targets(&hidden)), hidden);
    assert_eq!(hidden_targets(&set_hidden_targets(&[])), vec![]);
}

#[test]
fn message_round_trips() {
    for (t, h) in [("plain ✓ text", "<p>x</p>"), ("", ""), ("only text", ""), ("a\nb 3 4", "<b>é</b>")] {
        assert_eq!(read_message(&message(t, h)), (t.to_string(), h.to_string()));
    }
}

#[test]
fn chooser_is_never_empty() {
    let all = [Target::Rich, Target::Md, Target::Plain, Target::Html, Target::Text];
    assert_eq!(rows_for(&all).len(), 5);
    let mut c = ChooserView::new();
    c.show(&all, None);
    let mut saved = Vec::new();
    for _ in 0..10 {
        match c.hide_row(0, saved.clone()) {
            Some(s) => saved = s,
            None => break,
        }
    }
    assert_eq!(saved.len(), 4);
    c.choose_row(0);
    assert!(c.take_choice().is_some(), "one row is always left to choose");
}

#[test]
fn selection_moves_back() {
    let mut c = ChooserView::new();
    c.show(&[Target::Plain], None);
    for row in 0..4 {
        c.mouse_moved(Some(row));
        let before = c.preview_title();
        c.move_selection(1);
        c.move_selection(-1);
        assert_eq!(c.preview_title(), before, "from row {row}");
    }
}

#[test]
fn preview_never_exceeds_its_lines() {
    let text = "word ".repeat(200);
    for lines in 1..5 {
        assert!(wrap_preview(&text, 20, lines).lines().count() <= lines);
    }
}

#[test]
fn outputs_end_in_one_newline() {
    assert_eq!(to_plain("\n\n# A\n\n\n"), "A\n");
    assert_eq!(normalize("\n\nx  \n\n\n\ny\n\n"), "x\n\ny\n");
    assert_eq!(normalize(""), "\n");
    let md = from_html("<p>x</p><p></p>");
    assert!(md.ends_with('\n') && !md.ends_with("\n\n") && !md.starts_with('\n'));
}

#[test]
fn html_without_pre_is_unchanged() {
    assert_eq!(code_in_pre("<p>a <b>b</b></p>"), "<p>a <b>b</b></p>");
    assert_eq!(code_in_pre("<PRE class=x>make</PRE>"), "<PRE class=x><code>make</code></PRE>");
    assert_eq!(code_in_pre("<pre><code>x</code></pre>"), "<pre><code>x</code></pre>");
}

#[test]
fn forced_requests_are_never_unchanged() {
    let reads = ClipboardReads { text: Some(b"plain words".to_vec()), html: None, rtf: None, md: None };
    for t in [Target::Rich, Target::Md, Target::Plain, Target::Html, Target::Text] {
        let req = Request { target: t, force: true, from_popup: false, app_id: None };
        assert!(!matches!(plan_request(&req, vec![Flavor::Text], &reads), Plan::Unchanged(_)));
    }
}

#[test]
fn text_targets_write_only_text() {
    for t in [Target::Md, Target::Plain, Target::Html, Target::Text] {
        let out = convert(&Source::Markdown(MD.into()), t);
        assert_eq!(out.items, vec![(Flavor::Text, out.result.clone().into_bytes())]);
        assert_eq!(t.replaces_all(), t == Target::Text);
    }
    assert!(Target::Rich.replaces_all());
}

#[test]
fn rtf_only_keeps_html_when_no_rtf_was_made() {
    let out = convert_for(&Source::Markdown(MD.into()), Target::Rich, true);
    assert!(out.items.iter().any(|(f, _)| *f == Flavor::Html));
    assert!(!out.items.iter().any(|(f, _)| *f == Flavor::Rtf));
}

#[test]
fn menu_ids_lead_back_to_their_target() {
    for t in [Target::Rich, Target::Md, Target::Plain, Target::Html, Target::Text] {
        assert_eq!(menu_target(&target_item_id(t)), Some(t));
        assert_eq!(Target::parse(t.name()), Some(t));
    }
}

#[test]
fn colour_off_prints_text_as_is() {
    assert_eq!(paint("31", "text", false), "text");
}

#[test]
fn lossy_text_replaces_invalid_bytes() {
    let s = Snapshot::take(vec![Flavor::Text], Some(vec![0xff, b'a']), None);
    assert_eq!(s.text, "\u{fffd}a");
    let bad = ClipboardReads { text: Some(vec![0xff]), html: None, rtf: None, md: None };
    assert!(read_source(&[Flavor::Text], &bad).is_none(), "invalid UTF-8 is not a source");
    let good = ClipboardReads { text: Some(b"ok".to_vec()), html: None, rtf: None, md: None };
    assert!(matches!(read_source(&[Flavor::Text], &good), Some(Source::Markdown(m)) if m == "ok"));
}

#[test]
fn raw_html_is_shown_as_text() {
    assert!(shown_as_text(EventKind::Html));
    assert!(shown_as_text(EventKind::InlineHtml));
    assert!(!shown_as_text(EventKind::Text));
    assert!(!shown_as_text(EventKind::Code));
    assert!(!shown_as_text(EventKind::Other));
    assert_eq!(to_html("a <b>x</b>\n"), "<p>a &lt;b&gt;x&lt;/b&gt;</p>\n");
    assert_eq!(to_html("<div>\nx\n</div>\n"), "&lt;div&gt;\nx\n&lt;/div&gt;\n");
    assert_eq!(to_html("`<b>`\n"), "<p><code>&lt;b&gt;</code></p>\n");
}

#[test]
fn hotkey_parts_are_described_one_by_one() {
    for (a, b) in [("ctrl", "v"), ("ctrl+alt", "super+v"), ("", "shift"), ("f9", "")] {
        for mac in [true, false] {
            assert_eq!(describe(&format!("{a}+{b}"), mac), describe(a, mac) + &describe(b, mac));
        }
    }
}

#[test]
fn normalizing_twice_changes_nothing() {
    for s in ["\n\n a  \n\n\n\tb\t\n\n", "", "x", "x\r\n\r\ny \n", "\n\n\n"] {
        let r = normalize(s);
        assert_eq!(normalize(&r), r);
        assert!(!r.contains("\n\n\n"));
        assert!(r.lines().all(|l| l == l.trim_end()));
        let kept: Vec<&str> = r.lines().filter(|l| !l.is_empty()).collect();
        let want: Vec<&str> = s.lines().map(str::trim_end).filter(|l| !l.is_empty()).collect();
        assert_eq!(kept, want);
    }
}

#[test]
fn pre_fix_is_stable() {
    for h in ["<pre>make</pre>", "<PRE class=x>a<pre>b</pre>c</PRE>", "<pre> <code>x</code></pre><p>t</p><pre>y</pre>", "<pre>open"] {
        let once = code_in_pre(h);
        assert_eq!(code_in_pre(&once), once);
    }
}

#[test]
fn preview_lines_fit_and_keep_words() {
    let text = "a few words and a verylongwordthatdoesnotfit here";
    for width in [0usize, 1, 5, 10, 44] {
        for lines in 1..4usize {
            let p = wrap_preview(text, width, lines);
            for l in p.lines() {
                assert!(l.chars().count() <= width || !l.contains(' '), "{l:?} at {width}");
            }
            let flat = text.split_whitespace().collect::<Vec<_>>().join(" ");
            assert!(p.replace('\n', " ") == flat || p.ends_with('…'));
        }
    }
}
