use clipto::clipboard::linux::{message, message_lengths, payload, read_message, reads_flavor, try_read_message, types};
use clipto::clipboard::macos::{carried_types, pasteboard_type, MARKDOWN_TYPE};
use clipto::clipboard::windows::{format_name, kept_formats, CF_UNICODETEXT};
use clipto::clipboard::{other, present, rich};
use clipto::config::{hidden_targets, set_hidden_targets};
use clipto::convert::{Flavor, Target};
use clipto::paste;
use clipto::term::{bold, dim, enabled_for, err_red, paint};

fn strings(a: &[&str]) -> Vec<String> {
    a.iter().map(|s| s.to_string()).collect()
}

#[test]
fn no_paste_keystroke_here() {
    assert!(!paste::trusted(true));
    assert!(!paste::trusted(false));
    assert_eq!(paste::paste(), Err("auto-paste is not implemented on this platform".to_string()));
}

#[test]
fn platforms_without_a_clipboard() {
    assert!(other::types().is_empty());
    assert!(!other::has(Flavor::Text));
    assert!(other::read(Flavor::Html).is_none());
    assert_eq!(other::write(&[(Flavor::Text, b"x".to_vec())], true), Err("clipboard access is not implemented on this platform yet".to_string()));
    assert!(rich::rtf_to_html(b"{\\rtf1 x}").is_none());
    assert!(rich::html_to_rtf("<b>x</b>").is_none());
}

#[test]
fn present_flavors_keep_their_order() {
    assert_eq!(present([true, false, true, false]), vec![Flavor::Text, Flavor::Rtf]);
    assert_eq!(present([false; 4]), vec![]);
    assert_eq!(present([true; 4]), vec![Flavor::Text, Flavor::Html, Flavor::Rtf, Flavor::Md]);
}

#[test]
fn linux_reads_text_and_html() {
    assert_eq!(types(true, true), strings(&["text/plain", "text/html"]));
    assert_eq!(types(false, true), strings(&["text/html"]));
    assert!(types(false, false).is_empty());
    assert!(reads_flavor(Flavor::Text) && reads_flavor(Flavor::Html));
    assert!(!reads_flavor(Flavor::Rtf) && !reads_flavor(Flavor::Md));
}

#[test]
fn linux_payload() {
    let text = vec![(Flavor::Text, b"hi".to_vec()), (Flavor::Md, b"# hi".to_vec())];
    assert_eq!(payload(&text, false, None), Ok(("hi".to_string(), String::new())));
    assert_eq!(payload(&text, true, Some(b"<i>y</i>".to_vec())), Ok(("hi".to_string(), "<i>y</i>".to_string())));
    let html = vec![(Flavor::Html, b"<b>x</b>".to_vec())];
    assert_eq!(payload(&html, false, None), Ok(("<b>x</b>".to_string(), "<b>x</b>".to_string())));
    assert_eq!(payload(&vec![], true, Some(b"<i>y</i>".to_vec())), Ok(("<i>y</i>".to_string(), "<i>y</i>".to_string())));
    assert_eq!(payload(&vec![], false, Some(b"<i>y</i>".to_vec())), Err("nothing to write".to_string()));
    assert_eq!(payload(&vec![(Flavor::Rtf, b"{".to_vec())], true, None), Err("nothing to write".to_string()));
}

#[test]
fn linux_message() {
    let m = message("héllo", "<b>");
    assert_eq!(m, b"6 3\nh\xc3\xa9llo<b>".to_vec());
    assert_eq!(message_lengths(&m), (6, 3));
    assert_eq!(read_message(&m), ("héllo".to_string(), "<b>".to_string()));
    assert_eq!(read_message(b"5 9\nab"), ("ab".to_string(), String::new()), "a short body is cut");
    assert_eq!(read_message(b"x"), (String::new(), String::new()));
    assert_eq!(try_read_message(b""), None);
    assert_eq!(try_read_message(b"18446744073709551615 1\nab"), None);
    assert_eq!(try_read_message(b"1 1\nab"), Some(("a".to_string(), "b".to_string())));
}

#[test]
fn macos_types_carried_over() {
    assert_eq!(pasteboard_type(Flavor::Text), "public.utf8-plain-text");
    assert_eq!(pasteboard_type(Flavor::Html), "public.html");
    assert_eq!(pasteboard_type(Flavor::Rtf), "public.rtf");
    assert_eq!(pasteboard_type(Flavor::Md), MARKDOWN_TYPE);
    let existing = strings(&[
        "public.utf8-plain-text",
        "public.html",
        "NSStringPboardType",
        "public.utf16-external-plain-text",
        "org.chromium.source-url",
    ]);
    assert_eq!(carried_types(&existing, &strings(&["public.utf8-plain-text"]), true), strings(&["public.html", "org.chromium.source-url"]));
    assert_eq!(
        carried_types(&existing, &strings(&["public.html"]), false),
        strings(&["public.utf8-plain-text", "public.utf16-external-plain-text", "org.chromium.source-url"])
    );
}

#[test]
fn windows_formats_carried_over() {
    assert_eq!(CF_UNICODETEXT, 13);
    assert_eq!(format_name(Flavor::Text), None);
    assert_eq!(format_name(Flavor::Html), Some("HTML Format"));
    assert_eq!(format_name(Flavor::Rtf), Some("Rich Text Format"));
    assert_eq!(format_name(Flavor::Md), Some("ClipTo Markdown"));
    assert_eq!(kept_formats(&[13, 1, 49161, 7, 16, 2], &[13]), vec![49161, 2]);
    assert_eq!(kept_formats(&[13, 49161], &[13, 49161]), Vec::<u32>::new());
}

#[test]
fn hidden_choices_file() {
    assert_eq!(hidden_targets("md\n  text \nfoo\r\nrich"), vec![Target::Md, Target::Text, Target::Rich]);
    assert_eq!(hidden_targets(""), vec![]);
    assert_eq!(set_hidden_targets(&[Target::Rich, Target::Plain]), "rich\nplain\n");
    assert_eq!(set_hidden_targets(&[]), "");
}

#[test]
fn colours() {
    assert!(enabled_for(true, false));
    assert!(!enabled_for(true, true));
    assert!(!enabled_for(false, false));
    assert_eq!(bold("x", true), "\x1b[1mx\x1b[0m");
    assert_eq!(bold("x", false), "x");
    assert_eq!(dim("y", true), "\x1b[2my\x1b[0m");
    assert_eq!(err_red("ct:", true), "\x1b[31mct:\x1b[0m");
    assert_eq!(paint("4", "u", true), "\x1b[4mu\x1b[0m");
}
