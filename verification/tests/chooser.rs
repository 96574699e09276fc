use clipto::chooser::{build_preview, clipboard_status, preview_flavor_label, rows_for, ChooserView};
use clipto::convert::{ClipboardReads, Flavor, Target};

fn reads(text: Option<&str>, html: Option<&str>) -> ClipboardReads {
    ClipboardReads {
        text: text.map(|t| t.as_bytes().to_vec()),
        html: html.map(|h| h.as_bytes().to_vec()),
        rtf: None,
        md: None,
    }
}

#[test]
fn rows_leave_out_hidden_targets_but_never_all() {
    assert_eq!(rows_for(&[]), vec![Target::Rich, Target::Md, Target::Plain, Target::Html, Target::Text]);
    assert_eq!(rows_for(&[Target::Md, Target::Text]), vec![Target::Rich, Target::Plain, Target::Html]);
    let all = [Target::Rich, Target::Md, Target::Plain, Target::Html, Target::Text];
    assert_eq!(rows_for(&all), all.to_vec());
}

#[test]
fn arrows_move_the_selection_and_wrap() {
    let mut c = ChooserView::new();
    assert!(!c.is_open());
    c.show(&[Target::Md, Target::Text], None);
    assert!(c.is_open());
    assert_eq!(c.preview_title(), "Preview — Rich text (as rich apps see it)");
    assert!(c.key_down(125, "", false).is_none());
    assert_eq!(c.preview_title(), "Preview — Plain text (text flavor)");
    c.key_down(125, "", false);
    c.key_down(125, "", false);
    assert_eq!(c.preview_title(), "Preview — Rich text (as rich apps see it)");
    c.key_down(126, "", false);
    assert_eq!(c.preview_title(), "Preview — HTML source (text flavor)");
    c.move_selection(-4);
    assert_eq!(c.preview_title(), "Preview — Plain text (text flavor)");
}

#[test]
fn enter_chooses_the_selection_with_the_app() {
    let mut c = ChooserView::new();
    c.show(&[], Some("com.apple.Notes".to_string()));
    c.move_selection(1);
    c.key_down(36, "", false);
    assert!(!c.is_open());
    let choice = c.take_choice().unwrap();
    assert_eq!(choice.target, Target::Md);
    assert!(!choice.force);
    assert_eq!(choice.app_id.as_deref(), Some("com.apple.Notes"));
    assert!(c.take_choice().is_none());
}

#[test]
fn digits_choose_rows_and_out_of_range_digits_do_nothing() {
    let mut c = ChooserView::new();
    c.show(&[Target::Rich], None);
    c.key_down(0, "9", false);
    assert!(c.is_open());
    assert!(c.take_choice().is_none());
    c.key_down(0, "4", false);
    assert!(!c.is_open());
    assert_eq!(c.take_choice().unwrap().target, Target::Text);
}

#[test]
fn option_key_and_space_switch_force() {
    let mut c = ChooserView::new();
    c.show(&[], None);
    c.flags_changed(true);
    assert!(c.force());
    c.flags_changed(false);
    assert!(!c.force());
    c.key_down(49, " ", false);
    assert!(c.force());
    c.choose_row(2);
    let choice = c.take_choice().unwrap();
    assert_eq!(choice.target, Target::Plain);
    assert!(choice.force);
    c.show(&[], None);
    assert!(!c.force(), "showing the chooser turns force off");
}

#[test]
fn escape_closes_without_a_choice() {
    let mut c = ChooserView::new();
    c.show(&[], None);
    assert!(c.key_down(53, "", false).is_none());
    assert!(!c.is_open());
    assert!(c.take_choice().is_none());
}

#[test]
fn hiding_rows_keeps_the_last_one() {
    let mut c = ChooserView::new();
    c.show(&[], None);
    let saved = c.hide_row(0, Vec::new()).unwrap();
    assert_eq!(saved, vec![Target::Rich]);
    assert_eq!(c.preview_title(), "Preview — Markdown (text flavor)");
    let saved = c.hide_row(3, saved).unwrap();
    assert_eq!(saved, vec![Target::Rich, Target::Text]);
    let saved = c.hide_row(1, saved).unwrap();
    let saved = c.hide_row(1, saved).unwrap();
    assert_eq!(saved, vec![Target::Rich, Target::Text, Target::Plain, Target::Html]);
    assert!(c.hide_row(0, saved).is_none(), "the last row stays");
    assert_eq!(c.preview_title(), "Preview — Markdown (text flavor)");
}

#[test]
fn command_r_restores_every_row() {
    let mut c = ChooserView::new();
    c.show(&[Target::Rich, Target::Md, Target::Plain], None);
    c.move_selection(1);
    assert_eq!(c.preview_title(), "Preview — Text only (plain text only)");
    let saved = c.key_down(15, "r", true).unwrap();
    assert!(saved.is_empty());
    assert_eq!(c.preview_title(), "Preview — Markdown (text flavor)");
    assert!(c.key_down(15, "r", false).is_none(), "r without command does nothing");
}

#[test]
fn hovering_selects() {
    let mut c = ChooserView::new();
    c.show(&[], None);
    assert!(c.mouse_moved(Some(3)));
    assert_eq!(c.preview_title(), "Preview — HTML source (text flavor)");
    assert!(!c.mouse_moved(Some(3)));
    c.mouse_exited();
    assert!(!c.mouse_moved(None));
    assert!(c.mouse_moved(Some(0)));
    c.mouse_exited();
    assert_eq!(c.preview_title(), "Preview — Rich text (as rich apps see it)");
}

#[test]
fn flavor_labels() {
    assert_eq!(preview_flavor_label(Target::Rich), "as rich apps see it");
    assert_eq!(preview_flavor_label(Target::Md), "text flavor");
    assert_eq!(preview_flavor_label(Target::Plain), "text flavor");
    assert_eq!(preview_flavor_label(Target::Html), "text flavor");
    assert_eq!(preview_flavor_label(Target::Text), "plain text only");
}

#[test]
fn preview_of_a_conversion() {
    let p = build_preview(Target::Plain, vec![Flavor::Text], &reads(Some("# Title\n"), None));
    assert_eq!(p.text, "TITLE\n");
    assert!(!p.muted && p.rtf.is_none() && p.html.is_none());
    let p = build_preview(Target::Rich, vec![Flavor::Text], &reads(Some("# Title\n"), None));
    assert_eq!(p.text, "<h1>Title</h1>\n\n");
    let html = String::from_utf8(p.html.unwrap()).unwrap();
    assert!(html.starts_with("<!DOCTYPE html>") && html.contains("<h1>Title</h1>"));
    assert!(p.rtf.is_none());
}

#[test]
fn preview_of_a_satisfied_clipboard_shows_what_is_there() {
    let p = build_preview(Target::Text, vec![Flavor::Text], &reads(Some("# Title\n"), None));
    assert_eq!(p.text, "# Title\n");
    assert!(!p.muted);
    let p = build_preview(Target::Rich, vec![Flavor::Text, Flavor::Html], &reads(Some("hello"), Some("<b>hello</b>")));
    assert_eq!(p.text, "Unchanged: HTML is already on the clipboard and the text is not Markdown");
    assert!(p.muted);
    assert_eq!(p.html.unwrap(), b"<b>hello</b>".to_vec());
}

#[test]
fn preview_of_an_empty_clipboard() {
    let p = build_preview(Target::Md, vec![], &reads(None, None));
    assert_eq!(p.text, "Nothing usable on the clipboard");
    assert!(p.muted);
}

#[test]
fn status_line_names_the_flavors() {
    assert_eq!(clipboard_status(&[]), "clipboard: empty");
    assert_eq!(clipboard_status(&[Flavor::Text]), "clipboard: plain text");
    assert_eq!(clipboard_status(&[Flavor::Text, Flavor::Html, Flavor::Rtf]), "clipboard: plain text, HTML, RTF");
}
