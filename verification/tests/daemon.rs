use clipto::chooser::Choice;
use clipto::convert::{ClipboardReads, Flavor, Target};
use clipto::daemon::{
    build_menu, chooser_request, menu_action, tick_ms, MenuAction, ABOUT_URL, ACCESSIBILITY_URL, FLASH_MS, describe, flash_title, icon_pixels, menu_target, plan_request, rtf_only_for,
    should_paste, target_item_id, wrap_preview, MenuEntry, Outcome, Plan, PopupState, Request, DEFAULT_HOTKEY,
};

fn item(e: &MenuEntry) -> (Option<String>, String, bool) {
    match e {
        MenuEntry::Separator => (None, "---".to_string(), false),
        MenuEntry::Item { id, title, enabled } => (id.clone(), title.clone(), *enabled),
    }
}

fn reads(text: Option<&str>, html: Option<&str>) -> ClipboardReads {
    ClipboardReads {
        text: text.map(|t| t.as_bytes().to_vec()),
        html: html.map(|h| h.as_bytes().to_vec()),
        rtf: None,
        md: None,
    }
}

#[test]
fn hotkeys_read_as_symbols_on_macos_and_names_elsewhere() {
    assert_eq!(describe(DEFAULT_HOTKEY, true), "⌃⌥⌘V");
    assert_eq!(describe(DEFAULT_HOTKEY, false), "Ctrl+Alt+Win+V");
    assert_eq!(describe("ctrl+shift+f9", false), "Ctrl+Shift+F9");
    assert_eq!(describe("Control+Option+Command+Shift+space", true), "⌃⌥⌘⇧SPACE");
}

#[test]
fn previews_wrap_and_cut() {
    assert_eq!(wrap_preview("one two three four", 9, 2), "one two\nthree…");
    assert_eq!(wrap_preview("  short\n\ttext  ", 44, 3), "short text");
    assert_eq!(wrap_preview("   ", 44, 3), "");
    assert_eq!(wrap_preview("abcdefghij", 4, 1), "abcdefghij", "a long single word is not cut");
    assert_eq!(wrap_preview("abcdefghij more", 4, 1), "abc…");
}

#[test]
fn menu_items_name_their_target() {
    assert_eq!(target_item_id(Target::Md), "target-md");
    for t in [Target::Rich, Target::Md, Target::Plain, Target::Html, Target::Text] {
        assert_eq!(menu_target(&target_item_id(t)), Some(t));
    }
    assert_eq!(menu_target("target-m"), None);
    assert_eq!(menu_target("md"), None);
    assert_eq!(menu_target("about"), None);
}

#[test]
fn popup_menu_lists_preview_flavors_and_targets() {
    let menu = build_menu("Ctrl+Alt+Win+V", false, &[Flavor::Text, Flavor::Html], Some(b"hello world".to_vec()), false, false, "0.1.0");
    let got: Vec<_> = menu.iter().map(item).collect();
    assert_eq!(got.len(), 8);
    assert_eq!(got[0], (None, "hello world".to_string(), false));
    assert_eq!(got[1], (None, "Clipboard: plain text, HTML".to_string(), false));
    assert_eq!(got[2].1, "---");
    assert_eq!(got[3], (Some("target-rich".to_string()), "Rich text\t1".to_string(), true));
    assert_eq!(got[7], (Some("target-text".to_string()), "Text only\t5".to_string(), true));
}

#[test]
fn resident_menu_on_macos() {
    let menu = build_menu("⌃⌥⌘V", true, &[], Some(b"one\ntwo".to_vec()), true, false, "0.1.0");
    let got: Vec<_> = menu.iter().map(item).collect();
    assert_eq!(got.len(), 15);
    assert_eq!(got[0].1, "\u{200b}preview");
    assert_eq!(got[1].1, "Clipboard: empty");
    assert_eq!(got[3], (Some("target-rich".to_string()), "Rich text".to_string(), false));
    assert_eq!(got[9].1, "Hotkey: ⌃⌥⌘V");
    assert_eq!(got[10].1, "Hold ⌥ while choosing to force a conversion");
    assert_eq!(got[11], (Some("accessibility".to_string()), "Accessibility: not granted — open Settings…".to_string(), true));
    assert_eq!(got[13], (Some("about".to_string()), "ClipTo 0.1.0 — John Knipper, jkn.me".to_string(), true));
    assert_eq!(got[14], (Some("quit".to_string()), "Quit ct".to_string(), true));
}

#[test]
fn menu_without_text_has_no_preview() {
    let menu = build_menu("x", true, &[Flavor::Html], None, false, true, "1.2.3");
    let got: Vec<_> = menu.iter().map(item).collect();
    assert_eq!(got.len(), 13);
    assert_eq!(got[0].1, "Clipboard: HTML");
    assert_eq!(got[9].1, "Hold Alt while choosing to force a conversion");
    let invalid = build_menu("x", false, &[Flavor::Text], Some(vec![0xff, 0xfe]), false, false, "1");
    assert_eq!(item(&invalid[0]).1, "Clipboard: plain text");
}

#[test]
fn icon_is_a_small_clipboard() {
    let px = icon_pixels();
    assert_eq!(px.len(), 22 * 22 * 4);
    let at = |x: usize, y: usize| px[(y * 22 + x) * 4..(y * 22 + x) * 4 + 4].to_vec();
    assert_eq!(at(4, 3), vec![0, 0, 0, 255]);
    assert_eq!(at(10, 1), vec![0, 0, 0, 255]);
    assert_eq!(at(7, 9), vec![0, 0, 0, 255]);
    assert_eq!(at(17, 20), vec![0, 0, 0, 255]);
    assert_eq!(at(0, 0), vec![0, 0, 0, 0]);
    assert_eq!(at(6, 9), vec![0, 0, 0, 0]);
    assert_eq!(at(10, 10), vec![0, 0, 0, 0]);
    assert_eq!(px.iter().filter(|&&b| b == 255).count(), 154);
}

#[test]
fn popup_remembers_force_and_app_once() {
    let mut p = PopupState::new();
    p.popup_closed(true, Some("com.apple.Notes".to_string()));
    let r = p.request(Target::Rich, false);
    assert_eq!(r.target, Target::Rich);
    assert!(r.force && r.from_popup);
    assert_eq!(r.app_id.as_deref(), Some("com.apple.Notes"));
    assert!(rtf_only_for(&r));
    let r = p.request(Target::Md, false);
    assert!(!r.force && !r.from_popup && r.app_id.is_none());
    let r = p.request(Target::Md, true);
    assert!(r.force, "the modifier held when choosing forces too");
}

#[test]
fn chooser_requests_come_from_the_popup() {
    let r = chooser_request(Choice { target: Target::Rich, force: false, app_id: Some("com.example.Mail".to_string()) });
    assert!(r.from_popup && !r.force);
    assert!(!rtf_only_for(&r));
    let menu = Request { target: Target::Rich, force: false, from_popup: false, app_id: Some("com.apple.TextEdit".to_string()) };
    assert!(!rtf_only_for(&menu), "only the popup writes RTF alone");
}

#[test]
fn requests_skip_write_or_find_nothing() {
    let flat = reads(Some("just some words\nsecond line"), None);
    let req = Request { target: Target::Plain, force: false, from_popup: false, app_id: None };
    match plan_request(&req, vec![Flavor::Text], &flat) {
        Plan::Unchanged(reason) => assert_eq!(reason, "the text has no Markdown syntax"),
        _ => panic!("plain of plain text is skipped"),
    }
    let forced = Request { force: true, ..req };
    match plan_request(&forced, vec![Flavor::Text], &flat) {
        Plan::Write { output, keep, .. } => {
            assert!(keep);
            assert_eq!(output.items.len(), 1);
            assert_eq!(output.items[0].0, Flavor::Text);
        }
        _ => panic!("a forced request converts"),
    }
    let rich = Request { target: Target::Rich, force: false, from_popup: true, app_id: None };
    assert!(matches!(plan_request(&rich, vec![], &reads(None, None)), Plan::Nothing));
    match plan_request(&rich, vec![Flavor::Text], &reads(Some("# Hi\n"), None)) {
        Plan::Write { output, keep, .. } => {
            assert!(!keep);
            assert_eq!(output.result, "<h1>Hi</h1>\n\n");
            assert_eq!(output.items.iter().map(|i| i.0).collect::<Vec<_>>(), vec![Flavor::Html, Flavor::Text, Flavor::Md]);
        }
        _ => panic!("Markdown converts to rich text"),
    }
}

#[test]
fn flashes_and_paste() {
    assert_eq!(flash_title(Target::Rich, &Outcome::Written), " ✓ Rich text");
    assert_eq!(flash_title(Target::Md, &Outcome::Unchanged), " = Markdown");
    assert_eq!(flash_title(Target::Md, &Outcome::Empty), " ✗ empty");
    assert_eq!(flash_title(Target::Md, &Outcome::WriteFailed("boom".to_string())), " ✗ boom");
    assert_eq!(flash_title(Target::Md, &Outcome::PasteFailed), " ✗ paste");
    assert!(should_paste(&Outcome::Written, true, true));
    assert!(should_paste(&Outcome::Unchanged, true, true));
    assert!(!should_paste(&Outcome::Written, false, true));
    assert!(!should_paste(&Outcome::Written, true, false));
    assert!(!should_paste(&Outcome::Empty, true, true));
}

#[test]
fn menu_entries_do_what_they_say() {
    assert!(matches!(menu_action("target-plain"), MenuAction::Convert(Target::Plain)));
    assert!(matches!(menu_action("about"), MenuAction::About));
    assert!(matches!(menu_action("accessibility"), MenuAction::Accessibility));
    assert!(matches!(menu_action("quit"), MenuAction::Quit));
    assert!(matches!(menu_action("target-"), MenuAction::Nothing));
    assert!(matches!(menu_action(""), MenuAction::Nothing));
    assert_eq!(ABOUT_URL, "http://jkn.me");
    assert!(ACCESSIBILITY_URL.ends_with("Privacy_Accessibility"));
}

#[test]
fn loop_timing() {
    assert_eq!(tick_ms(true), 50);
    assert_eq!(tick_ms(false), 250);
    assert_eq!(FLASH_MS, 1500);
}
