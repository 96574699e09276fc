use clipto::cli::{
    clipboard_listing, command_of, failure, help_text, nothing_usable, parse_args, plan_run, unchanged_report,
    unknown_command, written_report, Cli, Command, Invocation, RunPlan, NO_RESIDENT_MODE,
};
use clipto::convert::{ClipboardReads, Flavor, Target};

fn args(a: &[&str]) -> Vec<String> {
    a.iter().map(|s| s.to_string()).collect()
}

fn run(a: &[&str]) -> Cli<String, Vec<String>> {
    match parse_args(&args(a)) {
        Invocation::Run(c) => c,
        _ => panic!("expected a run"),
    }
}

fn reads(text: Option<&str>, html: Option<&str>) -> ClipboardReads {
    ClipboardReads {
        text: text.map(|t| t.as_bytes().to_vec()),
        html: html.map(|h| h.as_bytes().to_vec()),
        rtf: None,
        md: None,
    }
}

#[test]
fn options_and_words() {
    let c = run(&["md", "-x", "-i", "notes.md", "-p", "--rtf"]);
    assert_eq!(c.positional, vec!["md".to_string()]);
    assert!(c.exclusive && c.also_print && c.rtf_only);
    assert!(!c.to_stdout && !c.force && !c.no_paste);
    assert_eq!(c.infile.as_deref(), Some("notes.md"));
    let c = run(&["-o", "-f", "rich", "extra"]);
    assert!(c.to_stdout && c.force);
    assert_eq!(c.positional, args(&["rich", "extra"]));
    let c = run(&["daemon", "--hotkey", "ctrl+shift+f9", "--no-paste"]);
    assert_eq!(c.hotkey.as_deref(), Some("ctrl+shift+f9"));
    assert!(c.no_paste);
}

#[test]
fn options_missing_their_argument() {
    assert_eq!(run(&["-i"]).infile.as_deref(), Some("-"), "-i alone reads stdin");
    assert_eq!(run(&["--hotkey"]).hotkey, None);
    assert!(run(&[]).positional.is_empty());
}

#[test]
fn help_and_version_end_the_reading() {
    assert!(matches!(parse_args(&args(&["rich", "--help", "md"])), Invocation::Help));
    assert!(matches!(parse_args(&args(&["help"])), Invocation::Help));
    assert!(matches!(parse_args(&args(&["-h"])), Invocation::Help));
    assert!(matches!(parse_args(&args(&["-v", "-h"])), Invocation::Version));
    assert!(matches!(parse_args(&args(&["--version"])), Invocation::Version));
    assert!(matches!(parse_args(&args(&["-i", "-h"])), Invocation::Run(_)), "-h is the file name here");
}

#[test]
fn commands() {
    assert!(matches!(command_of(&args(&[])), Command::Overview));
    assert!(matches!(command_of(&args(&[""])), Command::Overview));
    assert!(matches!(command_of(&args(&["__serve"])), Command::Serve));
    assert!(matches!(command_of(&args(&["d"])), Command::Daemon));
    assert!(matches!(command_of(&args(&["daemon"])), Command::Daemon));
    assert!(matches!(command_of(&args(&["i"])), Command::Install));
    assert!(matches!(command_of(&args(&["u"])), Command::Uninstall));
    assert!(matches!(command_of(&args(&["uninstall"])), Command::Uninstall));
    assert!(matches!(command_of(&args(&["markdown", "x"])), Command::Convert(Target::Md)));
    assert!(matches!(command_of(&args(&["t"])), Command::Convert(Target::Text)));
    match command_of(&args(&["frob"])) {
        Command::Unknown(w) => assert_eq!(w, "frob"),
        _ => panic!("frob names nothing"),
    }
    assert_eq!(NO_RESIDENT_MODE, "resident mode is not available on this platform; use the command line");
}

#[test]
fn runs_skip_convert_or_find_nothing() {
    let flat = reads(Some("just some words"), None);
    match plan_run(&run(&["plain"]), Target::Plain, vec![Flavor::Text], &flat, None) {
        RunPlan::Unchanged(r) => assert_eq!(r, "the text has no Markdown syntax"),
        _ => panic!("skipped"),
    }
    match plan_run(&run(&["plain", "-f"]), Target::Plain, vec![Flavor::Text], &flat, None) {
        RunPlan::Convert { output, keep, .. } => {
            assert!(keep);
            assert_eq!(output.result, "just some words\n");
        }
        _ => panic!("forced"),
    }
    assert!(matches!(plan_run(&run(&["plain", "-o"]), Target::Plain, vec![Flavor::Text], &flat, None), RunPlan::Convert { .. }), "printing is never skipped");
    assert!(matches!(plan_run(&run(&["md"]), Target::Md, vec![], &reads(None, None), None), RunPlan::NoSource));
}

#[test]
fn runs_on_input_take_it_as_markdown() {
    let c = run(&["md", "-i", "notes.md"]);
    match plan_run(&c, Target::Md, vec![Flavor::Text], &reads(Some("# Hi\n"), None), Some(b"# Other\n".to_vec())) {
        RunPlan::Convert { output, keep, .. } => {
            assert_eq!(output.result, "# Other\n");
            assert!(keep);
        }
        _ => panic!("input converts"),
    }
    let c = run(&["md", "-x", "-i", "-"]);
    match plan_run(&c, Target::Md, vec![], &reads(None, None), Some(vec![0xff, b'a'])) {
        RunPlan::Convert { output, keep, .. } => {
            assert_eq!(output.result, "\u{fffd}a");
            assert!(!keep, "-x drops the others");
        }
        _ => panic!("input converts"),
    }
    let c = run(&["rich", "-i", "x"]);
    match plan_run(&c, Target::Rich, vec![], &reads(None, None), Some(b"*a*".to_vec())) {
        RunPlan::Convert { keep, output, .. } => {
            assert!(!keep, "rich replaces everything");
            assert_eq!(output.result, "<p><em>a</em></p>\n\n");
        }
        _ => panic!("input converts"),
    }
}

#[test]
fn reports() {
    assert_eq!(written_report(&[Flavor::Text, Flavor::Html], true, false), "✓ clipboard: plain text, HTML  (other flavors kept, -x to drop them)");
    assert_eq!(written_report(&[Flavor::Text, Flavor::Html], false, false), "✓ clipboard: plain text, HTML");
    assert_eq!(written_report(&[Flavor::Text], true, false), "✓ clipboard: plain text");
    assert_eq!(
        written_report(&[Flavor::Text, Flavor::Md], true, true),
        "\x1b[32m✓\x1b[0m clipboard: \x1b[36mplain text, Markdown\x1b[0m\x1b[2m  (other flavors kept, -x to drop them)\x1b[0m"
    );
    assert_eq!(
        unchanged_report("only plain text is on the clipboard", false),
        "= clipboard unchanged: only plain text is on the clipboard (-f to convert anyway)"
    );
    assert_eq!(nothing_usable(&args(&["text/plain", "text/html"])), "nothing usable on the clipboard (types: text/plain, text/html)");
    assert_eq!(nothing_usable(&args(&[])), "nothing usable on the clipboard (types: )");
    assert_eq!(failure("boom", false), "ct: boom");
    assert_eq!(failure("boom", true), "\x1b[31mct:\x1b[0m boom");
    assert_eq!(unknown_command("frob", false), "ct: unknown command 'frob'\n");
}

#[test]
fn help_lists_commands_and_options() {
    let h = help_text(false, false, false, "0.1.0");
    assert!(h.starts_with("ct — ClipTo 0.1.0: convert the clipboard between plain text, Markdown and rich text\nJohn Knipper · http://jkn.me\n\nCommands\n  rich/r       Markdown -> rich text (HTML + RTF + plain)\n  md/m         rich text -> Markdown source\n"));
    assert!(h.contains("  text/t       keep only the plain-text flavor\n\nOptions\n  -i FILE     read FILE ('-' = stdin) instead of the clipboard\n"));
    assert!(h.ends_with("  --rtf       rich: RTF without HTML, for Notes, TextEdit, Pages (the popup does it automatically)\n"));
    assert!(!h.contains("daemon/d"));
    let r = help_text(false, true, false, "0.1.0");
    assert!(r.contains("  daemon/d     tray icon + hotkey (Ctrl+Alt+Win+V) with a format chooser that pastes the result\n  install/i    run the daemon now and at login; uninstall/u removes it\n"));
    assert!(r.ends_with("  --no-paste  daemon/install: convert only, do not paste\n"));
    let c = help_text(true, false, false, "1");
    assert!(c.starts_with("\x1b[1m\x1b[36mct\x1b[0m\x1b[0m — ClipTo 1"));
    assert!(c.contains("  \x1b[32mplain/p    \x1b[0m  Markdown or rich text -> plain text\n"));
}

#[test]
fn listing_shows_each_flavor() {
    assert_eq!(clipboard_listing(&args(&[]), &reads(None, None), false), "Clipboard — (empty)\n");
    assert_eq!(
        clipboard_listing(&args(&["text/plain"]), &reads(Some("héllo"), None), false),
        "Clipboard — text/plain\n\n--- plain text (5 chars) ---  pasted by terminals, code editors, plain fields\nhéllo\n"
    );
    let long = "a".repeat(700);
    let l = clipboard_listing(&args(&["text/plain", "text/html"]), &reads(Some(&long), Some("<b>x</b>")), false);
    assert!(l.starts_with("Clipboard — text/plain, text/html\n\n--- plain text (700 chars) ---"));
    assert!(l.contains(&format!("\n{}…\n", "a".repeat(600))));
    assert!(l.ends_with("--- HTML (8 chars) ---  pasted by Mail, Notes, Slack, Outlook, Word, browsers (formatting kept)\n<b>x</b>\n"));
    let c = clipboard_listing(&args(&["a", "b"]), &reads(None, None), true);
    assert_eq!(c, "\x1b[1mClipboard\x1b[0m — a\x1b[2m, \x1b[0mb\n");
}
