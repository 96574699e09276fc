use clipto::autostart::{daemon_args, install, plist, run_command, uninstall, xml_escape, LABEL, NAME, RUN};

#[test]
fn resident_mode_arguments() {
    assert_eq!(daemon_args(None, false), vec!["daemon".to_string()]);
    assert_eq!(
        daemon_args(Some("ctrl+shift+f9"), true),
        vec!["daemon".to_string(), "--hotkey".to_string(), "ctrl+shift+f9".to_string(), "--no-paste".to_string()]
    );
}

#[test]
fn xml_text_escapes_ampersand_and_less_than() {
    assert_eq!(xml_escape("a&b<c>d"), "a&amp;b&lt;c>d");
    assert_eq!(xml_escape("&lt;"), "&amp;lt;");
    assert_eq!(xml_escape(""), "");
}

#[test]
fn launch_agent_property_list() {
    let p = plist("/Applications/ct & co/ct", Some("ctrl+f9"), false);
    let expected = String::new()
        + "<?xml version=\"1.0\" encoding=\"UTF-8\"?>\n"
        + "<!DOCTYPE plist PUBLIC \"-//Apple//DTD PLIST 1.0//EN\" \"http://www.apple.com/DTDs/PropertyList-1.0.dtd\">\n"
        + "<plist version=\"1.0\"><dict>\n"
        + "<key>Label</key><string>me.jkn.clipto</string>\n"
        + "<key>ProgramArguments</key><array>\n"
        + "    <string>/Applications/ct &amp; co/ct</string>\n"
        + "    <string>daemon</string>\n"
        + "    <string>--hotkey</string>\n"
        + "    <string>ctrl+f9</string>\n"
        + "</array>\n"
        + "<key>RunAtLoad</key><true/>\n<key>KeepAlive</key><true/>\n<key>ProcessType</key><string>Interactive</string>\n"
        + "</dict></plist>\n";
    assert_eq!(p, expected);
    assert_eq!(LABEL, "me.jkn.clipto");
}

#[test]
fn run_value_command_line() {
    assert_eq!(run_command("\\\\?\\C:\\tools\\ct.exe", Some("ctrl+f9"), true), "\"C:\\tools\\ct.exe\" daemon --hotkey ctrl+f9 --no-paste");
    assert_eq!(run_command("\\\\?\\\\\\?\\ct.exe", None, false), "\"ct.exe\" daemon");
    assert_eq!(run_command("C:\\ct.exe", None, true), "\"C:\\ct.exe\" daemon --no-paste");
    assert_eq!(NAME, "ClipTo");
    assert_eq!(RUN, "Software\\Microsoft\\Windows\\CurrentVersion\\Run");
}

#[test]
fn autostart_is_not_available_here() {
    assert_eq!(install(None, false), Err("autostart is not implemented on this platform yet".to_string()));
    assert_eq!(uninstall(), Err("autostart is not implemented on this platform yet".to_string()));
}
