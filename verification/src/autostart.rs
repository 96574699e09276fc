//! Starting the resident mode at login: the command line it is started with, the LaunchAgent
//! property list on macOS and the `Run` registry value on Windows. Writing them is the
//! platform's part.
use vstd::prelude::*;
use crate::text::{chars_of, push_chars, push_range, string_of};

verus! {

/// The LaunchAgent's label on macOS.
pub const LABEL: &'static str = "me.jkn.clipto";

/// The name of the registry value on Windows.
pub const NAME: &'static str = "ClipTo";

/// The registry key whose values Windows starts at login.
pub const RUN: &'static str = "Software\\Microsoft\\Windows\\CurrentVersion\\Run";

pub open spec fn opt_str(o: Option<&str>) -> Option<Seq<char>> {
    match o {
        Some(s) => Some(s@),
        None => None,
    }
}

/// The arguments that start the resident mode with the hotkey `hotkey` and, with `no_paste`,
/// without pasting.
pub open spec fn daemon_args_spec(hotkey: Option<Seq<char>>, no_paste: bool) -> Seq<Seq<char>> {
    seq!["daemon"@] + (match hotkey {
        Some(h) => seq!["--hotkey"@, h],
        None => seq![],
    }) + (if no_paste { seq!["--no-paste"@] } else { seq![] })
}

pub open spec fn strings_view(v: Seq<String>) -> Seq<Seq<char>> {
    v.map_values(|s: String| s@)
}

/// The arguments that start the resident mode (after the program's path).
pub fn daemon_args(hotkey: Option<&str>, no_paste: bool) -> (args: Vec<String>)
    ensures
        strings_view(args@) == daemon_args_spec(opt_str(hotkey), no_paste),
{
    let mut args: Vec<String> = Vec::new();
    args.push(String::from_str("daemon"));
    if let Some(h) = hotkey {
        args.push(String::from_str("--hotkey"));
        args.push(String::from_str(h));
    }
    if no_paste {
        args.push(String::from_str("--no-paste"));
    }
    assert(strings_view(args@) =~= daemon_args_spec(opt_str(hotkey), no_paste));
    args
}

/// `c` as it stands in XML text: `&` and `<` escaped.
pub open spec fn escape_char(c: char) -> Seq<char> {
    if c == '&' {
        "&amp;"@
    } else if c == '<' {
        "&lt;"@
    } else {
        seq![c]
    }
}

/// `s` as it stands in XML text.
pub open spec fn xml_escaped(s: Seq<char>) -> Seq<char>
    decreases s.len(),
{
    if s.len() == 0 {
        seq![]
    } else {
        xml_escaped(s.drop_last()) + escape_char(s.last())
    }
}

/// `s` with `&` and `<` escaped for XML text.
pub fn xml_escape(s: &str) -> (e: String)
    ensures
        e@ == xml_escaped(s@),
{
    let c = chars_of(s);
    let amp = chars_of("&amp;");
    let lt = chars_of("&lt;");
    let mut out: Vec<char> = Vec::new();
    let mut i: usize = 0;
    while i < c.len()
        invariant
            i <= c.len(),
            amp@ == "&amp;"@,
            lt@ == "&lt;"@,
            out@ == xml_escaped(c@.take(i as int)),
        decreases c.len() - i,
    {
        proof {
            assert(c@.take(i + 1).drop_last() =~= c@.take(i as int));
        }
        let ch = c[i];
        if ch == '&' {
            push_chars(&mut out, amp.as_slice());
        } else if ch == '<' {
            push_chars(&mut out, lt.as_slice());
        } else {
            out.push(ch);
            assert(out@ =~= xml_escaped(c@.take(i as int)) + seq![ch]);
        }
        i += 1;
    }
    assert(c@.take(c.len() as int) =~= c@);
    string_of(&out)
}

/// The head of the LaunchAgent's property list, up to the program's arguments.
pub open spec fn plist_head() -> Seq<char> {
    "<?xml version=\"1.0\" encoding=\"UTF-8\"?>\n<!DOCTYPE plist PUBLIC \"-//Apple//DTD PLIST 1.0//EN\" \"http://www.apple.com/DTDs/PropertyList-1.0.dtd\">\n<plist version=\"1.0\"><dict>\n<key>Label</key><string>me.jkn.clipto</string>\n<key>ProgramArguments</key><array>\n"@
}

/// The rest of the property list: started at load, kept alive, interactive.
pub open spec fn plist_tail() -> Seq<char> {
    "</array>\n<key>RunAtLoad</key><true/>\n<key>KeepAlive</key><true/>\n<key>ProcessType</key><string>Interactive</string>\n</dict></plist>\n"@
}

/// One `<string>` line per argument.
pub open spec fn plist_items(args: Seq<Seq<char>>) -> Seq<char>
    decreases args.len(),
{
    if args.len() == 0 {
        seq![]
    } else {
        plist_items(args.drop_last()) + "    <string>"@ + xml_escaped(args.last()) + "</string>\n"@
    }
}

/// The LaunchAgent property list that runs `exe` with `args`.
pub open spec fn plist_spec(exe: Seq<char>, args: Seq<Seq<char>>) -> Seq<char> {
    plist_head() + plist_items(seq![exe] + args) + plist_tail()
}

fn push_str(out: &mut Vec<char>, s: &str)
    ensures
        final(out)@ == old(out)@ + s@,
{
    let c = chars_of(s);
    push_chars(out, c.as_slice());
}

/// The LaunchAgent property list (macOS) that starts the resident mode of the program at
/// `exe` at login, with the hotkey `hotkey` and, with `no_paste`, without pasting.
pub fn plist(exe: &str, hotkey: Option<&str>, no_paste: bool) -> (p: String)
    ensures
        p@ == plist_spec(exe@, daemon_args_spec(opt_str(hotkey), no_paste)),
{
    let rest = daemon_args(hotkey, no_paste);
    let ghost all = seq![exe@] + strings_view(rest@);
    let mut out: Vec<char> = Vec::new();
    push_str(&mut out, "<?xml version=\"1.0\" encoding=\"UTF-8\"?>\n<!DOCTYPE plist PUBLIC \"-//Apple//DTD PLIST 1.0//EN\" \"http://www.apple.com/DTDs/PropertyList-1.0.dtd\">\n<plist version=\"1.0\"><dict>\n<key>Label</key><string>me.jkn.clipto</string>\n<key>ProgramArguments</key><array>\n");
    let ghost head = out@;
    push_str(&mut out, "    <string>");
    push_str(&mut out, xml_escape(exe).as_str());
    push_str(&mut out, "</string>\n");
    proof {
        let one = all.take(1);
        assert(one.drop_last() =~= Seq::<Seq<char>>::empty());
        assert(one.last() == exe@);
        assert(plist_items(one.drop_last()) =~= Seq::<char>::empty());
        assert(plist_items(one) =~= "    <string>"@ + xml_escaped(exe@) + "</string>\n"@);
        assert(out@ =~= head + plist_items(one));
    }
    let mut k: usize = 0;
    while k < rest.len()
        invariant
            k <= rest.len(),
            all == seq![exe@] + strings_view(rest@),
            out@ == head + plist_items(all.take(k + 1)),
        decreases rest.len() - k,
    {
        let ghost before = out@;
        push_str(&mut out, "    <string>");
        push_str(&mut out, xml_escape(rest[k].as_str()).as_str());
        push_str(&mut out, "</string>\n");
        proof {
            let next = all.take(k + 2);
            assert(next.drop_last() =~= all.take(k + 1));
            assert(next.last() == rest@[k as int]@);
            assert(plist_items(next) == plist_items(all.take(k + 1)) + "    <string>"@ + xml_escaped(
                rest@[k as int]@,
            ) + "</string>\n"@);
            assert(out@ =~= head + plist_items(next));
        }
        k += 1;
    }
    push_str(&mut out, "</array>\n<key>RunAtLoad</key><true/>\n<key>KeepAlive</key><true/>\n<key>ProcessType</key><string>Interactive</string>\n</dict></plist>\n");
    proof {
        assert(all.take(rest.len() + 1) =~= all);
    }
    string_of(&out)
}

/// `s` without every leading repetition of `p` (`str::trim_start_matches`).
pub open spec fn trim_prefixes(s: Seq<char>, p: Seq<char>) -> Seq<char>
    decreases s.len(),
{
    if p.len() > 0 && p.len() <= s.len() && s.take(p.len() as int) == p {
        trim_prefixes(s.skip(p.len() as int), p)
    } else {
        s
    }
}

/// The prefix `\\?\` that marks a verbatim path on Windows.
pub open spec fn verbatim_prefix() -> Seq<char> {
    seq!['\\', '\\', '?', '\\']
}

/// The command that the `Run` value (Windows) holds: the quoted program path, without the
/// verbatim prefix that canonical paths carry, then the resident mode's arguments.
pub open spec fn run_command_spec(exe: Seq<char>, hotkey: Option<Seq<char>>, no_paste: bool) -> Seq<char> {
    seq!['"'] + trim_prefixes(exe, verbatim_prefix()) + "\" daemon"@ + (match hotkey {
        Some(h) => " --hotkey "@ + h,
        None => seq![],
    }) + (if no_paste { " --no-paste"@ } else { seq![] })
}

/// Where the path left after removing the leading verbatim prefixes of `c` starts.
fn skip_verbatim(c: &Vec<char>) -> (i: usize)
    ensures
        i <= c.len(),
        c@.skip(i as int) == trim_prefixes(c@, verbatim_prefix()),
{
    let mut i: usize = 0;
    assert(c@.skip(0) =~= c@);
    while c.len() - i >= 4 && c[i] == '\\' && c[i + 1] == '\\' && c[i + 2] == '?' && c[i + 3] == '\\'
        invariant
            i <= c.len(),
            trim_prefixes(c@, verbatim_prefix()) == trim_prefixes(c@.skip(i as int), verbatim_prefix()),
        decreases c.len() - i,
    {
        proof {
            let t = c@.skip(i as int);
            assert(t.take(4) =~= verbatim_prefix());
            assert(t.skip(4) =~= c@.skip(i + 4));
        }
        i += 4;
    }
    proof {
        let t = c@.skip(i as int);
        if t.len() >= 4 && t.take(4) == verbatim_prefix() {
            assert(t.take(4)[0] == t[0] && t.take(4)[1] == t[1] && t.take(4)[2] == t[2] && t.take(4)[3] == t[3]);
        }
    }
    i
}

/// The command that the `Run` value holds for the program at `exe`.
pub fn run_command(exe: &str, hotkey: Option<&str>, no_paste: bool) -> (cmd: String)
    ensures
        cmd@ == run_command_spec(exe@, opt_str(hotkey), no_paste),
{
    let c = chars_of(exe);
    let i = skip_verbatim(&c);
    let mut out: Vec<char> = Vec::new();
    out.push('"');
    push_range(&mut out, &c, i, c.len());
    assert(c@.subrange(i as int, c.len() as int) =~= c@.skip(i as int));
    push_str(&mut out, "\" daemon");
    let ghost base = out@;
    assert(base =~= seq!['"'] + trim_prefixes(exe@, verbatim_prefix()) + "\" daemon"@);
    if let Some(h) = hotkey {
        push_str(&mut out, " --hotkey ");
        push_str(&mut out, h);
        assert(out@ =~= base + (" --hotkey "@ + h@));
    } else {
        assert(out@ =~= base + Seq::<char>::empty());
    }
    let ghost mid = out@;
    if no_paste {
        push_str(&mut out, " --no-paste");
    } else {
        assert(out@ =~= mid + Seq::<char>::empty());
    }
    string_of(&out)
}

/// Registers the resident mode to start at login. This platform has no way to do it yet.
pub fn install(hotkey: Option<&str>, no_paste: bool) -> (r: Result<String, String>)
    ensures
        r matches Err(e) && e@ == "autostart is not implemented on this platform yet"@,
{
    Err(String::from_str("autostart is not implemented on this platform yet"))
}

/// Removes the resident mode from the programs started at login. This platform has no way to
/// do it yet.
pub fn uninstall() -> (r: Result<String, String>)
    ensures
        r matches Err(e) && e@ == "autostart is not implemented on this platform yet"@,
{
    Err(String::from_str("autostart is not implemented on this platform yet"))
}

} // verus!
