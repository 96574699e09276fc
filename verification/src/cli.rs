//! The command line: what the arguments ask for, and the texts that `ct` prints.
use vstd::prelude::*;
use crate::convert::{
    convert_for, convert_for_items, convert_result, first_source, flavor_label, lossy_opt, parse_target,
    read_source, replaces_all_spec, same_chars, skip_reason, source_view, target_of_chars, ClipboardReads, Flavor,
    Output, Source, Target,
};
use crate::daemon::{bytes_view, joined, labels, reads_text, reads_text_is_md, views};
use crate::term::{bold, cyan, dim, green, magenta, painted, err_cyan, err_dim, err_green, err_red, yellow};
use crate::text::{chars_of, decode_lossy, lossy_text, push_chars, string_of};
use crate::convert::{flavor_pasted_by, preference, target_help, target_name, read_of};
use crate::daemon::{description, describe, DEFAULT_HOTKEY};
use crate::text::{decimal, decimal_chars};

verus! {

/// The options of a conversion run and its positional words.
pub struct Cli<S, L> {
    pub infile: Option<S>,
    pub to_stdout: bool,
    pub also_print: bool,
    pub exclusive: bool,
    pub force: bool,
    pub rtf_only: bool,
    pub hotkey: Option<S>,
    pub no_paste: bool,
    pub positional: L,
}

pub type CliSpec = Cli<Seq<char>, Seq<Seq<char>>>;

pub open spec fn opt_seq(o: Option<String>) -> Option<Seq<char>> {
    match o {
        Some(s) => Some(s@),
        None => None,
    }
}

pub open spec fn strings_view(v: Seq<String>) -> Seq<Seq<char>> {
    v.map_values(|s: String| s@)
}

impl View for Cli<String, Vec<String>> {
    type V = CliSpec;

    open spec fn view(&self) -> CliSpec {
        Cli {
            infile: opt_seq(self.infile),
            to_stdout: self.to_stdout,
            also_print: self.also_print,
            exclusive: self.exclusive,
            force: self.force,
            rtf_only: self.rtf_only,
            hotkey: opt_seq(self.hotkey),
            no_paste: self.no_paste,
            positional: strings_view(self.positional@),
        }
    }
}

/// What the arguments ask for: help, the version, or a run.
pub enum Invocation<C> {
    Help,
    Version,
    Run(C),
}

pub open spec fn no_options() -> CliSpec {
    Cli {
        infile: None,
        to_stdout: false,
        also_print: false,
        exclusive: false,
        force: false,
        rtf_only: false,
        hotkey: None,
        no_paste: false,
        positional: seq![],
    }
}

/// The arguments from `i` on, read into `c`. `-i` and `--hotkey` take the next argument
/// (`-i` reads stdin when it is missing); help and version end the reading.
pub open spec fn parse_from(args: Seq<Seq<char>>, i: int, c: CliSpec) -> Invocation<CliSpec>
    decreases args.len() - i,
{
    if i < 0 || i >= args.len() {
        Invocation::Run(c)
    } else {
        let a = args[i];
        let next = if i + 2 <= args.len() { i + 2 } else { args.len() as int };
        if a == "-i"@ {
            parse_from(args, next, Cli { infile: Some(if i + 1 < args.len() { args[i + 1] } else { "-"@ }), ..c })
        } else if a == "-o"@ {
            parse_from(args, i + 1, Cli { to_stdout: true, ..c })
        } else if a == "-p"@ {
            parse_from(args, i + 1, Cli { also_print: true, ..c })
        } else if a == "-x"@ {
            parse_from(args, i + 1, Cli { exclusive: true, ..c })
        } else if a == "-f"@ {
            parse_from(args, i + 1, Cli { force: true, ..c })
        } else if a == "--rtf"@ {
            parse_from(args, i + 1, Cli { rtf_only: true, ..c })
        } else if a == "--hotkey"@ {
            parse_from(args, next, Cli { hotkey: if i + 1 < args.len() { Some(args[i + 1]) } else { None }, ..c })
        } else if a == "--no-paste"@ {
            parse_from(args, i + 1, Cli { no_paste: true, ..c })
        } else if a == "-h"@ || a == "--help"@ || a == "help"@ {
            Invocation::Help
        } else if a == "-v"@ || a == "--version"@ {
            Invocation::Version
        } else {
            parse_from(args, i + 1, Cli { positional: c.positional.push(a), ..c })
        }
    }
}

pub open spec fn parse_args_spec(args: Seq<Seq<char>>) -> Invocation<CliSpec> {
    parse_from(args, 0, no_options())
}

pub open spec fn invocation_view(r: Invocation<Cli<String, Vec<String>>>) -> Invocation<CliSpec> {
    match r {
        Invocation::Help => Invocation::Help,
        Invocation::Version => Invocation::Version,
        Invocation::Run(c) => Invocation::Run(c@),
    }
}

/// Reads the command-line arguments (without the program name).
pub fn parse_args(args: &Vec<String>) -> (r: Invocation<Cli<String, Vec<String>>>)
    ensures
        invocation_view(r) == parse_args_spec(strings_view(args@)),
{
    let ghost av = strings_view(args@);
    let mut c: Cli<String, Vec<String>> = Cli {
        infile: None,
        to_stdout: false,
        also_print: false,
        exclusive: false,
        force: false,
        rtf_only: false,
        hotkey: None,
        no_paste: false,
        positional: Vec::new(),
    };
    assert(c@.positional =~= Seq::<Seq<char>>::empty());
    let mut i: usize = 0;
    while i < args.len()
        invariant
            i <= args.len(),
            av == strings_view(args@),
            parse_args_spec(av) == parse_from(av, i as int, c@),
        decreases args.len() - i,
    {
        let a = chars_of(args[i].as_str());
        let next = if args.len() - i >= 2 { i + 2 } else { args.len() };
        assert(a@ == av[i as int]);
        if same_chars(&a, "-i") {
            c.infile = Some(if i + 1 < args.len() { args[i + 1].clone() } else { String::from_str("-") });
            i = next;
        } else if same_chars(&a, "-o") {
            c.to_stdout = true;
            i += 1;
        } else if same_chars(&a, "-p") {
            c.also_print = true;
            i += 1;
        } else if same_chars(&a, "-x") {
            c.exclusive = true;
            i += 1;
        } else if same_chars(&a, "-f") {
            c.force = true;
            i += 1;
        } else if same_chars(&a, "--rtf") {
            c.rtf_only = true;
            i += 1;
        } else if same_chars(&a, "--hotkey") {
            c.hotkey = if i + 1 < args.len() { Some(args[i + 1].clone()) } else { None };
            i = next;
        } else if same_chars(&a, "--no-paste") {
            c.no_paste = true;
            i += 1;
        } else if same_chars(&a, "-h") || same_chars(&a, "--help") || same_chars(&a, "help") {
            return Invocation::Help;
        } else if same_chars(&a, "-v") || same_chars(&a, "--version") {
            return Invocation::Version;
        } else {
            let ghost before = c@.positional;
            c.positional.push(args[i].clone());
            assert(c@.positional =~= before.push(av[i as int]));
            i += 1;
        }
    }
    Invocation::Run(c)
}


// ---------------------------------------------------------------- commands

/// What the first positional word asks for.
pub enum Command {
    /// No word: the help and what is on the clipboard.
    Overview,
    /// The background copy that keeps offering what `ct` wrote (Linux).
    Serve,
    Daemon,
    Install,
    Uninstall,
    Convert(Target),
    /// A word that names nothing.
    Unknown(String),
}

/// Whether `c` is what the word `w` asks for.
pub open spec fn command_is(c: Command, w: Seq<char>) -> bool {
    if w.len() == 0 {
        c is Overview
    } else if w == "__serve"@ {
        c is Serve
    } else if w == "daemon"@ || w == "d"@ {
        c is Daemon
    } else if w == "install"@ || w == "i"@ {
        c is Install
    } else if w == "uninstall"@ || w == "u"@ {
        c is Uninstall
    } else {
        match parse_target(w) {
            Some(t) => c == Command::Convert(t),
            None => c matches Command::Unknown(s) && s@ == w,
        }
    }
}

/// The first positional word, or nothing.
pub open spec fn first_word(positional: Seq<Seq<char>>) -> Seq<char> {
    if positional.len() > 0 {
        positional[0]
    } else {
        seq![]
    }
}

/// What the positional words ask for.
pub fn command_of(positional: &Vec<String>) -> (c: Command)
    ensures
        command_is(c, first_word(strings_view(positional@))),
{
    if positional.len() == 0 {
        return Command::Overview;
    }
    let w = chars_of(positional[0].as_str());
    assert(w@ == first_word(strings_view(positional@)));
    if w.len() == 0 {
        Command::Overview
    } else if same_chars(&w, "__serve") {
        Command::Serve
    } else if same_chars(&w, "daemon") || same_chars(&w, "d") {
        Command::Daemon
    } else if same_chars(&w, "install") || same_chars(&w, "i") {
        Command::Install
    } else if same_chars(&w, "uninstall") || same_chars(&w, "u") {
        Command::Uninstall
    } else {
        match target_of_chars(&w) {
            Some(t) => Command::Convert(t),
            None => Command::Unknown(positional[0].clone()),
        }
    }
}

// ---------------------------------------------------------------- a conversion run

/// What a conversion run does.
pub enum RunPlan {
    /// The clipboard already holds the target, for this reason.
    Unchanged(String),
    /// Nothing on the clipboard can be converted.
    NoSource,
    /// Convert `source`; `output` is the result. Unless it is printed instead, its flavors are
    /// written, keeping the others when `keep`.
    Convert { source: Source, output: Output, keep: bool },
}

/// Whether the run checks first that the clipboard does not already hold the target: only when
/// it reads and writes the clipboard and is not forced.
pub open spec fn checks_first(c: CliSpec) -> bool {
    c.infile is None && !c.to_stdout && !c.force
}

/// The source a run converts: the input read from a file or stdin, taken as Markdown, or the
/// first usable flavor on the clipboard.
pub open spec fn run_source(t: Target, reads: ClipboardReads, input: Option<Seq<u8>>) -> Option<(bool, Seq<char>)> {
    match input {
        Some(d) => Some((false, lossy_text(d))),
        None => first_source(preference(t, reads_text_is_md(reads)), reads),
    }
}

/// Whether a run keeps the flavors it does not write: unless told to drop them, or the target
/// replaces everything.
pub open spec fn keeps_others(exclusive: bool, t: Target) -> bool {
    !exclusive && !replaces_all_spec(t)
}

/// Decides what the run `c` for `t` does, on a clipboard holding the flavors `present` whose
/// bytes are `reads`; `input` is what was read from the file or stdin that `-i` names.
pub fn plan_run(
    c: &Cli<String, Vec<String>>,
    t: Target,
    present: Vec<Flavor>,
    reads: &ClipboardReads,
    input: Option<Vec<u8>>,
) -> (p: RunPlan)
    ensures
        (p is Unchanged) <==> (checks_first(c@) && skip_reason(t, present@, reads_text(*reads), lossy_opt(reads.md)) is Some),
        p matches RunPlan::Unchanged(r) ==> skip_reason(t, present@, reads_text(*reads), lossy_opt(reads.md)) == Some(r@),
        (p is NoSource) <==> (!(p is Unchanged) && run_source(t, *reads, bytes_view(input)) is None),
        p matches RunPlan::Convert { source, output, keep } ==> {
            &&& source_view(Some(source)) == run_source(t, *reads, bytes_view(input))
            &&& output.result@ == convert_result(source, t)
            &&& crate::convert::items_view(output.items@) == convert_for_items(source, t, c.rtf_only)
            &&& keep == keeps_others(c.exclusive, t)
        },
{
    if c.infile.is_none() && !c.to_stdout && !c.force {
        let text = match &reads.text {
            Some(v) => Some(v.clone()),
            None => None,
        };
        let md = match &reads.md {
            Some(v) => Some(v.clone()),
            None => None,
        };
        if let Some(reason) = crate::convert::already_satisfied(t, present, text, md) {
            return RunPlan::Unchanged(reason);
        }
    }
    let source = match input {
        Some(d) => Source::Markdown(decode_lossy(d.as_slice())),
        None => {
            let text = match &reads.text {
                Some(v) => Some(v.clone()),
                None => None,
            };
            let order = t.prefer(text);
            match read_source(order.as_slice(), reads) {
                Some(s) => s,
                None => {
                    return RunPlan::NoSource;
                },
            }
        },
    };
    let output = convert_for(&source, t, c.rtf_only);
    RunPlan::Convert { source: source, output: output, keep: !c.exclusive && !t.replaces_all() }
}

/// `md`, `plain` and `html` are non-destructive: they write only the text flavor and, unless
/// told to drop them, keep every other flavor. `rich` and `text` replace the whole clipboard.
pub proof fn lemma_non_destructive_targets(src: Source, t: Target, exclusive: bool)
    ensures
        (t == Target::Md || t == Target::Plain || t == Target::Html) ==> {
            &&& keeps_others(exclusive, t) == !exclusive
            &&& crate::convert::convert_items(src, t) == seq![
                (Flavor::Text, vstd::utf8::encode_utf8(convert_result(src, t))),
            ]
        },
        (t == Target::Rich || t == Target::Text) ==> !keeps_others(exclusive, t),
{
}

// ---------------------------------------------------------------- messages

fn push_str(out: &mut Vec<char>, s: &str)
    ensures
        final(out)@ == old(out)@ + s@,
{
    let c = chars_of(s);
    push_chars(out, c.as_slice());
}

/// The report after a write: the flavors now on the clipboard, and a note when others were
/// kept.
pub open spec fn written_line(present: Seq<Flavor>, keep: bool, on: bool) -> Seq<char> {
    painted("32"@, "✓"@, on) + " clipboard: "@ + painted("36"@, joined(labels(present), ", "@), on) + (if keep
        && present.len() > 1 {
        painted("2"@, "  (other flavors kept, -x to drop them)"@, on)
    } else {
        seq![]
    })
}

/// The report after a write, for stderr with colour `on`.
pub fn written_report(present: &[Flavor], keep: bool, on: bool) -> (s: String)
    ensures
        s@ == written_line(present@, keep, on),
{
    let mut names: Vec<Vec<char>> = Vec::new();
    let mut i: usize = 0;
    while i < present.len()
        invariant
            i <= present.len(),
            views(names@) == labels(present@.take(i as int)),
        decreases present.len() - i,
    {
        let l = chars_of(present[i].label());
        let ghost lv = l@;
        names.push(l);
        assert(views(names@) =~= views(names@.drop_last()).push(lv));
        assert(labels(present@.take(i + 1)) =~= labels(present@.take(i as int)).push(flavor_label(present@[i as int])));
        i += 1;
    }
    assert(present@.take(present.len() as int) =~= present@);
    let sep = chars_of(", ");
    let list = string_of(&crate::daemon::join_chars(&names, sep.as_slice()));
    let mut out: Vec<char> = Vec::new();
    push_str(&mut out, err_green("✓", on).as_str());
    push_str(&mut out, " clipboard: ");
    push_str(&mut out, err_cyan(list.as_str(), on).as_str());
    let ghost base = out@;
    if keep && present.len() > 1 {
        push_str(&mut out, err_dim("  (other flavors kept, -x to drop them)", on).as_str());
    } else {
        assert(out@ =~= base + Seq::<char>::empty());
    }
    string_of(&out)
}

/// The report when the clipboard already holds the target.
pub open spec fn unchanged_line(reason: Seq<char>, on: bool) -> Seq<char> {
    painted("32"@, "="@, on) + " clipboard unchanged: "@ + reason + " "@ + painted("2"@, "(-f to convert anyway)"@, on)
}

/// The report when the clipboard already holds the target, for stderr with colour `on`.
pub fn unchanged_report(reason: &str, on: bool) -> (s: String)
    ensures
        s@ == unchanged_line(reason@, on),
{
    let mut out: Vec<char> = Vec::new();
    push_str(&mut out, err_green("=", on).as_str());
    push_str(&mut out, " clipboard unchanged: ");
    push_str(&mut out, reason);
    push_str(&mut out, " ");
    push_str(&mut out, err_dim("(-f to convert anyway)", on).as_str());
    string_of(&out)
}

/// The message when nothing on the clipboard can be converted.
pub open spec fn nothing_usable_text(types: Seq<Seq<char>>) -> Seq<char> {
    "nothing usable on the clipboard (types: "@ + joined(types, ", "@) + ")"@
}

fn string_chars(v: &Vec<String>) -> (r: Vec<Vec<char>>)
    ensures
        views(r@) == strings_view(v@),
{
    let mut r: Vec<Vec<char>> = Vec::new();
    let mut i: usize = 0;
    while i < v.len()
        invariant
            i <= v.len(),
            views(r@) == strings_view(v@.take(i as int)),
        decreases v.len() - i,
    {
        let c = chars_of(v[i].as_str());
        let ghost cv = c@;
        r.push(c);
        assert(views(r@) =~= views(r@.drop_last()).push(cv));
        assert(strings_view(v@.take(i + 1)) =~= strings_view(v@.take(i as int)).push(v@[i as int]@));
        i += 1;
    }
    assert(v@.take(v.len() as int) =~= v@);
    r
}

/// The message when nothing on the clipboard can be converted; `types` are the names of the
/// formats on it.
pub fn nothing_usable(types: &Vec<String>) -> (s: String)
    ensures
        s@ == nothing_usable_text(strings_view(types@)),
{
    let names = string_chars(types);
    let sep = chars_of(", ");
    let list = crate::daemon::join_chars(&names, sep.as_slice());
    let mut out: Vec<char> = Vec::new();
    push_str(&mut out, "nothing usable on the clipboard (types: ");
    push_chars(&mut out, list.as_slice());
    push_str(&mut out, ")");
    string_of(&out)
}

/// A failure, as reported on stderr: `ct:` in red, then the message.
pub open spec fn failure_line(msg: Seq<char>, on: bool) -> Seq<char> {
    painted("31"@, "ct:"@, on) + " "@ + msg
}

/// A failure, as reported on stderr with colour `on`.
pub fn failure(msg: &str, on: bool) -> (s: String)
    ensures
        s@ == failure_line(msg@, on),
{
    let mut out: Vec<char> = Vec::new();
    push_str(&mut out, err_red("ct:", on).as_str());
    push_str(&mut out, " ");
    push_str(&mut out, msg);
    string_of(&out)
}

/// The report of a word that names no command.
pub open spec fn unknown_line(word: Seq<char>, on: bool) -> Seq<char> {
    painted("31"@, "ct:"@, on) + " unknown command '"@ + word + "'\n"@
}

/// The report of a word that names no command, for stderr with colour `on`.
pub fn unknown_command(word: &str, on: bool) -> (s: String)
    ensures
        s@ == unknown_line(word@, on),
{
    let mut out: Vec<char> = Vec::new();
    push_str(&mut out, err_red("ct:", on).as_str());
    push_str(&mut out, " unknown command '");
    push_str(&mut out, word);
    push_str(&mut out, "'\n");
    string_of(&out)
}

/// What a resident command answers where there is no resident mode.
pub const NO_RESIDENT_MODE: &'static str = "resident mode is not available on this platform; use the command line";


// ---------------------------------------------------------------- help

/// `n` spaces.
pub open spec fn spaces(n: int) -> Seq<char> {
    Seq::new(if n > 0 { n as nat } else { 0 }, |i: int| ' ')
}

/// `s` padded with spaces on the right to `n` characters (`{s:<n$}`).
pub open spec fn pad(s: Seq<char>, n: nat) -> Seq<char> {
    s + spaces(n - s.len())
}

fn push_pad(out: &mut Vec<char>, s: &str, n: usize)
    ensures
        final(out)@ == old(out)@ + pad(s@, n as nat),
{
    let c = chars_of(s);
    let ghost start = out@;
    push_chars(out, c.as_slice());
    let mut k: usize = c.len();
    while k < n
        invariant
            c.len() <= k,
            k == c.len() || k <= n,
            out@ == start + c@ + spaces(k - c.len()),
            c@ == s@,
        decreases n - k,
    {
        out.push(' ');
        assert(spaces(k + 1 - c.len()) =~= spaces(k - c.len()).push(' '));
        k += 1;
    }
    proof {
        if n <= c.len() {
            assert(spaces(n - c.len()) =~= Seq::<char>::empty());
            assert(spaces(k - c.len()) =~= Seq::<char>::empty());
        }
    }
}

/// A line of the command list: the name and its first letter, then `help`.
pub open spec fn command_line(word: Seq<char>, help: Seq<char>, on: bool) -> Seq<char> {
    "  "@ + painted("32"@, pad(word, 11), on) + "  "@ + help + "\n"@
}

/// A line of the option list.
pub open spec fn option_line(key: Seq<char>, help: Seq<char>, on: bool) -> Seq<char> {
    "  "@ + painted("33"@, pad(key, 10), on) + "  "@ + help + "\n"@
}

/// The command-list line of target `t`.
pub open spec fn target_line(t: Target, on: bool) -> Seq<char> {
    command_line(target_name(t) + "/"@ + target_name(t).take(1), target_help(t), on)
}

/// The options of every platform.
pub open spec fn options_text(on: bool) -> Seq<char> {
    option_line("-i FILE"@, "read FILE ('-' = stdin) instead of the clipboard"@, on)
        + option_line("-o"@, "print the result instead of writing the clipboard"@, on)
        + option_line("-p"@, "print the result after writing the clipboard"@, on)
        + option_line("-x"@, "drop the other flavors (md, plain, html keep HTML/RTF)"@, on)
        + option_line("-f"@, "convert even if the clipboard already holds the requested format"@, on)
        + option_line("--rtf"@, "rich: RTF without HTML, for Notes, TextEdit, Pages (the popup does it automatically)"@, on)
}

/// The commands and options of the resident mode.
pub open spec fn resident_commands(on: bool, mac: bool) -> Seq<char> {
    "  "@ + painted("32"@, pad("daemon/d"@, 11), on) + "  tray icon + hotkey ("@ + description(
        "ctrl+alt+super+v"@,
        mac,
    ) + ") with a format chooser that pastes the result\n"@ + "  "@ + painted("32"@, pad("install/i"@, 11), on)
        + "  run the daemon now and at login; "@ + painted("32"@, "uninstall/u"@, on) + " removes it\n"@
}

pub open spec fn resident_options(on: bool) -> Seq<char> {
    option_line("--hotkey K"@, "daemon/install: e.g. ctrl+alt+super+v, ctrl+shift+f9"@, on)
        + option_line("--no-paste"@, "daemon/install: convert only, do not paste"@, on)
}

/// The help's first lines: the name, what it does, the author, and the commands' heading.
pub open spec fn help_head(on: bool, version: Seq<char>) -> Seq<char> {
    painted("1"@, painted("36"@, "ct"@, on), on) + " — ClipTo "@ + version
        + ": convert the clipboard between plain text, Markdown and rich text\n"@
        + painted("2"@, "John Knipper · http://jkn.me"@, on) + "\n"@ + "\n"@ + painted("1"@, "Commands"@, on) + "\n"@
}

/// The command-list lines of the targets.
pub open spec fn targets_text(on: bool) -> Seq<char> {
    target_line(Target::Rich, on) + target_line(Target::Md, on) + target_line(Target::Plain, on) + target_line(
        Target::Html,
        on,
    ) + target_line(Target::Text, on)
}

/// The help: what `ct` is, its commands and its options. `resident` adds the resident mode,
/// whose hotkey reads as on macOS when `mac`; `version` is the program's version.
pub open spec fn help_spec(on: bool, resident: bool, mac: bool, version: Seq<char>) -> Seq<char> {
    help_head(on, version) + targets_text(on) + (if resident { resident_commands(on, mac) } else { seq![] })
        + "\n"@ + painted("1"@, "Options"@, on) + "\n"@ + options_text(on) + (if resident {
        resident_options(on)
    } else {
        seq![]
    })
}

fn push_option(out: &mut Vec<char>, key: &str, help: &str, on: bool)
    ensures
        final(out)@ == old(out)@ + option_line(key@, help@, on),
{
    let mut k: Vec<char> = Vec::new();
    push_pad(&mut k, key, 10);
    let ks = string_of(&k);
    let ghost start = out@;
    push_str(out, "  ");
    push_str(out, yellow(ks.as_str(), on).as_str());
    push_str(out, "  ");
    push_str(out, help);
    push_str(out, "\n");
    assert(out@ =~= start + option_line(key@, help@, on));
}

fn push_command(out: &mut Vec<char>, word: &str, help: &str, on: bool)
    ensures
        final(out)@ == old(out)@ + command_line(word@, help@, on),
{
    let mut k: Vec<char> = Vec::new();
    push_pad(&mut k, word, 11);
    let ks = string_of(&k);
    let ghost start = out@;
    push_str(out, "  ");
    push_str(out, green(ks.as_str(), on).as_str());
    push_str(out, "  ");
    push_str(out, help);
    push_str(out, "\n");
    assert(out@ =~= start + command_line(word@, help@, on));
}

fn target_word(t: Target) -> (w: String)
    ensures
        w@ == target_name(t) + "/"@ + target_name(t).take(1),
{
    let name = chars_of(t.name());
    let mut w: Vec<char> = Vec::new();
    push_chars(&mut w, name.as_slice());
    w.push('/');
    proof {
        reveal_strlit("rich");
        reveal_strlit("md");
        reveal_strlit("plain");
        reveal_strlit("html");
        reveal_strlit("text");
        reveal_strlit("/");
    }
    w.push(name[0]);
    assert(w@ =~= target_name(t) + "/"@ + target_name(t).take(1));
    string_of(&w)
}

fn push_help_head(out: &mut Vec<char>, on: bool, version: &str)
    ensures
        final(out)@ == old(out)@ + help_head(on, version@),
{
    let ghost start = out@;
    push_str(out, bold(cyan("ct", on).as_str(), on).as_str());
    push_str(out, " — ClipTo ");
    push_str(out, version);
    push_str(out, ": convert the clipboard between plain text, Markdown and rich text\n");
    push_str(out, dim("John Knipper · http://jkn.me", on).as_str());
    push_str(out, "\n");
    push_str(out, "\n");
    push_str(out, bold("Commands", on).as_str());
    push_str(out, "\n");
    assert(out@ =~= start + help_head(on, version@));
}

fn push_targets(out: &mut Vec<char>, on: bool)
    ensures
        final(out)@ == old(out)@ + targets_text(on),
{
    let ghost start = out@;
    push_command(out, target_word(Target::Rich).as_str(), Target::Rich.help(), on);
    push_command(out, target_word(Target::Md).as_str(), Target::Md.help(), on);
    push_command(out, target_word(Target::Plain).as_str(), Target::Plain.help(), on);
    push_command(out, target_word(Target::Html).as_str(), Target::Html.help(), on);
    push_command(out, target_word(Target::Text).as_str(), Target::Text.help(), on);
    assert(out@ =~= start + targets_text(on));
}

fn push_resident_commands(out: &mut Vec<char>, on: bool, mac: bool)
    ensures
        final(out)@ == old(out)@ + resident_commands(on, mac),
{
    let ghost start = out@;
    push_str(out, "  ");
    let mut d: Vec<char> = Vec::new();
    push_pad(&mut d, "daemon/d", 11);
    push_str(out, green(string_of(&d).as_str(), on).as_str());
    push_str(out, "  tray icon + hotkey (");
    push_str(out, describe(DEFAULT_HOTKEY, mac).as_str());
    push_str(out, ") with a format chooser that pastes the result\n");
    push_str(out, "  ");
    let mut i: Vec<char> = Vec::new();
    push_pad(&mut i, "install/i", 11);
    push_str(out, green(string_of(&i).as_str(), on).as_str());
    push_str(out, "  run the daemon now and at login; ");
    push_str(out, green("uninstall/u", on).as_str());
    push_str(out, " removes it\n");
    assert(out@ =~= start + resident_commands(on, mac));
}

fn push_options(out: &mut Vec<char>, on: bool)
    ensures
        final(out)@ == old(out)@ + options_text(on),
{
    let ghost start = out@;
    push_option(out, "-i FILE", "read FILE ('-' = stdin) instead of the clipboard", on);
    push_option(out, "-o", "print the result instead of writing the clipboard", on);
    push_option(out, "-p", "print the result after writing the clipboard", on);
    push_option(out, "-x", "drop the other flavors (md, plain, html keep HTML/RTF)", on);
    push_option(out, "-f", "convert even if the clipboard already holds the requested format", on);
    push_option(
        out,
        "--rtf",
        "rich: RTF without HTML, for Notes, TextEdit, Pages (the popup does it automatically)",
        on,
    );
    assert(out@ =~= start + options_text(on));
}

fn push_resident_options(out: &mut Vec<char>, on: bool)
    ensures
        final(out)@ == old(out)@ + resident_options(on),
{
    let ghost start = out@;
    push_option(out, "--hotkey K", "daemon/install: e.g. ctrl+alt+super+v, ctrl+shift+f9", on);
    push_option(out, "--no-paste", "daemon/install: convert only, do not paste", on);
    assert(out@ =~= start + resident_options(on));
}

/// The help, for stdout with colour `on`.
pub fn help_text(on: bool, resident: bool, mac: bool, version: &str) -> (h: String)
    ensures
        h@ == help_spec(on, resident, mac, version@),
{
    let mut out: Vec<char> = Vec::new();
    push_help_head(&mut out, on, version);
    push_targets(&mut out, on);
    let ghost listed = out@;
    if resident {
        push_resident_commands(&mut out, on, mac);
    } else {
        assert(out@ =~= listed + Seq::<char>::empty());
    }
    let ghost with_commands = out@;
    push_str(&mut out, "\n");
    push_str(&mut out, bold("Options", on).as_str());
    push_str(&mut out, "\n");
    push_options(&mut out, on);
    let ghost with_options = out@;
    if resident {
        push_resident_options(&mut out, on);
    } else {
        assert(out@ =~= with_options + Seq::<char>::empty());
    }
    assert(out@ =~= help_spec(on, resident, mac, version@));
    string_of(&out)
}

// ---------------------------------------------------------------- what is on the clipboard

/// How many characters of a flavor the listing shows before cutting it.
pub const SHOWN_CHARS: usize = 600;

/// The heading of flavor `f`'s section, for a text of `n` characters.
pub open spec fn section_heading(f: Flavor, n: nat, on: bool) -> Seq<char> {
    "\n"@ + painted("35"@, "--- "@ + flavor_label(f), on) + painted("2"@, " ("@ + decimal(n) + " chars) "@, on)
        + painted("35"@, "---"@, on) + "  "@ + painted("2"@, "pasted by "@ + flavor_pasted_by(f), on) + "\n"@
}

/// The text as the listing shows it: cut after 600 characters.
pub open spec fn section_body(s: Seq<char>, on: bool) -> Seq<char> {
    (if s.len() > 600 {
        s.take(600) + painted("2"@, "…"@, on)
    } else {
        s
    }) + "\n"@
}

/// The listing's section for flavor `f`, whose text is `s`: a heading with its size and who
/// pastes it, then the text, cut after 600 characters.
pub open spec fn section(f: Flavor, s: Seq<char>, on: bool) -> Seq<char> {
    section_heading(f, s.len(), on) + section_body(s, on)
}

fn push_heading(out: &mut Vec<char>, f: Flavor, n: usize, on: bool)
    ensures
        final(out)@ == old(out)@ + section_heading(f, n as nat, on),
{
    let ghost start = out@;
    push_str(out, "\n");
    let mut head = chars_of("--- ");
    push_str(&mut head, f.label());
    push_str(out, magenta(string_of(&head).as_str(), on).as_str());
    let mut size = chars_of(" (");
    let digits = decimal_chars(n as u64);
    push_chars(&mut size, digits.as_slice());
    push_str(&mut size, " chars) ");
    push_str(out, dim(string_of(&size).as_str(), on).as_str());
    push_str(out, magenta("---", on).as_str());
    push_str(out, "  ");
    let mut by = chars_of("pasted by ");
    push_str(&mut by, f.pasted_by());
    push_str(out, dim(string_of(&by).as_str(), on).as_str());
    push_str(out, "\n");
    assert(out@ =~= start + section_heading(f, n as nat, on));
}

fn push_body(out: &mut Vec<char>, s: &Vec<char>, on: bool)
    ensures
        final(out)@ == old(out)@ + section_body(s@, on),
{
    let ghost start = out@;
    if s.len() > SHOWN_CHARS {
        crate::text::push_range(out, s, 0, SHOWN_CHARS);
        push_str(out, dim("…", on).as_str());
        assert(s@.subrange(0, 600) =~= s@.take(600));
    } else {
        push_chars(out, s.as_slice());
    }
    push_str(out, "\n");
    assert(out@ =~= start + section_body(s@, on));
}

/// The section of flavor `f` when the clipboard holds it.
pub open spec fn section_of(f: Flavor, reads: ClipboardReads, on: bool) -> Seq<char> {
    match read_of(reads, f) {
        Some(b) => section(f, lossy_text(b), on),
        None => seq![],
    }
}

/// The listing of the clipboard: the names of its formats, then a section per flavor it holds.
pub open spec fn listing_spec(types: Seq<Seq<char>>, reads: ClipboardReads, on: bool) -> Seq<char> {
    painted("1"@, "Clipboard"@, on) + " — "@ + (if types.len() == 0 {
        painted("2"@, "(empty)"@, on)
    } else {
        joined(types, painted("2"@, ", "@, on))
    }) + "\n"@ + section_of(Flavor::Text, reads, on) + section_of(Flavor::Html, reads, on) + section_of(
        Flavor::Rtf,
        reads,
        on,
    ) + section_of(Flavor::Md, reads, on)
}

fn push_section(out: &mut Vec<char>, f: Flavor, bytes: &Option<Vec<u8>>, on: bool)
    ensures
        final(out)@ == old(out)@ + match bytes {
            Some(b) => section(f, lossy_text(b@), on),
            None => seq![],
        },
{
    match bytes {
        None => {
            assert(out@ =~= out@ + Seq::<char>::empty());
        },
        Some(b) => {
            let s = chars_of(decode_lossy(b.as_slice()).as_str());
            let ghost start = out@;
            push_heading(out, f, s.len(), on);
            push_body(out, &s, on);
            assert(out@ =~= start + section(f, lossy_text(b@), on));
        },
    }
}

/// The listing of the clipboard for stdout with colour `on`: `types` are the names of its
/// formats, `reads` the bytes of each flavor it holds.
pub fn clipboard_listing(types: &Vec<String>, reads: &ClipboardReads, on: bool) -> (s: String)
    ensures
        s@ == listing_spec(strings_view(types@), *reads, on),
{
    let mut out: Vec<char> = Vec::new();
    push_str(&mut out, bold("Clipboard", on).as_str());
    push_str(&mut out, " — ");
    if types.len() == 0 {
        push_str(&mut out, dim("(empty)", on).as_str());
    } else {
        let names = string_chars(types);
        let sep = chars_of(dim(", ", on).as_str());
        let list = crate::daemon::join_chars(&names, sep.as_slice());
        push_chars(&mut out, list.as_slice());
    }
    push_str(&mut out, "\n");
    push_section(&mut out, Flavor::Text, &reads.text, on);
    push_section(&mut out, Flavor::Html, &reads.html, on);
    push_section(&mut out, Flavor::Rtf, &reads.rtf, on);
    push_section(&mut out, Flavor::Md, &reads.md, on);
    string_of(&out)
}

} // verus!
