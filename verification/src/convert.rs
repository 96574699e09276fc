//! Flavors on the clipboard, conversion targets, the skip rule, and the conversion itself.
use vstd::prelude::*;
use vstd::utf8::{decode_utf8, encode_utf8, valid_utf8};
use crate::clipboard::rich;
use crate::markdown::{from_html, html_of, markdown_of, page_head, page_tail, plain_of, to_html, to_plain, wrap_html};
use crate::text::{decode_exact, spans_of, chars_of, decode_lossy, lossy_text, contains_in, contains_seq, line_spans, lines, matches_at, skip_space, starts_with, trim_start, is_space, occurs_at};

verus! {

/// A representation the clipboard can hold.
#[derive(Clone, Copy, PartialEq, Eq, Debug, Structural)]
pub enum Flavor {
    Text,
    Html,
    Rtf,
    Md,
}

/// What a conversion produces.
#[derive(Clone, Copy, PartialEq, Eq, Debug, Structural)]
pub enum Target {
    Rich,
    Md,
    Plain,
    Html,
    Text,
}

pub open spec fn flavor_label(f: Flavor) -> Seq<char> {
    match f {
        Flavor::Text => "plain text"@,
        Flavor::Html => "HTML"@,
        Flavor::Rtf => "RTF"@,
        Flavor::Md => "Markdown"@,
    }
}

pub open spec fn flavor_pasted_by(f: Flavor) -> Seq<char> {
    match f {
        Flavor::Text => "terminals, code editors, plain fields"@,
        Flavor::Html => "Mail, Notes, Slack, Outlook, Word, browsers (formatting kept)"@,
        Flavor::Rtf => "TextEdit, WordPad, Word when no HTML is present"@,
        Flavor::Md => "nobody: private ClipTo flavor holding the Markdown source, so `ct md` can restore it exactly"@,
    }
}

impl Flavor {
    pub const ALL: [Flavor; 4] = [Flavor::Text, Flavor::Html, Flavor::Rtf, Flavor::Md];

    pub fn label(self) -> (res: &'static str)
        ensures
            res@ == flavor_label(self),
    {
        match self {
            Flavor::Text => "plain text",
            Flavor::Html => "HTML",
            Flavor::Rtf => "RTF",
            Flavor::Md => "Markdown",
        }
    }

    pub fn pasted_by(self) -> (res: &'static str)
        ensures
            res@ == flavor_pasted_by(self),
    {
        match self {
            Flavor::Text => "terminals, code editors, plain fields",
            Flavor::Html => "Mail, Notes, Slack, Outlook, Word, browsers (formatting kept)",
            Flavor::Rtf => "TextEdit, WordPad, Word when no HTML is present",
            Flavor::Md => "nobody: private ClipTo flavor holding the Markdown source, so `ct md` can restore it exactly",
        }
    }
}

pub open spec fn target_name(t: Target) -> Seq<char> {
    match t {
        Target::Rich => "rich"@,
        Target::Md => "md"@,
        Target::Plain => "plain"@,
        Target::Html => "html"@,
        Target::Text => "text"@,
    }
}

pub open spec fn target_title(t: Target) -> Seq<char> {
    match t {
        Target::Rich => "Rich text"@,
        Target::Md => "Markdown"@,
        Target::Plain => "Plain text"@,
        Target::Html => "HTML source"@,
        Target::Text => "Text only"@,
    }
}

pub open spec fn target_help(t: Target) -> Seq<char> {
    match t {
        Target::Rich => "Markdown -> rich text (HTML + RTF + plain)"@,
        Target::Md => "rich text -> Markdown source"@,
        Target::Plain => "Markdown or rich text -> plain text"@,
        Target::Html => "Markdown -> HTML source"@,
        Target::Text => "keep only the plain-text flavor"@,
    }
}

/// The command words and their short forms.
pub open spec fn parse_target(s: Seq<char>) -> Option<Target> {
    if s == "rich"@ || s == "r"@ {
        Some(Target::Rich)
    } else if s == "md"@ || s == "m"@ || s == "markdown"@ {
        Some(Target::Md)
    } else if s == "plain"@ || s == "p"@ {
        Some(Target::Plain)
    } else if s == "html"@ || s == "h"@ {
        Some(Target::Html)
    } else if s == "text"@ || s == "t"@ {
        Some(Target::Text)
    } else {
        None
    }
}

pub open spec fn replaces_all_spec(t: Target) -> bool {
    t == Target::Rich || t == Target::Text
}

/// Flavors to read first for `t`, given whether the text flavor looks like Markdown.
pub open spec fn preference(t: Target, text_is_md: bool) -> Seq<Flavor> {
    if t == Target::Text || ((t == Target::Rich || t == Target::Html) && text_is_md) {
        seq![Flavor::Md, Flavor::Text, Flavor::Html, Flavor::Rtf]
    } else {
        seq![Flavor::Md, Flavor::Html, Flavor::Rtf, Flavor::Text]
    }
}

impl Target {
    pub const ALL: [Target; 5] = [Target::Rich, Target::Md, Target::Plain, Target::Html, Target::Text];

    pub fn parse(s: &str) -> (res: Option<Target>)
        ensures
            res == parse_target(s@),
    {
        let c = chars_of(s);
        target_of_chars(&c)
    }

    pub fn name(self) -> (res: &'static str)
        ensures
            res@ == target_name(self),
    {
        match self {
            Target::Rich => "rich",
            Target::Md => "md",
            Target::Plain => "plain",
            Target::Html => "html",
            Target::Text => "text",
        }
    }

    pub fn title(self) -> (res: &'static str)
        ensures
            res@ == target_title(self),
    {
        match self {
            Target::Rich => "Rich text",
            Target::Md => "Markdown",
            Target::Plain => "Plain text",
            Target::Html => "HTML source",
            Target::Text => "Text only",
        }
    }

    pub fn help(self) -> (res: &'static str)
        ensures
            res@ == target_help(self),
    {
        match self {
            Target::Rich => "Markdown -> rich text (HTML + RTF + plain)",
            Target::Md => "rich text -> Markdown source",
            Target::Plain => "Markdown or rich text -> plain text",
            Target::Html => "Markdown -> HTML source",
            Target::Text => "keep only the plain-text flavor",
        }
    }

    /// Whether the conversion replaces the whole clipboard by default. Text-producing
    /// conversions only update the plain-text flavor and keep HTML/RTF, unless forced.
    pub fn replaces_all(self) -> (res: bool)
        ensures
            res == replaces_all_spec(self),
    {
        match self {
            Target::Rich | Target::Text => true,
            _ => false,
        }
    }

    /// Which clipboard flavors to try first, given whether the text flavor looks like Markdown.
    /// The private Markdown flavor wins when present. `rich` and `html` build from the text when
    /// it looks like Markdown, otherwise from the rich flavors.
    pub fn prefer_given(self, text_is_md: bool) -> (res: [Flavor; 4])
        ensures
            res@ == preference(self, text_is_md),
    {
        let r = match self {
            Target::Text => [Flavor::Md, Flavor::Text, Flavor::Html, Flavor::Rtf],
            Target::Rich if text_is_md => [Flavor::Md, Flavor::Text, Flavor::Html, Flavor::Rtf],
            Target::Html if text_is_md => [Flavor::Md, Flavor::Text, Flavor::Html, Flavor::Rtf],
            _ => [Flavor::Md, Flavor::Html, Flavor::Rtf, Flavor::Text],
        };
        assert(r@ =~= preference(self, text_is_md));
        r
    }
}

/// The target that the characters `c` name, if any.
pub fn target_of_chars(c: &Vec<char>) -> (res: Option<Target>)
    ensures
        res == parse_target(c@),
{
    if same_chars(c, "rich") || same_chars(c, "r") {
        Some(Target::Rich)
    } else if same_chars(c, "md") || same_chars(c, "m") || same_chars(c, "markdown") {
        Some(Target::Md)
    } else if same_chars(c, "plain") || same_chars(c, "p") {
        Some(Target::Plain)
    } else if same_chars(c, "html") || same_chars(c, "h") {
        Some(Target::Html)
    } else if same_chars(c, "text") || same_chars(c, "t") {
        Some(Target::Text)
    } else {
        None
    }
}

/// Whether the characters `c` spell `lit`.
pub fn same_chars(c: &Vec<char>, lit: &str) -> (b: bool)
    ensures
        b == (c@ == lit@),
{
    let l = chars_of(lit);
    if c.len() != l.len() {
        return false;
    }
    let mut i: usize = 0;
    while i < c.len()
        invariant
            c.len() == l.len(),
            l@ == lit@,
            i <= c.len(),
            forall|j: int| 0 <= j < i ==> c@[j] == l@[j],
        decreases c.len() - i,
    {
        if c[i] != l[i] {
            return false;
        }
        i += 1;
    }
    assert(c@ =~= l@);
    true
}


// ---------------------------------------------------------------- Markdown detection

/// A line that opens with Markdown block syntax: heading, list item, quote, fence, table row.
pub open spec fn block_marker(t: Seq<char>) -> bool {
    ||| starts_with(t, seq!['#'])
    ||| starts_with(t, seq!['-', ' '])
    ||| starts_with(t, seq!['*', ' '])
    ||| starts_with(t, seq!['>', ' '])
    ||| starts_with(t, seq!['`', '`', '`'])
    ||| starts_with(t, seq!['1', '.', ' '])
    ||| starts_with(t, seq!['|', ' '])
}

/// A line holding inline Markdown syntax: strong emphasis, code, a link.
pub open spec fn inline_marker(t: Seq<char>) -> bool {
    ||| contains_seq(t, seq!['*', '*'])
    ||| contains_seq(t, seq!['`'])
    ||| (contains_seq(t, seq![']', '(']) && contains_seq(t, seq!['[']))
}

pub open spec fn line_hits(t: Seq<char>) -> nat {
    (if block_marker(t) { 1nat } else { 0nat }) + (if inline_marker(t) { 1nat } else { 0nat })
}

/// (lines that are not blank, Markdown hits) over `ls`.
pub open spec fn markdown_tally(ls: Seq<Seq<char>>) -> (nat, nat)
    decreases ls.len(),
{
    if ls.len() == 0 {
        (0, 0)
    } else {
        let (n, h) = markdown_tally(ls.drop_last());
        let t = trim_start(ls.last());
        if t.len() == 0 {
            (n, h)
        } else {
            (n + 1, h + line_hits(t))
        }
    }
}

/// Some Markdown syntax, and on more than three lines at least one hit per four lines.
pub open spec fn looks_like_markdown_spec(s: Seq<char>) -> bool {
    let (n, h) = markdown_tally(lines(s));
    h > 0 && (n <= 3 || h * 4 >= n)
}

fn block_marker_at(s: &Vec<char>, t: usize, hi: usize) -> (b: bool)
    requires
        t <= hi <= s.len(),
    ensures
        b == block_marker(s@.subrange(t as int, hi as int)),
{
    proof {
        assert(['#']@ =~= seq!['#']);
        assert(['-', ' ']@ =~= seq!['-', ' ']);
        assert(['*', ' ']@ =~= seq!['*', ' ']);
        assert(['>', ' ']@ =~= seq!['>', ' ']);
        assert(['`', '`', '`']@ =~= seq!['`', '`', '`']);
        assert(['1', '.', ' ']@ =~= seq!['1', '.', ' ']);
        assert(['|', ' ']@ =~= seq!['|', ' ']);
    }
    matches_at(s, t, hi, &['#']) || matches_at(s, t, hi, &['-', ' ']) || matches_at(s, t, hi, &['*', ' '])
        || matches_at(s, t, hi, &['>', ' ']) || matches_at(s, t, hi, &['`', '`', '`'])
        || matches_at(s, t, hi, &['1', '.', ' ']) || matches_at(s, t, hi, &['|', ' '])
}

fn inline_marker_in(s: &Vec<char>, t: usize, hi: usize) -> (b: bool)
    requires
        t <= hi <= s.len(),
    ensures
        b == inline_marker(s@.subrange(t as int, hi as int)),
{
    proof {
        assert(['*', '*']@ =~= seq!['*', '*']);
        assert(['`']@ =~= seq!['`']);
        assert([']', '(']@ =~= seq![']', '(']);
        assert(['[']@ =~= seq!['[']);
    }
    contains_in(s, t, hi, &['*', '*']) || contains_in(s, t, hi, &['`']) || (contains_in(s, t, hi, &[']', '('])
        && contains_in(s, t, hi, &['[']))
}

/// Cheap check for Markdown syntax: headings, emphasis, list markers, code, links.
pub fn looks_like_markdown(text: &str) -> (res: bool)
    ensures
        res == looks_like_markdown_spec(text@),
{
    let s = chars_of(text);
    markdown_chars(&s)
}

pub fn markdown_chars(s: &Vec<char>) -> (res: bool)
    ensures
        res == looks_like_markdown_spec(s@),
{
    let spans = line_spans(s);
    let ghost ls = lines(s@);
    let mut n: u128 = 0;
    let mut h: u128 = 0;
    let mut k: usize = 0;
    while k < spans.len()
        invariant
            spans.len() == ls.len(),
            ls == lines(s@),
            k <= spans.len(),
            spans_of(s@, spans@, ls),
            (n as nat, h as nat) == markdown_tally(ls.take(k as int)),
            n <= k,
            h <= 2 * k,
        decreases spans.len() - k,
    {
        let (lo, hi) = spans[k];
        proof {
            assert(spans@[k as int].0 <= spans@[k as int].1);
        }
        let t = skip_space(s, lo, hi);
        proof {
            assert(ls.take(k + 1).drop_last() =~= ls.take(k as int));
            assert(ls.take(k + 1).last() == ls[k as int]);
        }
        if t < hi {
            let block = block_marker_at(s, t, hi);
            let inline = inline_marker_in(s, t, hi);
            proof {
                let tr = s@.subrange(t as int, hi as int);
                assert(tr == trim_start(ls[k as int]));
            }
            n = n + 1;
            if block {
                h = h + 1;
            }
            if inline {
                h = h + 1;
            }
        }
        k += 1;
    }
    proof {
        assert(ls.take(spans.len() as int) =~= ls);
    }
    h > 0 && (n <= 3 || h * 4 >= n)
}


/// Text that starts (after leading whitespace) with `<` and holds a closing tag.
pub open spec fn looks_like_html_spec(s: Seq<char>) -> bool {
    starts_with(trim_start(s), seq!['<']) && contains_seq(s, seq!['<', '/'])
}

pub fn looks_like_html(text: &str) -> (res: bool)
    ensures
        res == looks_like_html_spec(text@),
{
    let s = chars_of(text);
    let t = skip_space(&s, 0, s.len());
    proof {
        assert(s@.subrange(0, s.len() as int) =~= s@);
        assert(['<']@ =~= seq!['<']);
        assert(['<', '/']@ =~= seq!['<', '/']);
    }
    matches_at(&s, t, s.len(), &['<']) && contains_in(&s, 0, s.len(), &['<', '/'])
}

// ---------------------------------------------------------------- the skip rule

/// What is on the clipboard, as far as the skip rule needs to know.
pub struct Snapshot {
    pub present: Vec<Flavor>,
    pub text: String,
    pub md_source: Option<String>,
}

pub open spec fn opt_view(o: Option<String>) -> Option<Seq<char>> {
    match o {
        Some(s) => Some(s@),
        None => None,
    }
}

pub open spec fn lossy_or_empty(b: Option<Vec<u8>>) -> Seq<char> {
    match b {
        Some(v) => lossy_text(v@),
        None => Seq::empty(),
    }
}

pub open spec fn lossy_opt(b: Option<Vec<u8>>) -> Option<Seq<char>> {
    match b {
        Some(v) => Some(lossy_text(v@)),
        None => None,
    }
}

/// Why the clipboard already holds what `t` would produce, when it does.
pub open spec fn skip_reason(
    t: Target,
    present: Seq<Flavor>,
    text: Seq<char>,
    md: Option<Seq<char>>,
) -> Option<Seq<char>> {
    match t {
        Target::Rich => if present.contains(Flavor::Html) && !looks_like_markdown_spec(text) {
            Some("HTML is already on the clipboard and the text is not Markdown"@)
        } else {
            None
        },
        Target::Md => if !present.contains(Flavor::Text) {
            None
        } else {
            match md {
                Some(m) => if m == text {
                    Some("the text flavor already is the Markdown source"@)
                } else {
                    None
                },
                None => if !present.contains(Flavor::Html) && !present.contains(Flavor::Rtf) {
                    Some("no rich flavor, the text is taken as is"@)
                } else if looks_like_markdown_spec(text) {
                    Some("the text flavor already looks like Markdown"@)
                } else {
                    None
                },
            }
        },
        Target::Plain => if present.contains(Flavor::Text) && !present.contains(Flavor::Html)
            && !present.contains(Flavor::Rtf) && !looks_like_markdown_spec(text) {
            Some("the text has no Markdown syntax"@)
        } else {
            None
        },
        Target::Html => if present.contains(Flavor::Text) && looks_like_html_spec(text) {
            Some("the text flavor already is HTML source"@)
        } else {
            None
        },
        Target::Text => if present == seq![Flavor::Text] {
            Some("only plain text is on the clipboard"@)
        } else {
            None
        },
    }
}

impl Snapshot {
    /// The snapshot of a clipboard on which `present` are the flavors, `text` the raw bytes
    /// of the text flavor and `md` those of the private Markdown flavor.
    pub fn take(present: Vec<Flavor>, text: Option<Vec<u8>>, md: Option<Vec<u8>>) -> (c: Snapshot)
        ensures
            c.present@ == present@,
            c.text@ == lossy_or_empty(text),
            opt_view(c.md_source) == lossy_opt(md),
    {
        let t = match &text {
            Some(b) => decode_lossy(b.as_slice()),
            None => String::new(),
        };
        let m = match &md {
            Some(b) => Some(decode_lossy(b.as_slice())),
            None => None,
        };
        Snapshot { present, text: t, md_source: m }
    }

    pub fn has(&self, f: Flavor) -> (b: bool)
        ensures
            b == self.present@.contains(f),
    {
        let mut i: usize = 0;
        while i < self.present.len()
            invariant
                i <= self.present.len(),
                forall|j: int| 0 <= j < i ==> self.present@[j] != f,
            decreases self.present.len() - i,
        {
            if self.present[i] == f {
                return true;
            }
            i += 1;
        }
        false
    }
}

/// When the clipboard already holds what `target` would produce, say why and skip the conversion.
pub fn satisfied(target: Target, c: &Snapshot) -> (r: Option<String>)
    ensures
        opt_view(r) == skip_reason(target, c.present@, c.text@, opt_view(c.md_source)),
{
    match target {
        Target::Rich => if c.has(Flavor::Html) && !looks_like_markdown(c.text.as_str()) {
            Some(String::from_str("HTML is already on the clipboard and the text is not Markdown"))
        } else {
            None
        },
        Target::Md => {
            if !c.has(Flavor::Text) {
                return None;
            }
            if let Some(md) = &c.md_source {
                return if *md == c.text {
                    Some(String::from_str("the text flavor already is the Markdown source"))
                } else {
                    None
                };
            }
            if !c.has(Flavor::Html) && !c.has(Flavor::Rtf) {
                return Some(String::from_str("no rich flavor, the text is taken as is"));
            }
            if looks_like_markdown(c.text.as_str()) {
                Some(String::from_str("the text flavor already looks like Markdown"))
            } else {
                None
            }
        },
        Target::Plain => if c.has(Flavor::Text) && !c.has(Flavor::Html) && !c.has(Flavor::Rtf)
            && !looks_like_markdown(c.text.as_str()) {
            Some(String::from_str("the text has no Markdown syntax"))
        } else {
            None
        },
        Target::Html => if c.has(Flavor::Text) && looks_like_html(c.text.as_str()) {
            Some(String::from_str("the text flavor already is HTML source"))
        } else {
            None
        },
        Target::Text => if c.present.len() == 1 && c.present[0] == Flavor::Text {
            proof {
                assert(c.present@ =~= seq![Flavor::Text]);
            }
            Some(String::from_str("only plain text is on the clipboard"))
        } else {
            proof {
                if c.present@ == seq![Flavor::Text] {
                    assert(c.present@[0] == Flavor::Text);
                }
            }
            None
        },
    }
}

/// The skip rule on a clipboard read as `Snapshot::take` reads it.
pub fn already_satisfied(target: Target, present: Vec<Flavor>, text: Option<Vec<u8>>, md: Option<Vec<u8>>) -> (r: Option<String>)
    ensures
        opt_view(r) == skip_reason(target, present@, lossy_or_empty(text), lossy_opt(md)),
{
    let c = Snapshot::take(present, text, md);
    satisfied(target, &c)
}


// ---------------------------------------------------------------- conversion

/// What we read: either Markdown-ish text, or HTML from a rich source.
pub enum Source {
    Markdown(String),
    Html(String),
}

/// The Markdown source that `src` stands for.
pub open spec fn source_markdown(src: Source) -> Seq<char> {
    match src {
        Source::Markdown(m) => m@,
        Source::Html(h) => markdown_of(h@),
    }
}

/// The text of `src` as it reads without markup.
pub open spec fn source_raw_text(src: Source) -> Seq<char> {
    match src {
        Source::Markdown(m) => m@,
        Source::Html(h) => plain_of(markdown_of(h@)),
    }
}

impl Source {
    pub fn markdown(&self) -> (m: String)
        ensures
            m@ == source_markdown(*self),
    {
        match self {
            Source::Markdown(m) => m.clone(),
            Source::Html(h) => from_html(h.as_str()),
        }
    }

    pub fn raw_text(&self) -> (t: String)
        ensures
            t@ == source_raw_text(*self),
    {
        match self {
            Source::Markdown(m) => m.clone(),
            Source::Html(h) => {
                let md = from_html(h.as_str());
                to_plain(md.as_str())
            },
        }
    }
}

/// What a conversion writes: the printable result and the flavors for the clipboard.
pub struct Output {
    pub result: String,
    pub items: Vec<(Flavor, Vec<u8>)>,
}

pub open spec fn items_view(items: Seq<(Flavor, Vec<u8>)>) -> Seq<(Flavor, Seq<u8>)> {
    items.map_values(|it: (Flavor, Vec<u8>)| (it.0, it.1@))
}

pub open spec fn text_only(r: Seq<char>) -> Seq<(Flavor, Seq<u8>)> {
    seq![(Flavor::Text, encode_utf8(r))]
}

/// The printable result of converting `src` to `t`.
pub open spec fn convert_result(src: Source, t: Target) -> Seq<char> {
    let md = source_markdown(src);
    match t {
        Target::Rich => html_of(md).push('\n'),
        Target::Md => md,
        Target::Plain => plain_of(md),
        Target::Html => html_of(md).push('\n'),
        Target::Text => source_raw_text(src),
    }
}

/// The flavors written when converting `src` to `t`: everything for `rich` (this platform
/// has no RTF converter), only the text flavor otherwise.
pub open spec fn convert_items(src: Source, t: Target) -> Seq<(Flavor, Seq<u8>)> {
    let md = source_markdown(src);
    match t {
        Target::Rich => seq![
            (Flavor::Html, encode_utf8(page_head() + html_of(md) + page_tail())),
            (Flavor::Text, encode_utf8(plain_of(md))),
            (Flavor::Md, encode_utf8(md)),
        ],
        _ => text_only(convert_result(src, t)),
    }
}

fn utf8_of(s: &String) -> (b: Vec<u8>)
    ensures
        b@ == encode_utf8(s@),
{
    s.as_str().as_bytes_vec()
}

fn text_output(r: String) -> (o: Output)
    ensures
        o.result@ == r@,
        items_view(o.items@) == text_only(r@),
{
    let b = utf8_of(&r);
    let mut items: Vec<(Flavor, Vec<u8>)> = Vec::new();
    items.push((Flavor::Text, b));
    assert(items_view(items@) =~= text_only(r@));
    Output { result: r, items }
}

/// The `rich` output for the Markdown source `md`.
fn rich_output(md: String) -> (o: Output)
    ensures
        o.result@ == html_of(md@).push('\n'),
        items_view(o.items@) == seq![
            (Flavor::Html, encode_utf8(page_head() + html_of(md@) + page_tail())),
            (Flavor::Text, encode_utf8(plain_of(md@))),
            (Flavor::Md, encode_utf8(md@)),
        ],
{
    let body = to_html(md.as_str());
    let html = wrap_html(body.as_str());
    let mut items: Vec<(Flavor, Vec<u8>)> = Vec::new();
    items.push((Flavor::Html, utf8_of(&html)));
    if let Some(rtf) = rich::html_to_rtf(html.as_str()) {
        items.push((Flavor::Rtf, rtf));
    }
    let plain = to_plain(md.as_str());
    items.push((Flavor::Text, utf8_of(&plain)));
    items.push((Flavor::Md, utf8_of(&md)));
    let mut result = body;
    result.append("\n");
    proof {
        reveal_strlit("\n");
        assert(items_view(items@) =~= seq![
            (Flavor::Html, encode_utf8(page_head() + html_of(md@) + page_tail())),
            (Flavor::Text, encode_utf8(plain_of(md@))),
            (Flavor::Md, encode_utf8(md@)),
        ]);
    }
    Output { result, items }
}

pub fn convert(src: &Source, target: Target) -> (o: Output)
    ensures
        o.result@ == convert_result(*src, target),
        items_view(o.items@) == convert_items(*src, target),
{
    match target {
        Target::Rich => rich_output(src.markdown()),
        Target::Md => text_output(src.markdown()),
        Target::Plain => {
            let md = src.markdown();
            text_output(to_plain(md.as_str()))
        },
        Target::Html => {
            let md = src.markdown();
            let mut r = to_html(md.as_str());
            r.append("\n");
            proof {
                reveal_strlit("\n");
            }
            text_output(r)
        },
        Target::Text => text_output(src.raw_text()),
    }
}

/// Apple Notes, TextEdit, Pages and Stickies: apps that flatten pasted HTML to their own
/// styles but render RTF faithfully.
pub open spec fn rtf_app(app_id: Seq<char>) -> bool {
    app_id == "com.apple.Notes"@ || app_id == "com.apple.TextEdit"@ || app_id == "com.apple.iWork.Pages"@
        || app_id == "com.apple.Stickies"@
}

/// Whether rich text pasted into the app with bundle identifier `app_id` should be RTF only.
pub fn prefers_rtf(app_id: &str) -> (b: bool)
    ensures
        b == rtf_app(app_id@),
{
    let c = chars_of(app_id);
    same_chars(&c, "com.apple.Notes") || same_chars(&c, "com.apple.TextEdit") || same_chars(
        &c,
        "com.apple.iWork.Pages",
    ) || same_chars(&c, "com.apple.Stickies")
}

pub open spec fn has_flavor(items: Seq<(Flavor, Seq<u8>)>, f: Flavor) -> bool {
    exists|i: int| 0 <= i < items.len() && items[i].0 == f
}

/// `items` without the entries of flavor `f`.
pub open spec fn without_flavor(items: Seq<(Flavor, Seq<u8>)>, f: Flavor) -> Seq<(Flavor, Seq<u8>)> {
    items.filter(|it: (Flavor, Seq<u8>)| it.0 != f)
}

/// `convert`, except that `rich` with `rtf_only` drops the HTML flavor whenever RTF was made,
/// for apps that would otherwise pick the HTML and flatten it.
pub open spec fn convert_for_items(src: Source, t: Target, rtf_only: bool) -> Seq<(Flavor, Seq<u8>)> {
    let items = convert_items(src, t);
    if rtf_only && t == Target::Rich && has_flavor(items, Flavor::Rtf) {
        without_flavor(items, Flavor::Html)
    } else {
        items
    }
}

pub fn convert_for(src: &Source, target: Target, rtf_only: bool) -> (o: Output)
    ensures
        o.result@ == convert_result(*src, target),
        items_view(o.items@) == convert_for_items(*src, target, rtf_only),
{
    let out = convert(src, target);
    let ghost iv = items_view(out.items@);
    let mut has_rtf = false;
    let mut i: usize = 0;
    while i < out.items.len()
        invariant
            i <= out.items.len(),
            iv == items_view(out.items@),
            has_rtf == exists|j: int| 0 <= j < i && iv[j].0 == Flavor::Rtf,
        decreases out.items.len() - i,
    {
        if out.items[i].0 == Flavor::Rtf {
            has_rtf = true;
        }
        proof {
            if has_rtf {
                assert(iv[i as int].0 == Flavor::Rtf || exists|j: int| 0 <= j < i && iv[j].0 == Flavor::Rtf);
            }
        }
        i += 1;
    }
    if !(rtf_only && target == Target::Rich && has_rtf) {
        return out;
    }
    let Output { result, items } = out;
    let mut kept: Vec<(Flavor, Vec<u8>)> = Vec::new();
    let mut rest = items;
    let ghost all = iv;
    let n = rest.len();
    let mut k: usize = 0;
    while k < n
        invariant
            n == rest.len(),
            k <= n,
            all == items_view(rest@),
            items_view(kept@) == without_flavor(all.take(k as int), Flavor::Html),
        decreases n - k,
    {
        let f = rest[k].0;
        proof {
            assert(all.take(k + 1).drop_last() =~= all.take(k as int));
            reveal(Seq::filter);
        }
        if f != Flavor::Html {
            let b = rest[k].1.clone();
            kept.push((f, b));
            assert(items_view(kept@) =~= items_view(kept@.drop_last()).push((f, b@)));
        }
        k += 1;
    }
    proof {
        assert(all.take(n as int) =~= all);
    }
    Output { result, items: kept }
}

// ---------------------------------------------------------------- reading

/// The raw bytes of each flavor on the clipboard, `None` where a flavor is absent.
pub struct ClipboardReads {
    pub text: Option<Vec<u8>>,
    pub html: Option<Vec<u8>>,
    pub rtf: Option<Vec<u8>>,
    pub md: Option<Vec<u8>>,
}

pub open spec fn read_of(reads: ClipboardReads, f: Flavor) -> Option<Seq<u8>> {
    let b = match f {
        Flavor::Text => reads.text,
        Flavor::Html => reads.html,
        Flavor::Rtf => reads.rtf,
        Flavor::Md => reads.md,
    };
    match b {
        Some(v) => Some(v@),
        None => None,
    }
}

/// The source that flavor `f` gives: valid UTF-8 text or HTML (RTF needs a converter this
/// platform lacks), as `(is HTML, text)`.
pub open spec fn source_from(reads: ClipboardReads, f: Flavor) -> Option<(bool, Seq<char>)> {
    match read_of(reads, f) {
        Some(b) => if f != Flavor::Rtf && valid_utf8(b) {
            Some((f == Flavor::Html, decode_utf8(b)))
        } else {
            None
        },
        None => None,
    }
}

/// The source of the first flavor in `prefer` that gives one.
pub open spec fn first_source(prefer: Seq<Flavor>, reads: ClipboardReads) -> Option<(bool, Seq<char>)>
    decreases prefer.len(),
{
    if prefer.len() == 0 {
        None
    } else {
        match source_from(reads, prefer[0]) {
            Some(s) => Some(s),
            None => first_source(prefer.drop_first(), reads),
        }
    }
}

pub open spec fn source_view(o: Option<Source>) -> Option<(bool, Seq<char>)> {
    match o {
        Some(Source::Html(h)) => Some((true, h@)),
        Some(Source::Markdown(m)) => Some((false, m@)),
        None => None,
    }
}

fn bytes_of(b: &Option<Vec<u8>>) -> (c: Option<Vec<u8>>)
    ensures
        match (b, c) {
            (Some(x), Some(y)) => x@ == y@,
            (None, None) => true,
            _ => false,
        },
{
    match b {
        Some(v) => Some(v.clone()),
        None => None,
    }
}

/// Tries the flavors in order and returns the first usable source; `None` when nothing is.
pub fn read_source(prefer: &[Flavor], reads: &ClipboardReads) -> (r: Option<Source>)
    ensures
        source_view(r) == first_source(prefer@, *reads),
{
    let mut i: usize = 0;
    assert(prefer@.skip(0) =~= prefer@);
    while i < prefer.len()
        invariant
            i <= prefer.len(),
            first_source(prefer@, *reads) == first_source(prefer@.skip(i as int), *reads),
        decreases prefer.len() - i,
    {
        let f = prefer[i];
        proof {
            assert(prefer@.skip(i as int).drop_first() =~= prefer@.skip(i + 1));
            assert(prefer@.skip(i as int)[0] == f);
        }
        let b = match f {
            Flavor::Text => bytes_of(&reads.text),
            Flavor::Html => bytes_of(&reads.html),
            Flavor::Rtf => bytes_of(&reads.rtf),
            Flavor::Md => bytes_of(&reads.md),
        };
        if let Some(v) = b {
            if f == Flavor::Rtf {
                if let Some(h) = rich::rtf_to_html(v.as_slice()) {
                    return Some(Source::Html(h));
                }
            } else if let Some(s) = decode_exact(v) {
                return if f == Flavor::Html {
                    Some(Source::Html(s))
                } else {
                    Some(Source::Markdown(s))
                };
            }
        }
        i += 1;
    }
    proof {
        assert(prefer@.skip(i as int) =~= Seq::<Flavor>::empty());
    }
    None
}

impl Target {
    /// The reading order for this target on a clipboard whose text flavor holds `text`.
    pub fn prefer(self, text: Option<Vec<u8>>) -> (r: [Flavor; 4])
        ensures
            r@ == preference(
                self,
                match text {
                    Some(b) => looks_like_markdown_spec(lossy_text(b@)),
                    None => false,
                },
            ),
    {
        let text_is_md = match &text {
            Some(b) => {
                let s = decode_lossy(b.as_slice());
                looks_like_markdown(s.as_str())
            },
            None => false,
        };
        self.prefer_given(text_is_md)
    }
}


// ---------------------------------------------------------------- laws

/// Every target's name parses back to that target.
pub proof fn lemma_parse_name(t: Target)
    ensures
        parse_target(target_name(t)) == Some(t),
{
    reveal_strlit("rich");
    reveal_strlit("r");
    reveal_strlit("md");
    reveal_strlit("m");
    reveal_strlit("markdown");
    reveal_strlit("plain");
    reveal_strlit("p");
    reveal_strlit("html");
    reveal_strlit("h");
    reveal_strlit("text");
    reveal_strlit("t");
    assert("md"@[0] != "rich"@[0] && "md"@.len() != "r"@.len());
    assert("plain"@[0] != "rich"@[0] && "plain"@.len() != "r"@.len() && "plain"@[0] != "md"@[0]);
    assert("plain"@.len() != "m"@.len() && "plain"@[0] != "markdown"@[0]);
    assert("html"@[0] != "rich"@[0] && "html"@.len() != "r"@.len() && "html"@[0] != "md"@[0]);
    assert("html"@.len() != "m"@.len() && "html"@[0] != "markdown"@[0] && "html"@[0] != "plain"@[0]);
    assert("html"@.len() != "p"@.len());
    assert("text"@[0] != "rich"@[0] && "text"@.len() != "r"@.len() && "text"@[0] != "md"@[0]);
    assert("text"@.len() != "m"@.len() && "text"@[0] != "markdown"@[0] && "text"@[0] != "plain"@[0]);
    assert("text"@.len() != "p"@.len() && "text"@[0] != "html"@[0] && "text"@.len() != "h"@.len());
}

/// Whatever the target and the text, the private Markdown flavor is read first, and every
/// flavor is read exactly once.
pub proof fn lemma_preference_order(t: Target, text_is_md: bool)
    ensures
        preference(t, text_is_md).len() == 4,
        preference(t, text_is_md)[0] == Flavor::Md,
        forall|f: Flavor| #[trigger] preference(t, text_is_md).contains(f),
        forall|i: int, j: int|
            0 <= i < j < 4 ==> preference(t, text_is_md)[i] != preference(t, text_is_md)[j],
{
    let p = preference(t, text_is_md);
    assert forall|f: Flavor| #[trigger] p.contains(f) by {
        match f {
            Flavor::Md => assert(p[0] == f),
            Flavor::Text => assert(p[1] == f || p[3] == f),
            Flavor::Html => assert(p[1] == f || p[2] == f),
            Flavor::Rtf => assert(p[2] == f || p[3] == f),
        }
    }
}

/// `text` keeps Markdown text untouched.
pub proof fn lemma_text_keeps_markdown(m: String)
    ensures
        convert_result(Source::Markdown(m), Target::Text) == m@,
{
}

/// `text` on a rich source gives the plain rendering.
pub proof fn lemma_text_of_html_is_plain(h: String)
    ensures
        convert_result(Source::Html(h), Target::Text) == convert_result(Source::Html(h), Target::Plain),
{
}

/// `md`, `plain`, `html` and `text` write only the text flavor, which holds the printed result;
/// of those, only `text` replaces the whole clipboard.
pub proof fn lemma_text_targets_write_only_text(src: Source, t: Target)
    requires
        t != Target::Rich,
    ensures
        convert_items(src, t) == seq![(Flavor::Text, encode_utf8(convert_result(src, t)))],
        replaces_all_spec(t) <==> t == Target::Text,
{
}

/// `rich` writes HTML, plain text and the private Markdown flavor; the private flavor holds
/// the Markdown source, so `md` afterwards restores it exactly, and the text flavor is what
/// `plain` would write.
pub proof fn lemma_rich_keeps_source(src: Source)
    ensures
        convert_items(src, Target::Rich)[2] == (Flavor::Md, encode_utf8(source_markdown(src))),
        convert_items(src, Target::Rich)[1] == (Flavor::Text, encode_utf8(convert_result(src, Target::Plain))),
        convert_items(src, Target::Rich)[0].0 == Flavor::Html,
        replaces_all_spec(Target::Rich),
{
}

/// `text` is skipped exactly when plain text is the only flavor on the clipboard.
pub proof fn lemma_text_skipped_iff_only_text(present: Seq<Flavor>, text: Seq<char>, md: Option<Seq<char>>)
    ensures
        skip_reason(Target::Text, present, text, md) is Some <==> present == seq![Flavor::Text],
{
}


/// After `rich`, `md` restores the Markdown source exactly: with the private flavor that `rich`
/// wrote on the clipboard, it is the first source read, whatever the text flavor holds, and
/// `md` of it is the source itself.
pub proof fn lemma_md_restores_rich_source(src: Source, reads: ClipboardReads, text_is_md: bool, m: String)
    requires
        read_of(reads, Flavor::Md) == Some(convert_items(src, Target::Rich)[2].1),
        m@ == source_markdown(src),
    ensures
        first_source(preference(Target::Md, text_is_md), reads) == Some((false, source_markdown(src))),
        convert_result(Source::Markdown(m), Target::Md) == source_markdown(src),
{
    vstd::utf8::encode_utf8_valid_utf8(source_markdown(src));
    vstd::utf8::encode_utf8_decode_utf8(source_markdown(src));
}

/// With `rtf_only`, `rich` writes no HTML whenever it wrote RTF; otherwise it writes what
/// `convert` makes.
pub proof fn lemma_rtf_only_drops_html(src: Source, t: Target, rtf_only: bool)
    ensures
        rtf_only && t == Target::Rich && has_flavor(convert_items(src, t), Flavor::Rtf) ==> !has_flavor(
            convert_for_items(src, t, rtf_only),
            Flavor::Html,
        ),
        !rtf_only ==> convert_for_items(src, t, rtf_only) == convert_items(src, t),
{
    let items = convert_items(src, t);
    if rtf_only && t == Target::Rich && has_flavor(items, Flavor::Rtf) {
        let kept = without_flavor(items, Flavor::Html);
        assert forall|i: int| 0 <= i < kept.len() implies kept[i].0 != Flavor::Html by {
            items.lemma_filter_pred(|it: (Flavor, Seq<u8>)| it.0 != Flavor::Html, i);
        }
    }
}

/// `html` writes the HTML of the source's Markdown, for a rich source the Markdown made of
/// its HTML: the same as `rich` prints, and the HTML of what `md` gives.
pub proof fn lemma_html_is_html_of_markdown(src: Source, h: String)
    ensures
        convert_result(src, Target::Html) == html_of(source_markdown(src)).push('\n'),
        convert_result(Source::Html(h), Target::Html) == html_of(markdown_of(h@)).push('\n'),
        convert_result(src, Target::Html) == html_of(convert_result(src, Target::Md)).push('\n'),
        convert_result(src, Target::Html) == convert_result(src, Target::Rich),
        convert_items(src, Target::Html) == text_only(html_of(source_markdown(src)).push('\n')),
{
}

/// A rich flavor on the clipboard is converted, not skipped: `md` without the private
/// Markdown flavor converts it unless the text already looks like Markdown, and the
/// "no rich flavor" reason comes only when neither HTML nor RTF is present; `plain` always
/// converts it. `rich` is skipped only with HTML present and text that is not Markdown.
pub proof fn lemma_rich_flavors_convert(present: Seq<Flavor>, text: Seq<char>, md: Option<Seq<char>>)
    ensures
        (present.contains(Flavor::Html) || present.contains(Flavor::Rtf)) && !looks_like_markdown_spec(text)
            ==> skip_reason(Target::Md, present, text, None) is None,
        skip_reason(Target::Md, present, text, md) == Some("no rich flavor, the text is taken as is"@)
            ==> !present.contains(Flavor::Html) && !present.contains(Flavor::Rtf),
        present.contains(Flavor::Html) || present.contains(Flavor::Rtf)
            ==> skip_reason(Target::Plain, present, text, md) is None,
        looks_like_markdown_spec(text) ==> skip_reason(Target::Plain, present, text, md) is None,
        skip_reason(Target::Rich, present, text, md) is Some
            <==> present.contains(Flavor::Html) && !looks_like_markdown_spec(text),
{
    reveal_strlit("no rich flavor, the text is taken as is");
    reveal_strlit("the text flavor already looks like Markdown");
    reveal_strlit("the text flavor already is the Markdown source");
    assert("no rich flavor, the text is taken as is"@[0] != "the text flavor already looks like Markdown"@[0]);
    assert("no rich flavor, the text is taken as is"@[0] != "the text flavor already is the Markdown source"@[0]);
}

/// What `trim_start` drops is leading whitespace, so an occurrence of `p`, whose first
/// character is not whitespace, survives it.
proof fn lemma_trim_start_keeps(t: Seq<char>, p: Seq<char>)
    requires
        contains_seq(t, p),
        p.len() > 0,
        !is_space(p[0]),
    ensures
        contains_seq(trim_start(t), p),
    decreases t.len(),
{
    if t.len() > 0 && is_space(t[0]) {
        let i = choose|i: int| occurs_at(t, i, p);
        assert(i != 0) by {
            if i == 0 {
                assert(t.subrange(0, p.len() as int)[0] == t[0]);
            }
        }
        let u = t.drop_first();
        assert(u.subrange(i - 1, i - 1 + p.len()) =~= t.subrange(i, i + p.len()));
        assert(occurs_at(u, i - 1, p));
        lemma_trim_start_keeps(u, p);
    }
}

/// Strong emphasis, inline code and a link `[text](url)` anywhere in a line, and a heading,
/// list item, quote, code fence, numbered item or table row at its start, each count as a
/// hit; a text of one line holding a link looks like Markdown.
pub proof fn lemma_markdown_syntax_counts(t: Seq<char>)
    ensures
        contains_seq(t, seq![']', '(']) && contains_seq(t, seq!['[']) ==> line_hits(t) >= 1,
        contains_seq(t, seq!['*', '*']) ==> line_hits(t) >= 1,
        contains_seq(t, seq!['`']) ==> line_hits(t) >= 1,
        starts_with(t, seq!['#']) || starts_with(t, seq!['-', ' ']) || starts_with(t, seq!['*', ' '])
            || starts_with(t, seq!['>', ' ']) || starts_with(t, seq!['`', '`', '`'])
            || starts_with(t, seq!['1', '.', ' ']) || starts_with(t, seq!['|', ' ']) ==> line_hits(t) >= 1,
        (forall|j: int| 0 <= j < t.len() ==> t[j] != '\n') && contains_seq(t, seq![']', '('])
            && contains_seq(t, seq!['[']) ==> looks_like_markdown_spec(t),
{
    if (forall|j: int| 0 <= j < t.len() ==> t[j] != '\n') && contains_seq(t, seq![']', '('])
        && contains_seq(t, seq!['[']) {
        assert(!is_space(']'));
        assert(!is_space('['));
        lemma_trim_start_keeps(t, seq![']', '(']);
        lemma_trim_start_keeps(t, seq!['[']);
        let ts = trim_start(t);
        assert(ts.len() > 0) by {
            let i = choose|i: int| occurs_at(ts, i, seq!['[']);
        }
        assert(t.len() > 0);
        crate::text::lemma_newline_at_is(t, t.len() as int);
        let ls = lines(t);
        assert(ls == seq![t]);
        assert(ls.drop_last() =~= Seq::<Seq<char>>::empty());
        assert(ls.last() == t);
        assert(markdown_tally(Seq::<Seq<char>>::empty()) == (0nat, 0nat));
        assert(markdown_tally(ls) == (1nat, line_hits(ts)));
        assert(line_hits(ts) >= 1);
    }
}

} // verus!
