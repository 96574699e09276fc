//! Markdown <-> HTML <-> plain text.
//!
//! Markdown -> HTML and the Markdown event stream come from pulldown-cmark (CommonMark plus
//! tables, strikethrough and task lists); HTML -> Markdown comes from htmd. Markdown -> plain
//! text walks the event stream here.
use vstd::prelude::*;
use pulldown_cmark::{Event, Parser, Tag, TagEnd};
use htmd::options::{BulletListMarker, CodeBlockFence, CodeBlockStyle, HrStyle};
use crate::text::{
    chars_of, find_in, first_at, lemma_first_at_first, lemma_first_at_is, lemma_first_at_same, occurs_at, lemma_first_at_none, lemma_first_at_occurs, line_spans,
    lines, matches_at, spans_of, push_chars, push_range, skip_space, starts_with, string_of, to_upper, trim_end,
    trim_start, unicode_upper, drop_space, decimal, decimal_chars, ascii_lower, ascii_lower_exec,
};

verus! {

// ---------------------------------------------------------------- events

/// The block and span kinds that the plain-text rendering reads; every other kind is `Other`.
pub enum MdTag<S> {
    Paragraph,
    Heading(u8),
    List(Option<u64>),
    Item,
    CodeBlock,
    Link(S),
    Image,
    TableHead,
    TableRow,
    TableCell,
    Other,
}

/// One event of a parsed Markdown document. Raw HTML, block or inline, is `Html`.
pub enum MdEvent<S> {
    Start(MdTag<S>),
    End(MdTag<S>),
    Text(S),
    Code(S),
    Html(S),
    SoftBreak,
    HardBreak,
    Rule,
    TaskListMarker(bool),
    Other,
}

impl View for MdTag<String> {
    type V = MdTag<Seq<char>>;

    open spec fn view(&self) -> MdTag<Seq<char>> {
        match self {
            MdTag::Paragraph => MdTag::Paragraph,
            MdTag::Heading(l) => MdTag::Heading(*l),
            MdTag::List(n) => MdTag::List(*n),
            MdTag::Item => MdTag::Item,
            MdTag::CodeBlock => MdTag::CodeBlock,
            MdTag::Link(u) => MdTag::Link(u@),
            MdTag::Image => MdTag::Image,
            MdTag::TableHead => MdTag::TableHead,
            MdTag::TableRow => MdTag::TableRow,
            MdTag::TableCell => MdTag::TableCell,
            MdTag::Other => MdTag::Other,
        }
    }
}

impl View for MdEvent<String> {
    type V = MdEvent<Seq<char>>;

    open spec fn view(&self) -> MdEvent<Seq<char>> {
        match self {
            MdEvent::Start(t) => MdEvent::Start(t@),
            MdEvent::End(t) => MdEvent::End(t@),
            MdEvent::Text(s) => MdEvent::Text(s@),
            MdEvent::Code(s) => MdEvent::Code(s@),
            MdEvent::Html(s) => MdEvent::Html(s@),
            MdEvent::SoftBreak => MdEvent::SoftBreak,
            MdEvent::HardBreak => MdEvent::HardBreak,
            MdEvent::Rule => MdEvent::Rule,
            MdEvent::TaskListMarker(b) => MdEvent::TaskListMarker(*b),
            MdEvent::Other => MdEvent::Other,
        }
    }
}

pub open spec fn events_view(v: Seq<MdEvent<String>>) -> Seq<MdEvent<Seq<char>>> {
    v.map_values(|e: MdEvent<String>| e@)
}

pub open spec fn opt_tag_view(t: Option<MdTag<String>>) -> Option<MdTag<Seq<char>>> {
    match t {
        Some(x) => Some(x@),
        None => None,
    }
}

pub open spec fn opt_tags_view(v: Seq<Option<MdTag<String>>>) -> Seq<Option<MdTag<Seq<char>>>> {
    v.map_values(|t: Option<MdTag<String>>| opt_tag_view(t))
}

/// The pulldown-cmark extensions to switch on, as the bits of `pulldown_cmark::Options`.
#[derive(Clone, Copy)]
pub struct MdOptions {
    pub bits: u32,
}

/// Tables (`1 << 1`), strikethrough (`1 << 3`) and task lists (`1 << 4`).
pub fn markdown_options() -> (o: MdOptions)
    ensures
        o.bits == 26,
{
    assert(((1u32 << 1u32) | (1u32 << 3u32) | (1u32 << 4u32)) == 26u32) by (bit_vector);
    MdOptions { bits: (1u32 << 1u32) | (1u32 << 3u32) | (1u32 << 4u32) }
}

/// The kinds of parser events that carry a string, and the rest.
pub enum EventKind {
    Text,
    Code,
    Html,
    InlineHtml,
    Other,
}

/// Whether an event of kind `k` reaches the HTML writer as plain text, so that its string is
/// escaped rather than kept: exactly raw HTML, block or inline, is. Raw HTML in Markdown thus
/// shows up, `<name>` as `&lt;name&gt;`, instead of vanishing.
pub open spec fn shown_as_text_spec(k: EventKind) -> bool {
    k is Html || k is InlineHtml
}

/// Whether an event of kind `k` reaches the HTML writer as plain text.
pub fn shown_as_text(k: EventKind) -> (b: bool)
    ensures
        b == shown_as_text_spec(k),
{
    match k {
        EventKind::Html | EventKind::InlineHtml => true,
        _ => false,
    }
}

/// Which raw HTML events reach the HTML writer as text: the block ones, the inline ones.
#[derive(Clone, Copy)]
pub struct RawAsText {
    pub block: bool,
    pub inline: bool,
}

/// The choice that `shown_as_text` makes for raw HTML events.
pub open spec fn raw_as_text() -> RawAsText {
    RawAsText {
        block: shown_as_text_spec(EventKind::Html),
        inline: shown_as_text_spec(EventKind::InlineHtml),
    }
}

/// The HTML that pulldown-cmark's `html::push_html` writes for the events of
/// `pulldown_cmark::Parser::new_ext` on `md` with the options `opts`, where each `Html` event
/// is handed on as a `Text` event with the same string when `raw.block`, and each
/// `InlineHtml` event when `raw.inline`.
pub uninterp spec fn markdown_html(md: Seq<char>, opts: MdOptions, raw: RawAsText) -> Seq<char>;

/// The events of `pulldown_cmark::Parser` on `md`, with every `Start` and `End` carrying
/// `MdTag::Other` in place of its tag.
pub uninterp spec fn markdown_event_kinds(md: Seq<char>, opts: MdOptions) -> Seq<MdEvent<Seq<char>>>;

/// For each event of `pulldown_cmark::Parser` on `md`, the tag it starts, or `None` when it is
/// no `Start` event.
pub uninterp spec fn markdown_start_tags(md: Seq<char>, opts: MdOptions) -> Seq<Option<MdTag<Seq<char>>>>;

/// For each event of `pulldown_cmark::Parser` on `md`, the tag it ends, or `None` when it is no
/// `End` event.
pub uninterp spec fn markdown_end_tags(md: Seq<char>, opts: MdOptions) -> Seq<Option<MdTag<Seq<char>>>>;

/// Calls `pulldown_cmark::html::push_html` on the events of `pulldown_cmark::Parser::new_ext`,
/// handing each `Html` event on as `Text` with its string when `raw.block`, and each
/// `InlineHtml` event when `raw.inline`. Claims only that the result is a function of `md`,
/// `opts` and `raw`, named `markdown_html`.
#[verifier::external_body]
fn parse_to_html(md: &str, opts: MdOptions, raw: RawAsText) -> (h: String)
    ensures
        h@ == markdown_html(md@, opts, raw),
{
    let parser = Parser::new_ext(md, pulldown_cmark::Options::from_bits_truncate(opts.bits));
    let mut out = String::new();
    pulldown_cmark::html::push_html(&mut out, parser.map(|e| match e {
        Event::Html(s) if raw.block => Event::Text(s),
        Event::InlineHtml(s) if raw.inline => Event::Text(s),
        other => other,
    }));
    out
}

/// Iterates `pulldown_cmark::Parser::new_ext` and hands each event on as an `MdEvent`, one
/// arm per event kind, tags left out. Claims only that the result is named
/// `markdown_event_kinds`.
#[verifier::external_body]
fn parse_event_kinds(md: &str, opts: MdOptions) -> (v: Vec<MdEvent<String>>)
    ensures
        events_view(v@) == markdown_event_kinds(md@, opts),
{
    Parser::new_ext(md, pulldown_cmark::Options::from_bits_truncate(opts.bits)).map(|e| match e {
        Event::Start(_) => MdEvent::Start(MdTag::Other),
        Event::End(_) => MdEvent::End(MdTag::Other),
        Event::Text(s) => MdEvent::Text(s.into_string()),
        Event::Code(s) => MdEvent::Code(s.into_string()),
        Event::Html(s) | Event::InlineHtml(s) => MdEvent::Html(s.into_string()),
        Event::SoftBreak => MdEvent::SoftBreak,
        Event::HardBreak => MdEvent::HardBreak,
        Event::Rule => MdEvent::Rule,
        Event::TaskListMarker(done) => MdEvent::TaskListMarker(done),
        _ => MdEvent::Other,
    }).collect()
}

/// Iterates `pulldown_cmark::Parser::new_ext` and hands on, for each event, the tag it starts
/// (one arm per tag kind) or `None`. Claims only that the result is named
/// `markdown_start_tags`.
#[verifier::external_body]
fn parse_start_tags(md: &str, opts: MdOptions) -> (v: Vec<Option<MdTag<String>>>)
    ensures
        opt_tags_view(v@) == markdown_start_tags(md@, opts),
{
    Parser::new_ext(md, pulldown_cmark::Options::from_bits_truncate(opts.bits)).map(|e| match e {
        Event::Start(t) => Some(match t {
            Tag::Paragraph => MdTag::Paragraph,
            Tag::Heading { level, .. } => MdTag::Heading(level as u8),
            Tag::List(first) => MdTag::List(first),
            Tag::Item => MdTag::Item,
            Tag::CodeBlock(_) => MdTag::CodeBlock,
            Tag::Link { dest_url, .. } => MdTag::Link(dest_url.into_string()),
            Tag::Image { .. } => MdTag::Image,
            Tag::TableCell => MdTag::TableCell,
            _ => MdTag::Other,
        }),
        _ => None,
    }).collect()
}

/// Iterates `pulldown_cmark::Parser::new_ext` and hands on, for each event, the tag it ends
/// (one arm per tag kind) or `None`. Claims only that the result is named `markdown_end_tags`.
#[verifier::external_body]
fn parse_end_tags(md: &str, opts: MdOptions) -> (v: Vec<Option<MdTag<String>>>)
    ensures
        opt_tags_view(v@) == markdown_end_tags(md@, opts),
{
    Parser::new_ext(md, pulldown_cmark::Options::from_bits_truncate(opts.bits)).map(|e| match e {
        Event::End(t) => Some(match t {
            TagEnd::Paragraph => MdTag::Paragraph, TagEnd::Heading(l) => MdTag::Heading(l as u8),
            TagEnd::List(_) => MdTag::List(None), TagEnd::Item => MdTag::Item,
            TagEnd::CodeBlock => MdTag::CodeBlock, TagEnd::Link => MdTag::Link(String::new()),
            TagEnd::Image => MdTag::Image, TagEnd::TableHead => MdTag::TableHead,
            TagEnd::TableRow => MdTag::TableRow, TagEnd::TableCell => MdTag::TableCell,
            _ => MdTag::Other,
        }),
        _ => None,
    }).collect()
}

/// The tag at `i` of `tags`, or `Other` where there is none.
pub open spec fn tag_at(tags: Seq<Option<MdTag<Seq<char>>>>, i: int) -> MdTag<Seq<char>> {
    if 0 <= i < tags.len() {
        match tags[i] {
            Some(t) => t,
            None => MdTag::Other,
        }
    } else {
        MdTag::Other
    }
}

/// The event stream `raw` with each `Start` and `End` carrying the tag found at its position
/// in `starts` and `ends`.
pub open spec fn merge_tags(
    raw: Seq<MdEvent<Seq<char>>>,
    starts: Seq<Option<MdTag<Seq<char>>>>,
    ends: Seq<Option<MdTag<Seq<char>>>>,
) -> Seq<MdEvent<Seq<char>>> {
    Seq::new(
        raw.len(),
        |i: int|
            match raw[i] {
                MdEvent::Start(_) => MdEvent::Start(tag_at(starts, i)),
                MdEvent::End(_) => MdEvent::End(tag_at(ends, i)),
                other => other,
            },
    )
}

/// The events of `md` with their tags.
pub open spec fn markdown_events(md: Seq<char>, opts: MdOptions) -> Seq<MdEvent<Seq<char>>> {
    merge_tags(
        markdown_event_kinds(md, opts),
        markdown_start_tags(md, opts),
        markdown_end_tags(md, opts),
    )
}

fn clone_tag(t: &MdTag<String>) -> (c: MdTag<String>)
    ensures
        c@ == t@,
{
    match t {
        MdTag::Paragraph => MdTag::Paragraph,
        MdTag::Heading(l) => MdTag::Heading(*l),
        MdTag::List(n) => MdTag::List(*n),
        MdTag::Item => MdTag::Item,
        MdTag::CodeBlock => MdTag::CodeBlock,
        MdTag::Link(u) => MdTag::Link(u.clone()),
        MdTag::Image => MdTag::Image,
        MdTag::TableHead => MdTag::TableHead,
        MdTag::TableRow => MdTag::TableRow,
        MdTag::TableCell => MdTag::TableCell,
        MdTag::Other => MdTag::Other,
    }
}

fn tag_in(tags: &Vec<Option<MdTag<String>>>, i: usize) -> (t: MdTag<String>)
    ensures
        t@ == tag_at(opt_tags_view(tags@), i as int),
{
    if i < tags.len() {
        match &tags[i] {
            Some(t) => clone_tag(t),
            None => MdTag::Other,
        }
    } else {
        MdTag::Other
    }
}

/// The parsed events of `md`, tags included.
pub fn events(md: &str, opts: MdOptions) -> (v: Vec<MdEvent<String>>)
    ensures
        events_view(v@) == markdown_events(md@, opts),
{
    let raw = parse_event_kinds(md, opts);
    let starts = parse_start_tags(md, opts);
    let ends = parse_end_tags(md, opts);
    let ghost rv = events_view(raw@);
    let ghost sv = opt_tags_view(starts@);
    let ghost ev = opt_tags_view(ends@);
    let mut out: Vec<MdEvent<String>> = Vec::new();
    let n = raw.len();
    let mut idx: usize = 0;
    while idx < n
        invariant
            n == raw.len(),
            idx <= n,
            rv == events_view(raw@),
            sv == opt_tags_view(starts@),
            ev == opt_tags_view(ends@),
            events_view(out@) == merge_tags(rv, sv, ev).take(idx as int),
        decreases n - idx,
    {
        proof {
            assert(rv[idx as int] == raw@[idx as int]@);
        }
        let e = match &raw[idx] {
            MdEvent::Start(_) => MdEvent::Start(tag_in(&starts, idx)),
            MdEvent::End(_) => MdEvent::End(tag_in(&ends, idx)),
            MdEvent::Text(s) => MdEvent::Text(s.clone()),
            MdEvent::Code(s) => MdEvent::Code(s.clone()),
            MdEvent::Html(s) => MdEvent::Html(s.clone()),
            MdEvent::SoftBreak => MdEvent::SoftBreak,
            MdEvent::HardBreak => MdEvent::HardBreak,
            MdEvent::Rule => MdEvent::Rule,
            MdEvent::TaskListMarker(d) => MdEvent::TaskListMarker(*d),
            MdEvent::Other => MdEvent::Other,
        };
        out.push(e);
        proof {
            assert(events_view(out@) =~= events_view(out@.drop_last()).push(e@));
            assert(merge_tags(rv, sv, ev).take(idx + 1) =~= merge_tags(rv, sv, ev).take(idx as int).push(e@));
        }
        idx += 1;
    }
    proof {
        assert(merge_tags(rv, sv, ev).take(n as int) =~= merge_tags(rv, sv, ev));
    }
    out
}


// ---------------------------------------------------------------- plain text

/// The state of the plain-text rendering: the text so far, the open lists (each with the
/// number of its next item when numbered), the open heading level, and whether a code
/// block, a link (with its target) or an image is open.
#[verifier::ext_equal]
pub struct PlainWriter<S, L> {
    pub out: S,
    pub lists: L,
    pub heading: Option<u8>,
    pub in_code: bool,
    pub link: Option<S>,
    pub in_image: bool,
}

pub type PlainState = PlainWriter<Seq<char>, Seq<Option<u64>>>;

impl View for PlainWriter<Vec<char>, Vec<Option<u64>>> {
    type V = PlainState;

    open spec fn view(&self) -> PlainState {
        PlainWriter {
            out: self.out@,
            lists: self.lists@,
            heading: self.heading,
            in_code: self.in_code,
            link: match self.link {
                Some(u) => Some(u@),
                None => None,
            },
            in_image: self.in_image,
        }
    }
}

pub open spec fn ensure_newline(out: Seq<char>) -> Seq<char> {
    if out.len() > 0 && out.last() != '\n' {
        out.push('\n')
    } else {
        out
    }
}

pub open spec fn ends_blank(o: Seq<char>) -> bool {
    o.len() >= 2 && o[o.len() - 1] == '\n' && o[o.len() - 2] == '\n'
}

pub open spec fn ensure_blank(out: Seq<char>) -> Seq<char> {
    let o = ensure_newline(out);
    if o.len() > 0 && !ends_blank(o) {
        o.push('\n')
    } else {
        o
    }
}

pub open spec fn spaces(n: nat) -> Seq<char> {
    Seq::new(n, |i: int| ' ')
}

/// Each line indented by four spaces and ended by a newline.
pub open spec fn code_text(ls: Seq<Seq<char>>) -> Seq<char>
    decreases ls.len(),
{
    if ls.len() == 0 {
        seq![]
    } else {
        code_text(ls.drop_last()) + spaces(4) + ls.last() + seq!['\n']
    }
}

pub open spec fn rule_line() -> Seq<char> {
    Seq::new(20, |i: int| '—').push('\n')
}

pub open spec fn next_number(n: u64) -> u64 {
    if n == u64::MAX {
        0
    } else {
        (n + 1) as u64
    }
}

pub open spec fn list_depth(lists: Seq<Option<u64>>) -> nat {
    if lists.len() > 0 {
        (lists.len() - 1) as nat
    } else {
        0
    }
}

/// What a text event adds: verbatim in an image, indented per line in a code block,
/// upper-cased in a top-level heading.
pub open spec fn text_piece(w: PlainState, t: Seq<char>) -> Seq<char> {
    if w.in_image {
        t
    } else if w.in_code {
        code_text(lines(t))
    } else if w.heading == Some(1u8) {
        unicode_upper(t)
    } else {
        t
    }
}

pub open spec fn start_item(w: PlainState) -> PlainState {
    let o = ensure_newline(w.out) + spaces(2 * list_depth(w.lists));
    if w.lists.len() > 0 && w.lists.last() is Some {
        let n = w.lists.last()->0;
        PlainWriter {
            out: o + decimal(n as nat) + seq!['.', ' '],
            lists: w.lists.update(w.lists.len() - 1, Some(next_number(n))),
            ..w
        }
    } else {
        PlainWriter { out: o + seq!['•', ' '], ..w }
    }
}

pub open spec fn start_tag(w: PlainState, t: MdTag<Seq<char>>) -> PlainState {
    match t {
        MdTag::Heading(l) => PlainWriter { out: ensure_blank(w.out), heading: Some(l), ..w },
        MdTag::Paragraph => if w.lists.len() == 0 {
            PlainWriter { out: ensure_blank(w.out), ..w }
        } else {
            w
        },
        MdTag::List(first) => PlainWriter {
            out: if w.lists.len() == 0 { ensure_blank(w.out) } else { w.out },
            lists: w.lists.push(first),
            ..w
        },
        MdTag::Item => start_item(w),
        MdTag::CodeBlock => PlainWriter { out: ensure_blank(w.out), in_code: true, ..w },
        MdTag::Link(u) => PlainWriter { link: Some(u), ..w },
        MdTag::Image => PlainWriter { in_image: true, ..w },
        MdTag::TableCell => PlainWriter { out: w.out + seq!['|', ' '], ..w },
        _ => w,
    }
}

pub open spec fn end_tag(w: PlainState, t: MdTag<Seq<char>>) -> PlainState {
    match t {
        MdTag::Heading(_) => PlainWriter { out: w.out.push('\n'), heading: None, ..w },
        MdTag::Paragraph => PlainWriter { out: ensure_newline(w.out), ..w },
        MdTag::List(_) => {
            let ls = if w.lists.len() > 0 { w.lists.drop_last() } else { w.lists };
            PlainWriter {
                out: if ls.len() == 0 { ensure_newline(w.out) } else { w.out },
                lists: ls,
                ..w
            }
        },
        MdTag::Item => PlainWriter { out: ensure_newline(w.out), ..w },
        MdTag::CodeBlock => PlainWriter { out: ensure_newline(w.out), in_code: false, ..w },
        MdTag::Link(_) => match w.link {
            Some(u) => PlainWriter { out: w.out + seq![' ', '('] + u + seq![')'], link: None, ..w },
            None => w,
        },
        MdTag::Image => PlainWriter { in_image: false, ..w },
        MdTag::TableCell => PlainWriter { out: w.out.push(' '), ..w },
        MdTag::TableRow => PlainWriter { out: w.out + seq!['|', '\n'], ..w },
        MdTag::TableHead => PlainWriter { out: w.out + seq!['|', '\n'], ..w },
        _ => w,
    }
}

/// One event of the plain-text rendering. Raw HTML is taken as text.
pub open spec fn plain_step(w: PlainState, e: MdEvent<Seq<char>>) -> PlainState {
    match e {
        MdEvent::Start(t) => start_tag(w, t),
        MdEvent::End(t) => end_tag(w, t),
        MdEvent::Text(t) => PlainWriter { out: w.out + text_piece(w, t), ..w },
        MdEvent::Html(t) => PlainWriter { out: w.out + text_piece(w, t), ..w },
        MdEvent::Code(c) => PlainWriter { out: w.out + c, ..w },
        MdEvent::SoftBreak => PlainWriter { out: w.out.push(' '), ..w },
        MdEvent::HardBreak => PlainWriter { out: w.out.push('\n'), ..w },
        MdEvent::Rule => PlainWriter { out: ensure_blank(w.out) + rule_line(), ..w },
        MdEvent::TaskListMarker(done) => PlainWriter {
            out: w.out + if done { seq!['[', 'x', ']', ' '] } else { seq!['[', ' ', ']', ' '] },
            ..w
        },
        MdEvent::Other => w,
    }
}

pub open spec fn plain_start() -> PlainState {
    PlainWriter { out: seq![], lists: seq![], heading: None, in_code: false, link: None, in_image: false }
}

pub open spec fn plain_fold(evs: Seq<MdEvent<Seq<char>>>) -> PlainState
    decreases evs.len(),
{
    if evs.len() == 0 {
        plain_start()
    } else {
        plain_step(plain_fold(evs.drop_last()), evs.last())
    }
}

pub open spec fn trim_newlines_start(s: Seq<char>) -> Seq<char>
    decreases s.len(),
{
    if s.len() > 0 && s[0] == '\n' {
        trim_newlines_start(s.drop_first())
    } else {
        s
    }
}

pub open spec fn trim_newlines_end(s: Seq<char>) -> Seq<char>
    decreases s.len(),
{
    if s.len() > 0 && s.last() == '\n' {
        trim_newlines_end(s.drop_last())
    } else {
        s
    }
}

/// `s` without newlines at either end, followed by exactly one newline.
pub open spec fn one_final_newline(s: Seq<char>) -> Seq<char> {
    trim_newlines_end(trim_newlines_start(s)).push('\n')
}

/// The plain-text rendering of an event stream.
pub open spec fn plain_text(evs: Seq<MdEvent<Seq<char>>>) -> Seq<char> {
    one_final_newline(plain_fold(evs).out)
}

fn ensure_newline_exec(out: &mut Vec<char>)
    ensures
        final(out)@ == ensure_newline(old(out)@),
{
    if out.len() > 0 && out[out.len() - 1] != '\n' {
        out.push('\n');
    }
}

fn ensure_blank_exec(out: &mut Vec<char>)
    ensures
        final(out)@ == ensure_blank(old(out)@),
{
    ensure_newline_exec(out);
    let n = out.len();
    if n > 0 && !(n >= 2 && out[n - 1] == '\n' && out[n - 2] == '\n') {
        out.push('\n');
    }
}

fn push_spaces(out: &mut Vec<char>, n: usize)
    ensures
        final(out)@ == old(out)@ + spaces(n as nat),
{
    let ghost start = out@;
    let mut i: usize = 0;
    while i < n
        invariant
            i <= n,
            out@ == start + spaces(i as nat),
        decreases n - i,
    {
        out.push(' ');
        assert(spaces((i + 1) as nat) =~= spaces(i as nat).push(' '));
        i += 1;
    }
}

fn push_code_text(out: &mut Vec<char>, t: &Vec<char>)
    ensures
        final(out)@ == old(out)@ + code_text(lines(t@)),
{
    let spans = line_spans(t);
    let ghost ls = lines(t@);
    let ghost start = out@;
    let mut k: usize = 0;
    while k < spans.len()
        invariant
            spans.len() == ls.len(),
            ls == lines(t@),
            k <= spans.len(),
            spans_of(t@, spans@, ls),
            out@ == start + code_text(ls.take(k as int)),
        decreases spans.len() - k,
    {
        let (lo, hi) = spans[k];
        proof {
            assert(spans@[k as int].0 <= spans@[k as int].1);
        }
        push_spaces(out, 4);
        push_range(out, t, lo, hi);
        out.push('\n');
        proof {
            assert(ls.take(k + 1).drop_last() =~= ls.take(k as int));
            assert(ls.take(k + 1).last() == ls[k as int]);
            assert(out@ =~= start + code_text(ls.take(k + 1)));
        }
        k += 1;
    }
    assert(ls.take(spans.len() as int) =~= ls);
}

fn push_string(out: &mut Vec<char>, s: &String)
    ensures
        final(out)@ == old(out)@ + s@,
{
    let c = chars_of(s.as_str());
    push_range(out, &c, 0, c.len());
    assert(c@.subrange(0, c.len() as int) =~= c@);
}

fn push_text_piece(w: &mut PlainWriter<Vec<char>, Vec<Option<u64>>>, t: &String)
    ensures
        final(w)@ == (PlainWriter { out: old(w)@.out + text_piece(old(w)@, t@), ..old(w)@ }),
{
    if w.in_image {
        push_string(&mut w.out, t);
    } else if w.in_code {
        let c = chars_of(t.as_str());
        push_code_text(&mut w.out, &c);
    } else if w.heading == Some(1u8) {
        let u = to_upper(t.as_str());
        push_string(&mut w.out, &u);
    } else {
        push_string(&mut w.out, t);
    }
}

fn start_item_exec(w: &mut PlainWriter<Vec<char>, Vec<Option<u64>>>)
    ensures
        final(w)@ == start_item(old(w)@),
{
    let ghost w0 = w@;
    ensure_newline_exec(&mut w.out);
    let depth = if w.lists.len() > 0 { w.lists.len() - 1 } else { 0 };
    push_spaces(&mut w.out, depth);
    push_spaces(&mut w.out, depth);
    proof {
        assert(spaces(depth as nat) + spaces(depth as nat) =~= spaces(2 * list_depth(w0.lists)));
        assert(w.out@ =~= ensure_newline(w0.out) + spaces(2 * list_depth(w0.lists)));
    }
    let ghost o = w.out@;
    let n = w.lists.len();
    if n > 0 {
        if let Some(k) = w.lists[n - 1] {
            let d = decimal_chars(k);
            push_range(&mut w.out, &d, 0, d.len());
            assert(d@.subrange(0, d.len() as int) =~= d@);
            push_chars(&mut w.out, &['.', ' ']);
            assert(['.', ' ']@ =~= seq!['.', ' ']);
            let next = if k == u64::MAX { 0 } else { k + 1 };
            w.lists[n - 1] = Some(next);
            proof {
                let r = start_item(w0);
                assert(w0.lists.last() == Some(k));
                assert(r.out =~= w.out@);
                assert(r.lists =~= w.lists@);
            }
            return;
        }
    }
    push_chars(&mut w.out, &['•', ' ']);
    assert(['•', ' ']@ =~= seq!['•', ' ']);
    proof {
        let r = start_item(w0);
        assert(r.out =~= w.out@);
    }
}

fn push_rule(out: &mut Vec<char>)
    ensures
        final(out)@ == old(out)@ + rule_line(),
{
    let ghost before = out@;
    let mut i: usize = 0;
    while i < 20
        invariant
            i <= 20,
            out@ == before + Seq::new(i as nat, |j: int| '—'),
        decreases 20 - i,
    {
        out.push('—');
        assert(Seq::new((i + 1) as nat, |j: int| '—') =~= Seq::new(i as nat, |j: int| '—').push('—'));
        i += 1;
    }
    out.push('\n');
    assert(out@ =~= before + rule_line());
}

/// Feeds one event to the plain-text rendering.
pub fn plain_feed(w: &mut PlainWriter<Vec<char>, Vec<Option<u64>>>, e: &MdEvent<String>)
    ensures
        final(w)@ == plain_step(old(w)@, e@),
{
    match e {
        MdEvent::Start(t) => match t {
            MdTag::Heading(l) => {
                ensure_blank_exec(&mut w.out);
                w.heading = Some(*l);
            },
            MdTag::Paragraph => {
                if w.lists.len() == 0 {
                    ensure_blank_exec(&mut w.out);
                }
            },
            MdTag::List(first) => {
                if w.lists.len() == 0 {
                    ensure_blank_exec(&mut w.out);
                }
                w.lists.push(*first);
            },
            MdTag::Item => {
                start_item_exec(w);
            },
            MdTag::CodeBlock => {
                ensure_blank_exec(&mut w.out);
                w.in_code = true;
            },
            MdTag::Link(u) => {
                w.link = Some(chars_of(u.as_str()));
            },
            MdTag::Image => {
                w.in_image = true;
            },
            MdTag::TableCell => {
                push_chars(&mut w.out, &['|', ' ']);
                assert(['|', ' ']@ =~= seq!['|', ' ']);
            },
            _ => {},
        },
        MdEvent::End(t) => match t {
            MdTag::Heading(_) => {
                w.out.push('\n');
                w.heading = None;
            },
            MdTag::Paragraph => ensure_newline_exec(&mut w.out),
            MdTag::List(_) => {
                let _ = w.lists.pop();
                if w.lists.len() == 0 {
                    ensure_newline_exec(&mut w.out);
                }
            },
            MdTag::Item => ensure_newline_exec(&mut w.out),
            MdTag::CodeBlock => {
                w.in_code = false;
                ensure_newline_exec(&mut w.out);
            },
            MdTag::Link(_) => {
                let link = w.link.take();
                if let Some(u) = link {
                    push_chars(&mut w.out, &[' ', '(']);
                    push_range(&mut w.out, &u, 0, u.len());
                    w.out.push(')');
                    assert([' ', '(']@ =~= seq![' ', '(']);
                    assert(u@.subrange(0, u.len() as int) =~= u@);
                }
            },
            MdTag::Image => {
                w.in_image = false;
            },
            MdTag::TableCell => w.out.push(' '),
            MdTag::TableRow | MdTag::TableHead => {
                push_chars(&mut w.out, &['|', '\n']);
                assert(['|', '\n']@ =~= seq!['|', '\n']);
            },
            _ => {},
        },
        MdEvent::Text(t) | MdEvent::Html(t) => push_text_piece(w, t),
        MdEvent::Code(c) => push_string(&mut w.out, c),
        MdEvent::SoftBreak => w.out.push(' '),
        MdEvent::HardBreak => w.out.push('\n'),
        MdEvent::Rule => {
            ensure_blank_exec(&mut w.out);
            push_rule(&mut w.out);
        },
        MdEvent::TaskListMarker(done) => {
            if *done {
                push_chars(&mut w.out, &['[', 'x', ']', ' ']);
                assert(['[', 'x', ']', ' ']@ =~= seq!['[', 'x', ']', ' ']);
            } else {
                push_chars(&mut w.out, &['[', ' ', ']', ' ']);
                assert(['[', ' ', ']', ' ']@ =~= seq!['[', ' ', ']', ' ']);
            }
        },
        MdEvent::Other => {},
    }
}


fn skip_newlines(s: &Vec<char>, lo: usize, hi: usize) -> (i: usize)
    requires
        lo <= hi <= s.len(),
    ensures
        lo <= i <= hi,
        s@.subrange(i as int, hi as int) == trim_newlines_start(s@.subrange(lo as int, hi as int)),
{
    let mut i = lo;
    while i < hi && s[i] == '\n'
        invariant
            lo <= i <= hi <= s.len(),
            trim_newlines_start(s@.subrange(lo as int, hi as int)) == trim_newlines_start(
                s@.subrange(i as int, hi as int),
            ),
        decreases hi - i,
    {
        assert(s@.subrange(i as int, hi as int).drop_first() =~= s@.subrange(i + 1, hi as int));
        i += 1;
    }
    i
}

fn drop_newlines(s: &Vec<char>, lo: usize, hi: usize) -> (j: usize)
    requires
        lo <= hi <= s.len(),
    ensures
        lo <= j <= hi,
        s@.subrange(lo as int, j as int) == trim_newlines_end(s@.subrange(lo as int, hi as int)),
{
    let mut j = hi;
    while j > lo && s[j - 1] == '\n'
        invariant
            lo <= j <= hi <= s.len(),
            trim_newlines_end(s@.subrange(lo as int, hi as int)) == trim_newlines_end(
                s@.subrange(lo as int, j as int),
            ),
        decreases j - lo,
    {
        assert(s@.subrange(lo as int, j as int).drop_last() =~= s@.subrange(lo as int, j - 1));
        j -= 1;
    }
    j
}

/// `s` without newlines at either end, followed by exactly one newline.
pub fn with_one_final_newline(s: &Vec<char>) -> (r: Vec<char>)
    ensures
        r@ == one_final_newline(s@),
{
    let n = s.len();
    assert(s@.subrange(0, n as int) =~= s@);
    let a = skip_newlines(s, 0, n);
    let b = drop_newlines(s, a, n);
    let mut r: Vec<char> = Vec::new();
    crate::text::push_range(&mut r, s, a, b);
    r.push('\n');
    r
}

/// The plain-text rendering of parsed Markdown events: headings kept (top-level ones
/// upper-cased), bullets as "•", numbered lists numbered, links as "text (url)", code
/// indented by four spaces, emphasis dropped, raw HTML kept as text.
pub fn render_plain(evs: &Vec<MdEvent<String>>) -> (s: String)
    ensures
        s@ == plain_text(events_view(evs@)),
{
    let mut w: PlainWriter<Vec<char>, Vec<Option<u64>>> = PlainWriter {
        out: Vec::new(),
        lists: Vec::new(),
        heading: None,
        in_code: false,
        link: None,
        in_image: false,
    };
    let ghost ev = events_view(evs@);
    let mut k: usize = 0;
    proof {
        assert(w@ =~= plain_fold(ev.take(0)));
    }
    while k < evs.len()
        invariant
            k <= evs.len(),
            ev == events_view(evs@),
            w@ == plain_fold(ev.take(k as int)),
        decreases evs.len() - k,
    {
        plain_feed(&mut w, &evs[k]);
        proof {
            assert(ev.take(k + 1).drop_last() =~= ev.take(k as int));
            assert(ev.take(k + 1).last() == evs@[k as int]@);
        }
        k += 1;
    }
    proof {
        assert(ev.take(evs.len() as int) =~= ev);
    }
    let r = with_one_final_newline(&w.out);
    string_of(&r)
}

pub open spec fn md_opts() -> MdOptions {
    MdOptions { bits: 26 }
}

/// The plain-text rendering of Markdown source.
pub open spec fn plain_of(md: Seq<char>) -> Seq<char> {
    plain_text(markdown_events(md, md_opts()))
}

/// The HTML body of Markdown source, raw HTML handed on as `shown_as_text` decides.
pub open spec fn html_of(md: Seq<char>) -> Seq<char> {
    markdown_html(md, md_opts(), raw_as_text())
}

/// Markdown -> readable plain text (see `render_plain`).
pub fn to_plain(md: &str) -> (s: String)
    ensures
        s@ == plain_of(md@),
{
    let opts = markdown_options();
    let evs = events(md, opts);
    render_plain(&evs)
}

/// Markdown -> HTML body, raw HTML in the Markdown escaped as text.
pub fn to_html(md: &str) -> (h: String)
    ensures
        h@ == html_of(md@),
{
    let raw = RawAsText { block: shown_as_text(EventKind::Html), inline: shown_as_text(EventKind::InlineHtml) };
    parse_to_html(md, markdown_options(), raw)
}

/// Raw HTML in Markdown, block and inline, reaches the HTML writer as text, so `to_html`
/// escapes it rather than keeping it.
pub proof fn lemma_to_html_escapes_raw_html(md: Seq<char>)
    ensures
        html_of(md) == markdown_html(md, md_opts(), RawAsText { block: true, inline: true }),
{
}


// ---------------------------------------------------------------- HTML page

pub open spec fn page_head() -> Seq<char> {
    "<!DOCTYPE html><html><head><meta charset=\"utf-8\"><style>\nbody{font-family:-apple-system,Segoe UI,Helvetica,Arial,sans-serif;font-size:13px}\ncode,pre{font-family:Menlo,Consolas,monospace;font-size:12px}\n</style></head><body>"@
}

pub open spec fn page_tail() -> Seq<char> {
    "</body></html>"@
}

/// A complete HTML document around `body`, with UTF-8 declared and a system font.
pub fn wrap_html(body: &str) -> (h: String)
    ensures
        h@ == page_head() + body@ + page_tail(),
{
    let mut h = String::from_str(
        "<!DOCTYPE html><html><head><meta charset=\"utf-8\"><style>\nbody{font-family:-apple-system,Segoe UI,Helvetica,Arial,sans-serif;font-size:13px}\ncode,pre{font-family:Menlo,Consolas,monospace;font-size:12px}\n</style></head><body>",
    );
    h.append(body);
    h.append("</body></html>");
    h
}

// ---------------------------------------------------------------- <pre> blocks

/// The contents of a `<pre>` block as htmd should see them: kept when they already start
/// with a `<code` tag, wrapped in `<code>` otherwise.
pub open spec fn code_wrapped(inner: Seq<char>) -> Seq<char> {
    if starts_with(ascii_lower(trim_start(inner)), "<code"@) {
        inner
    } else {
        "<code>"@ + inner + "</code>"@
    }
}

/// `html` from `idx` on, each `<pre ...>...</pre>` block's contents passed through
/// `code_wrapped`. The tags are found in `lower`, the ASCII-lowered `html`.
pub open spec fn pre_wrapped(html: Seq<char>, lower: Seq<char>, idx: int) -> Seq<char>
    decreases html.len() - idx,
{
    if !(0 <= idx <= html.len() && lower.len() == html.len()) {
        seq![]
    } else {
        let n = html.len() as int;
        let rest = html.subrange(idx, n);
        match first_at(lower.subrange(idx, n), "<pre"@) {
            None => rest,
            Some(s0) => {
                let start = idx + s0;
                match first_at(lower.subrange(start, n), seq!['>']) {
                    None => rest,
                    Some(t0) => {
                        let tag_end = start + t0 + 1;
                        match first_at(lower.subrange(tag_end, n), "</pre>"@) {
                            None => rest,
                            Some(e0) => {
                                let end = tag_end + e0;
                                proof {
                                    lemma_first_at_occurs(lower.subrange(idx, n), "<pre"@);
                                    lemma_first_at_occurs(lower.subrange(start, n), seq!['>']);
                                    lemma_first_at_occurs(lower.subrange(tag_end, n), "</pre>"@);
                                }
                                html.subrange(idx, tag_end) + code_wrapped(html.subrange(tag_end, end))
                                    + pre_wrapped(html, lower, end)
                            },
                        }
                    },
                }
            },
        }
    }
}

/// htmd only fences `<pre><code>`; bare `<pre>` blocks get a `<code>` wrapper.
pub open spec fn code_in_pre_spec(html: Seq<char>) -> Seq<char> {
    pre_wrapped(html, ascii_lower(html), 0)
}

/// The first occurrence of `p` in `s[lo..]`, as `first_at` gives it.
fn find_first(s: &Vec<char>, lo: usize, p: &[char]) -> (r: Option<usize>)
    requires
        lo <= s.len(),
    ensures
        r matches Some(k) ==> lo <= k && first_at(s@.subrange(lo as int, s.len() as int), p@) == Some(k - lo),
        r is None ==> first_at(s@.subrange(lo as int, s.len() as int), p@) is None,
        r matches Some(k) ==> k + p@.len() <= s.len(),
{
    let r = find_in(s, lo, s.len(), p);
    proof {
        let w = s@.subrange(lo as int, s.len() as int);
        match r {
            Some(k) => lemma_first_at_is(w, p@, k - lo),
            None => lemma_first_at_none(w, p@),
        }
    }
    r
}

fn code_wrapped_exec(out: &mut Vec<char>, html: &Vec<char>, lower: &Vec<char>, lo: usize, hi: usize)
    requires
        lo <= hi <= html.len(),
        lower@ == ascii_lower(html@),
    ensures
        final(out)@ == old(out)@ + code_wrapped(html@.subrange(lo as int, hi as int)),
{
    let t = skip_space(html, lo, hi);
    proof {
        assert(ascii_lower(html@.subrange(t as int, hi as int)) =~= lower@.subrange(t as int, hi as int));
        reveal_strlit("<code");
        assert(['<', 'c', 'o', 'd', 'e']@ =~= "<code"@);
    }
    if matches_at(lower, t, hi, &['<', 'c', 'o', 'd', 'e']) {
        push_range(out, html, lo, hi);
    } else {
        push_chars(out, &['<', 'c', 'o', 'd', 'e', '>']);
        push_range(out, html, lo, hi);
        push_chars(out, &['<', '/', 'c', 'o', 'd', 'e', '>']);
        proof {
            reveal_strlit("<code>");
            reveal_strlit("</code>");
            assert(['<', 'c', 'o', 'd', 'e', '>']@ =~= "<code>"@);
            assert(['<', '/', 'c', 'o', 'd', 'e', '>']@ =~= "</code>"@);
        }
    }
}

/// Wraps the contents of every bare `<pre>` block in `<code>`.
pub fn code_in_pre(html: &str) -> (r: String)
    ensures
        r@ == code_in_pre_spec(html@),
{
    let h = chars_of(html);
    let r = code_in_pre_chars(&h);
    string_of(&r)
}

fn code_in_pre_chars(h: &Vec<char>) -> (out: Vec<char>)
    ensures
        out@ == code_in_pre_spec(h@),
{
    let lower = ascii_lower_exec(h);
    let n = h.len();
    let ghost lw = lower@;
    let mut out: Vec<char> = Vec::new();
    let mut idx: usize = 0;
    proof {
        reveal_strlit("<pre");
        reveal_strlit("</pre>");
        assert(['<', 'p', 'r', 'e']@ =~= "<pre"@);
        assert(['>']@ =~= seq!['>']);
        assert(['<', '/', 'p', 'r', 'e', '>']@ =~= "</pre>"@);
    }
    loop
        invariant
            n == h.len() == lower.len(),
            lower@ == ascii_lower(h@),
            idx <= n,
            ['<', 'p', 'r', 'e']@ == "<pre"@,
            ['>']@ == seq!['>'],
            ['<', '/', 'p', 'r', 'e', '>']@ == "</pre>"@,
            code_in_pre_spec(h@) == out@ + pre_wrapped(h@, lower@, idx as int),
        ensures
            idx <= n,
            code_in_pre_spec(h@) == out@ + h@.subrange(idx as int, n as int),
        decreases n - idx,
    {
        let start = match find_first(&lower, idx, &['<', 'p', 'r', 'e']) {
            Some(k) => k,
            None => break,
        };
        let tag_end = match find_first(&lower, start, &['>']) {
            Some(k) => k + 1,
            None => break,
        };
        let end = match find_first(&lower, tag_end, &['<', '/', 'p', 'r', 'e', '>']) {
            Some(k) => k,
            None => break,
        };
        push_range(&mut out, h, idx, tag_end);
        code_wrapped_exec(&mut out, h, &lower, tag_end, end);
        idx = end;
    }
    push_range(&mut out, h, idx, n);
    out
}


// ---------------------------------------------------------------- HTML -> Markdown

/// How htmd writes Markdown: list bullet, code block style and fence, rule style, and the
/// spaces after a bullet and after an item number.
#[derive(Clone, Copy)]
pub struct HtmlStyle {
    pub dash_bullets: bool,
    pub fenced_code: bool,
    pub backtick_fence: bool,
    pub dash_rules: bool,
    pub bullet_spacing: u8,
    pub number_spacing: u8,
}

/// The Markdown that htmd's `HtmlToMarkdown::convert` writes for `html`, with the elements
/// named in `skip` left out and the style `style`; `None` when it reports an error.
pub uninterp spec fn htmd_markdown(html: Seq<char>, skip: Seq<Seq<char>>, style: HtmlStyle) -> Option<Seq<char>>;

pub open spec fn strs_view(v: Seq<&str>) -> Seq<Seq<char>> {
    v.map_values(|t: &str| t@)
}

/// Calls `htmd::HtmlToMarkdown::convert` on a converter built with `skip_tags(skip)` and the
/// options of `style` (the other options at htmd's defaults). Claims only that the result is
/// named `htmd_markdown`.
#[verifier::external_body]
fn htmd_convert(html: &str, skip: Vec<&str>, style: HtmlStyle) -> (r: Option<String>)
    ensures
        opt_chars(r) == htmd_markdown(html@, strs_view(skip@), style),
{
    let options = htmd::options::Options {
        bullet_list_marker: if style.dash_bullets { BulletListMarker::Dash } else { BulletListMarker::Asterisk },
        code_block_style: if style.fenced_code { CodeBlockStyle::Fenced } else { CodeBlockStyle::Indented },
        code_block_fence: if style.backtick_fence { CodeBlockFence::Backticks } else { CodeBlockFence::Tildes },
        hr_style: if style.dash_rules { HrStyle::Dashes } else { HrStyle::Asterisks },
        ul_bullet_spacing: style.bullet_spacing,
        ol_number_spacing: style.number_spacing,
        ..Default::default()
    };
    htmd::HtmlToMarkdown::builder().skip_tags(skip).options(options).build().convert(html).ok()
}

pub open spec fn opt_chars(o: Option<String>) -> Option<Seq<char>> {
    match o {
        Some(s) => Some(s@),
        None => None,
    }
}

/// Dash bullets, fenced code with backticks, dashed rules, one space after markers.
pub open spec fn markdown_style() -> HtmlStyle {
    HtmlStyle {
        dash_bullets: true,
        fenced_code: true,
        backtick_fence: true,
        dash_rules: true,
        bullet_spacing: 1,
        number_spacing: 1,
    }
}

/// Elements whose contents never become Markdown.
pub open spec fn skipped_elements() -> Seq<Seq<char>> {
    seq!["script"@, "style"@, "head"@, "title"@, "meta"@, "link"@]
}

/// (text so far, whether the last line kept was blank).
pub open spec fn normalize_fold(ls: Seq<Seq<char>>) -> (Seq<char>, bool)
    decreases ls.len(),
{
    if ls.len() == 0 {
        (seq![], false)
    } else {
        let (out, prev_blank) = normalize_fold(ls.drop_last());
        let l = trim_end(ls.last());
        if l.len() == 0 {
            if prev_blank {
                (out, true)
            } else {
                (out.push('\n'), true)
            }
        } else {
            (out + l + seq!['\n'], false)
        }
    }
}

/// Trailing spaces dropped, runs of blank lines collapsed to one, exactly one final newline.
pub open spec fn normalize_spec(s: Seq<char>) -> Seq<char> {
    one_final_newline(normalize_fold(lines(s)).0)
}

pub fn normalize(s: &str) -> (r: String)
    ensures
        r@ == normalize_spec(s@),
{
    let c = chars_of(s);
    let spans = line_spans(&c);
    let ghost ls = lines(c@);
    let mut out: Vec<char> = Vec::new();
    let mut prev_blank = false;
    let mut k: usize = 0;
    while k < spans.len()
        invariant
            spans.len() == ls.len(),
            ls == lines(c@),
            k <= spans.len(),
            spans_of(c@, spans@, ls),
            (out@, prev_blank) == normalize_fold(ls.take(k as int)),
        decreases spans.len() - k,
    {
        let (lo, hi) = spans[k];
        proof {
            assert(spans@[k as int].0 <= spans@[k as int].1);
        }
        let e = drop_space(&c, lo, hi);
        proof {
            assert(ls.take(k + 1).drop_last() =~= ls.take(k as int));
            assert(ls.take(k + 1).last() == ls[k as int]);
        }
        if e == lo {
            if !prev_blank {
                out.push('\n');
            }
            prev_blank = true;
        } else {
            push_range(&mut out, &c, lo, e);
            out.push('\n');
            prev_blank = false;
        }
        k += 1;
    }
    proof {
        assert(ls.take(spans.len() as int) =~= ls);
    }
    let r = with_one_final_newline(&out);
    string_of(&r)
}

/// The Markdown that `from_html` makes of `html`.
pub open spec fn markdown_of(html: Seq<char>) -> Seq<char> {
    normalize_spec(
        match htmd_markdown(code_in_pre_spec(html), skipped_elements(), markdown_style()) {
            Some(m) => m,
            None => Seq::empty(),
        },
    )
}

/// HTML -> Markdown through htmd: bare `<pre>` blocks read as code, scripts, styles and the
/// document head left out, then normalized.
pub fn from_html(html: &str) -> (md: String)
    ensures
        md@ == markdown_of(html@),
{
    let wrapped = code_in_pre(html);
    let style = HtmlStyle {
        dash_bullets: true,
        fenced_code: true,
        backtick_fence: true,
        dash_rules: true,
        bullet_spacing: 1,
        number_spacing: 1,
    };
    let skip = vec!["script", "style", "head", "title", "meta", "link"];
    proof {
        assert(strs_view(skip@) =~= skipped_elements());
    }
    let converted = htmd_convert(wrapped.as_str(), skip, style);
    let md = match converted {
        Some(m) => m,
        None => String::new(),
    };
    normalize(md.as_str())
}


// ---------------------------------------------------------------- laws

proof fn lemma_trim_newlines_start(s: Seq<char>)
    ensures
        trim_newlines_start(s).len() <= s.len(),
        trim_newlines_start(s) == s.skip(s.len() - trim_newlines_start(s).len()),
        trim_newlines_start(s).len() > 0 ==> trim_newlines_start(s)[0] != '\n',
    decreases s.len(),
{
    if s.len() > 0 && s[0] == '\n' {
        lemma_trim_newlines_start(s.drop_first());
        let r = trim_newlines_start(s.drop_first());
        assert(s.drop_first().skip(s.drop_first().len() - r.len()) =~= s.skip(s.len() - r.len()));
    } else {
        assert(s.skip(0) =~= s);
    }
}

proof fn lemma_trim_newlines_end(s: Seq<char>)
    ensures
        trim_newlines_end(s).len() <= s.len(),
        trim_newlines_end(s) == s.take(trim_newlines_end(s).len() as int),
        trim_newlines_end(s).len() > 0 ==> trim_newlines_end(s).last() != '\n',
    decreases s.len(),
{
    if s.len() > 0 && s.last() == '\n' {
        lemma_trim_newlines_end(s.drop_last());
        let r = trim_newlines_end(s.drop_last());
        assert(s.drop_last().take(r.len() as int) =~= s.take(r.len() as int));
    } else {
        assert(s.take(s.len() as int) =~= s);
    }
}

/// The text ends with exactly one newline and does not start with one, unless it is that
/// newline alone.
pub open spec fn one_newline_at_end(r: Seq<char>) -> bool {
    &&& r.len() >= 1
    &&& r.last() == '\n'
    &&& (r.len() >= 2 ==> r[r.len() - 2] != '\n' && r[0] != '\n')
}

/// `one_final_newline` leaves no newline at the start and exactly one at the end.
pub proof fn lemma_one_final_newline(s: Seq<char>)
    ensures
        one_newline_at_end(one_final_newline(s)),
{
    let a = trim_newlines_start(s);
    lemma_trim_newlines_start(s);
    lemma_trim_newlines_end(a);
    let b = trim_newlines_end(a);
    if b.len() > 0 {
        assert(b[0] == a[0]);
    }
}

/// Plain text and Markdown made from HTML end with exactly one newline and start without one.
pub proof fn lemma_outputs_end_in_one_newline(md: Seq<char>, html: Seq<char>)
    ensures
        one_newline_at_end(plain_of(md)),
        one_newline_at_end(markdown_of(html)),
{
    lemma_one_final_newline(plain_fold(markdown_events(md, md_opts())).out);
    let m = match htmd_markdown(code_in_pre_spec(html), skipped_elements(), markdown_style()) {
        Some(m) => m,
        None => Seq::empty(),
    };
    lemma_one_final_newline(normalize_fold(lines(m)).0);
}

/// HTML without a `<pre` tag, in any case, reaches htmd unchanged.
pub proof fn lemma_no_pre_unchanged(html: Seq<char>)
    requires
        !crate::text::contains_seq(ascii_lower(html), "<pre"@),
    ensures
        code_in_pre_spec(html) == html,
{
    let lower = ascii_lower(html);
    let n = html.len() as int;
    assert(lower.subrange(0, n) =~= lower);
    assert(html.subrange(0, n) =~= html);
    lemma_first_at_none(lower, "<pre"@);
}

/// A task-list marker shows the checked state the parser reports: "[x] " for a checked
/// item, "[ ] " for an open one, appended to the text so far, with nothing else changed.
pub proof fn lemma_task_marker_shows_state(w: PlainState, evs: Seq<MdEvent<Seq<char>>>, done: bool)
    ensures
        done ==> plain_step(w, MdEvent::TaskListMarker(done)) == (PlainWriter {
            out: w.out + seq!['[', 'x', ']', ' '],
            ..w
        }),
        !done ==> plain_step(w, MdEvent::TaskListMarker(done)) == (PlainWriter {
            out: w.out + seq!['[', ' ', ']', ' '],
            ..w
        }),
        plain_fold(evs.push(MdEvent::TaskListMarker(true))).out
            == plain_fold(evs).out + seq!['[', 'x', ']', ' '],
        plain_fold(evs.push(MdEvent::TaskListMarker(false))).out
            == plain_fold(evs).out + seq!['[', ' ', ']', ' '],
{
    assert(evs.push(MdEvent::TaskListMarker(true)).drop_last() =~= evs);
    assert(evs.push(MdEvent::TaskListMarker(false)).drop_last() =~= evs);
}

/// The document head, style sheets, scripts, the title, meta data and links to resources
/// are among the elements handed to htmd to leave out, so their contents never reach the
/// Markdown that `from_html` makes.
pub proof fn lemma_head_and_styles_skipped(html: Seq<char>)
    ensures
        skipped_elements().contains("head"@),
        skipped_elements().contains("style"@),
        skipped_elements().contains("script"@),
        skipped_elements().contains("title"@),
        skipped_elements().contains("meta"@),
        skipped_elements().contains("link"@),
        markdown_of(html) == normalize_spec(
            match htmd_markdown(code_in_pre_spec(html), skipped_elements(), markdown_style()) {
                Some(m) => m,
                None => Seq::empty(),
            },
        ),
{
    let s = skipped_elements();
    assert(s[0] == "script"@);
    assert(s[1] == "style"@);
    assert(s[2] == "head"@);
    assert(s[3] == "title"@);
    assert(s[4] == "meta"@);
    assert(s[5] == "link"@);
}


// ---------------------------------------------------------------- what normalizing keeps

/// `l` holds no line break.
pub open spec fn no_newline(l: Seq<char>) -> bool {
    forall|j: int| 0 <= j < l.len() ==> l[j] != '\n'
}

/// The lines that normalizing keeps, before blank lines at either end are dropped: each line
/// trimmed at the end, and of a run of blank lines only the first.
pub open spec fn norm_units(ls: Seq<Seq<char>>) -> Seq<Seq<char>>
    decreases ls.len(),
{
    if ls.len() == 0 {
        seq![]
    } else {
        let prev = norm_units(ls.drop_last());
        let l = trim_end(ls.last());
        if l.len() == 0 {
            if prev.len() > 0 && prev.last().len() == 0 {
                prev
            } else {
                prev.push(seq![])
            }
        } else {
            prev.push(l)
        }
    }
}

/// The lines `v`, each followed by a line break.
pub open spec fn cat_lines(v: Seq<Seq<char>>) -> Seq<char>
    decreases v.len(),
{
    if v.len() == 0 {
        seq![]
    } else {
        cat_lines(v.drop_last()) + v.last() + seq!['\n']
    }
}

/// Lines that need no normalizing: each trimmed at the end and without a line break, and no
/// two blank ones in a row.
pub open spec fn tidy(v: Seq<Seq<char>>) -> bool {
    &&& forall|i: int| 0 <= i < v.len() ==> trim_end(#[trigger] v[i]) == v[i] && no_newline(v[i])
    &&& forall|i: int| 0 <= i < v.len() - 1 ==> (#[trigger] v[i]).len() > 0 || v[i + 1].len() > 0
}

/// `u` without a blank line at its start.
pub open spec fn drop_blank_start(u: Seq<Seq<char>>) -> Seq<Seq<char>> {
    if u.len() > 0 && u[0].len() == 0 {
        u.drop_first()
    } else {
        u
    }
}

/// `a` without a blank line at its end.
pub open spec fn drop_blank_end(a: Seq<Seq<char>>) -> Seq<Seq<char>> {
    if a.len() > 0 && a.last().len() == 0 {
        a.drop_last()
    } else {
        a
    }
}

/// `u` without a blank line at its start and at its end.
pub open spec fn drop_blank_ends(u: Seq<Seq<char>>) -> Seq<Seq<char>> {
    drop_blank_end(drop_blank_start(u))
}

/// The lines of `v` that are not blank, in order.
pub open spec fn nonblank(v: Seq<Seq<char>>) -> Seq<Seq<char>>
    decreases v.len(),
{
    if v.len() == 0 {
        seq![]
    } else {
        let p = nonblank(v.drop_last());
        if v.last().len() > 0 {
            p.push(v.last())
        } else {
            p
        }
    }
}

/// Each line trimmed at the end.
pub open spec fn trimmed_lines(ls: Seq<Seq<char>>) -> Seq<Seq<char>> {
    ls.map_values(|l: Seq<char>| trim_end(l))
}

proof fn lemma_trim_end_prefix(s: Seq<char>)
    ensures
        trim_end(s).len() <= s.len(),
        trim_end(s) == s.take(trim_end(s).len() as int),
        trim_end(trim_end(s)) == trim_end(s),
        trim_end(s).len() > 0 ==> !crate::text::is_space(trim_end(s).last()),
    decreases s.len(),
{
    if s.len() > 0 && crate::text::is_space(s.last()) {
        lemma_trim_end_prefix(s.drop_last());
        let r = trim_end(s.drop_last());
        assert(s.drop_last().take(r.len() as int) =~= s.take(r.len() as int));
    } else {
        assert(s.take(s.len() as int) =~= s);
    }
}

proof fn lemma_lines_no_newline(s: Seq<char>)
    ensures
        forall|k: int| 0 <= k < lines(s).len() ==> no_newline(#[trigger] lines(s)[k]),
    decreases s.len(),
{
    if s.len() > 0 {
        crate::text::lemma_newline_at_bounds(s);
        let i = crate::text::newline_at(s);
        if i < s.len() {
            lemma_lines_no_newline(s.skip(i + 1));
            let first = crate::text::strip_cr(s.take(i));
            assert(no_newline(first)) by {
                assert forall|j: int| 0 <= j < first.len() implies first[j] != '\n' by {
                    assert(first[j] == s[j]);
                }
            }
            assert forall|k: int| 0 <= k < lines(s).len() implies no_newline(#[trigger] lines(s)[k]) by {
                if k > 0 {
                    assert(lines(s)[k] == lines(s.skip(i + 1))[k - 1]);
                }
            }
        } else {
            assert(lines(s) == seq![s]);
            assert(no_newline(lines(s)[0])) by {
                assert forall|j: int| 0 <= j < s.len() implies s[j] != '\n' by {}
            }
        }
    }
}

proof fn lemma_fold_is_cat(ls: Seq<Seq<char>>)
    ensures
        normalize_fold(ls).0 == cat_lines(norm_units(ls)),
        normalize_fold(ls).1 == (norm_units(ls).len() > 0 && norm_units(ls).last().len() == 0),
    decreases ls.len(),
{
    if ls.len() > 0 {
        lemma_fold_is_cat(ls.drop_last());
        let prev = norm_units(ls.drop_last());
        let l = trim_end(ls.last());
        if l.len() == 0 {
            assert(l =~= Seq::<char>::empty());
            if !(prev.len() > 0 && prev.last().len() == 0) {
                let u = prev.push(seq![]);
                assert(u.drop_last() =~= prev);
                assert(cat_lines(u) =~= cat_lines(prev).push('\n'));
            }
        } else {
            let u = prev.push(l);
            assert(u.drop_last() =~= prev);
        }
    }
}

#[verifier::spinoff_prover]
proof fn lemma_units_tidy(ls: Seq<Seq<char>>)
    requires
        forall|k: int| 0 <= k < ls.len() ==> no_newline(#[trigger] ls[k]),
    ensures
        tidy(norm_units(ls)),
        nonblank(norm_units(ls)) == nonblank(trimmed_lines(ls)),
    decreases ls.len(),
{
    if ls.len() > 0 {
        let lp = ls.drop_last();
        assert forall|k: int| 0 <= k < lp.len() implies no_newline(#[trigger] lp[k]) by {
            assert(lp[k] == ls[k]);
        }
        lemma_units_tidy(lp);
        let prev = norm_units(lp);
        let l = trim_end(ls.last());
        lemma_trim_end_prefix(ls.last());
        assert(no_newline(ls[ls.len() - 1]));
        assert(no_newline(l)) by {
            assert forall|j: int| 0 <= j < l.len() implies l[j] != '\n' by {
                assert(l[j] == ls.last()[j]);
            }
        }
        assert(trimmed_lines(ls).drop_last() =~= trimmed_lines(lp));
        assert(trimmed_lines(ls).last() == l);
        let u = norm_units(ls);
        if l.len() == 0 && prev.len() > 0 && prev.last().len() == 0 {
            assert(u == prev);
        } else {
            let x = if l.len() == 0 { Seq::<char>::empty() } else { l };
            assert(u == prev.push(x));
            assert(u.drop_last() =~= prev);
            assert(trim_end(x) == x) by {
                if l.len() == 0 {
                    assert(x =~= l);
                }
            }
            assert(no_newline(x));
            assert forall|i: int| 0 <= i < u.len() implies trim_end(#[trigger] u[i]) == u[i] && no_newline(u[i]) by {
                if i < prev.len() {
                    assert(u[i] == prev[i]);
                }
            }
            assert forall|i: int| 0 <= i < u.len() - 1 implies (#[trigger] u[i]).len() > 0 || u[i + 1].len() > 0 by {
                if i < prev.len() - 1 {
                    assert(u[i] == prev[i] && u[i + 1] == prev[i + 1]);
                } else {
                    assert(u[i] == prev.last());
                }
            }
            if l.len() == 0 {
                assert(x.len() == 0);
            }
        }
    }
}

proof fn lemma_cat_prepend(x: Seq<char>, w: Seq<Seq<char>>)
    ensures
        cat_lines(seq![x] + w) == x + seq!['\n'] + cat_lines(w),
    decreases w.len(),
{
    if w.len() == 0 {
        let one = seq![x];
        assert(seq![x] + w =~= one);
        assert(one.drop_last() =~= Seq::<Seq<char>>::empty());
        assert(one.last() == x);
        assert(cat_lines(Seq::<Seq<char>>::empty()) =~= Seq::<char>::empty());
        assert(cat_lines(one) == cat_lines(one.drop_last()) + x + seq!['\n']);
        assert(cat_lines(one) =~= x + seq!['\n']);
        assert(x + seq!['\n'] + cat_lines(w) =~= x + seq!['\n']);
    } else {
        lemma_cat_prepend(x, w.drop_last());
        assert((seq![x] + w).drop_last() =~= seq![x] + w.drop_last());
        assert((seq![x] + w).last() == w.last());
    }
}

#[verifier::spinoff_prover]
proof fn lemma_lines_of_cat(v: Seq<Seq<char>>)
    requires
        tidy(v),
    ensures
        lines(cat_lines(v)) == v,
    decreases v.len(),
{
    if v.len() == 0 {
        assert(lines(Seq::<char>::empty()) =~= Seq::<Seq<char>>::empty());
    } else {
        let p = v.drop_last();
        assert(tidy(p)) by {
            assert forall|i: int| 0 <= i < p.len() implies trim_end(#[trigger] p[i]) == p[i] && no_newline(p[i]) by {
                assert(p[i] == v[i]);
            }
            assert forall|i: int| 0 <= i < p.len() - 1 implies (#[trigger] p[i]).len() > 0 || p[i + 1].len() > 0 by {
                assert(p[i] == v[i] && p[i + 1] == v[i + 1]);
            }
        }
        lemma_lines_of_cat(p);
        let l = v.last();
        assert(trim_end(v[v.len() - 1]) == v[v.len() - 1] && no_newline(v[v.len() - 1]));
        let c = cat_lines(p);
        assert(c.len() == 0 || c.last() == '\n') by {
            if p.len() > 0 {
                assert(c == cat_lines(p.drop_last()) + p.last() + seq!['\n']);
            }
        }
        crate::config::lemma_lines_append(c, l + seq!['\n']);
        assert(cat_lines(v) =~= c + (l + seq!['\n']));
        if l.len() == 0 {
            let nl = l + seq!['\n'];
            assert(nl =~= seq!['\n']);
            crate::text::lemma_newline_at_is(nl, 0);
            assert(nl.take(0) =~= Seq::<char>::empty());
            assert(nl.skip(1) =~= Seq::<char>::empty());
            assert(lines(Seq::<char>::empty()) =~= Seq::<Seq<char>>::empty());
            assert(lines(nl) =~= seq![Seq::<char>::empty()]);
            assert(l =~= Seq::<char>::empty());
        } else {
            lemma_trim_end_prefix(l);
            assert(l.last() != '\r');
            crate::config::lemma_one_line(l);
        }
        assert(v =~= p.push(l));
    }
}

proof fn lemma_ends_without_blank(v: Seq<Seq<char>>)
    requires
        tidy(v),
        v.len() > 0,
        v.last().len() > 0,
    ensures
        trim_newlines_end(cat_lines(v)) == cat_lines(v).drop_last(),
        cat_lines(v).len() > 0,
{
    let c = cat_lines(v);
    assert(c == cat_lines(v.drop_last()) + v.last() + seq!['\n']);
    let d = c.drop_last();
    assert(d =~= cat_lines(v.drop_last()) + v.last());
    assert(no_newline(v[v.len() - 1]));
    assert(d.last() == v.last().last());
    assert(trim_newlines_end(d) == d);
}

proof fn lemma_starts_without_blank(v: Seq<Seq<char>>)
    requires
        tidy(v),
        v.len() > 0,
        v[0].len() > 0,
    ensures
        trim_newlines_start(cat_lines(v)) == cat_lines(v),
{
    let w = v.drop_first();
    assert(v =~= seq![v[0]] + w);
    lemma_cat_prepend(v[0], w);
    assert(no_newline(v[0]));
    assert(cat_lines(v)[0] == v[0][0]);
}

proof fn lemma_tidy_sub(v: Seq<Seq<char>>, a: int, b: int)
    requires
        tidy(v),
        0 <= a <= b <= v.len(),
    ensures
        tidy(v.subrange(a, b)),
{
    let w = v.subrange(a, b);
    assert forall|i: int| 0 <= i < w.len() implies trim_end(#[trigger] w[i]) == w[i] && no_newline(w[i]) by {
        assert(w[i] == v[a + i]);
    }
    assert forall|i: int| 0 <= i < w.len() - 1 implies (#[trigger] w[i]).len() > 0 || w[i + 1].len() > 0 by {
        assert(w[i] == v[a + i] && w[i + 1] == v[a + i + 1]);
    }
}

proof fn lemma_nonblank_drop_first(v: Seq<Seq<char>>)
    requires
        v.len() > 0,
        v[0].len() == 0,
    ensures
        nonblank(v.drop_first()) == nonblank(v),
    decreases v.len(),
{
    if v.len() == 1 {
        assert(v.drop_first() =~= Seq::<Seq<char>>::empty());
        assert(v.drop_last() =~= Seq::<Seq<char>>::empty());
    } else {
        lemma_nonblank_drop_first(v.drop_last());
        assert(v.drop_first().drop_last() =~= v.drop_last().drop_first());
        assert(v.drop_first().last() == v.last());
    }
}

#[verifier::spinoff_prover]
proof fn lemma_trim_start_of_cat(u: Seq<Seq<char>>)
    requires
        tidy(u),
    ensures
        trim_newlines_start(cat_lines(u)) == cat_lines(drop_blank_start(u)),
        tidy(drop_blank_start(u)),
        drop_blank_start(u).len() > 0 ==> drop_blank_start(u)[0].len() > 0,
        nonblank(drop_blank_start(u)) == nonblank(u),
{
    let a = drop_blank_start(u);
    if u.len() > 0 && u[0].len() == 0 {
        lemma_tidy_sub(u, 1, u.len() as int);
        assert(a =~= u.subrange(1, u.len() as int));
        if a.len() > 0 {
            assert(a[0] == u[1]);
            assert(u[0].len() > 0 || u[1].len() > 0);
        }
        assert(u =~= seq![u[0]] + a);
        lemma_cat_prepend(u[0], a);
        assert(u[0] =~= Seq::<char>::empty());
        assert(cat_lines(u) =~= seq!['\n'] + cat_lines(a));
        assert(cat_lines(u).drop_first() =~= cat_lines(a));
        assert(cat_lines(u)[0] == '\n');
        assert(trim_newlines_start(cat_lines(u)) == trim_newlines_start(cat_lines(u).drop_first()));
        if a.len() > 0 {
            lemma_starts_without_blank(a);
        } else {
            assert(cat_lines(a) =~= Seq::<char>::empty());
            assert(trim_newlines_start(Seq::<char>::empty()) == Seq::<char>::empty());
        }
        lemma_nonblank_drop_first(u);
    } else if u.len() > 0 {
        lemma_starts_without_blank(u);
    } else {
        assert(cat_lines(u) =~= Seq::<char>::empty());
    }
}

/// A blank last line is dropped with its line break.
#[verifier::spinoff_prover]
proof fn lemma_trim_end_blank_last(a: Seq<Seq<char>>)
    requires
        tidy(a),
        a.len() > 0,
        a[0].len() > 0,
        a.last().len() == 0,
    ensures
        trim_newlines_end(cat_lines(a)).push('\n') == cat_lines(drop_blank_end(a)),
        tidy(drop_blank_end(a)),
        drop_blank_end(a).len() > 0,
        drop_blank_end(a)[0].len() > 0,
        drop_blank_end(a).last().len() > 0,
        nonblank(drop_blank_end(a)) == nonblank(a),
{
    let v = drop_blank_end(a);
    assert(a.len() >= 2) by {
        if a.len() == 1 {
            assert(a.last() == a[0]);
        }
    }
    lemma_tidy_sub(a, 0, a.len() - 1);
    assert(v =~= a.subrange(0, a.len() - 1));
    assert(v.last() == a[a.len() - 2]);
    assert(a[a.len() - 2].len() > 0 || a[a.len() - 1].len() > 0);
    assert(v[0] == a[0]);
    assert(a.drop_last() =~= v);
    let c = cat_lines(a);
    assert(c == cat_lines(v) + a.last() + seq!['\n']);
    assert(c =~= cat_lines(v).push('\n'));
    assert(c.drop_last() =~= cat_lines(v));
    assert(trim_newlines_end(c) == trim_newlines_end(cat_lines(v)));
    lemma_ends_without_blank(v);
    assert(cat_lines(v).drop_last().push('\n') =~= cat_lines(v));
}

#[verifier::spinoff_prover]
proof fn lemma_trim_end_of_cat(a: Seq<Seq<char>>)
    requires
        tidy(a),
        a.len() > 0 ==> a[0].len() > 0,
    ensures
        trim_newlines_end(cat_lines(a)).push('\n') == (if drop_blank_end(a).len() == 0 {
            seq!['\n']
        } else {
            cat_lines(drop_blank_end(a))
        }),
        tidy(drop_blank_end(a)),
        drop_blank_end(a).len() > 0 ==> drop_blank_end(a)[0].len() > 0 && drop_blank_end(a).last().len() > 0,
        nonblank(drop_blank_end(a)) == nonblank(a),
{
    if a.len() > 0 && a.last().len() == 0 {
        lemma_trim_end_blank_last(a);
    } else if a.len() > 0 {
        lemma_ends_without_blank(a);
        assert(cat_lines(a).drop_last().push('\n') =~= cat_lines(a));
    } else {
        assert(cat_lines(a) =~= Seq::<char>::empty());
        assert(trim_newlines_end(Seq::<char>::empty()) == Seq::<char>::empty());
        assert(Seq::<char>::empty().push('\n') =~= seq!['\n']);
    }
}

/// Normalizing lines `u` as `norm_units` leaves them: the text has those lines, the blank ones
/// at either end dropped, or is a lone line break when none is left.
proof fn lemma_final_newline_of_cat(u: Seq<Seq<char>>)
    requires
        tidy(u),
    ensures
        one_final_newline(cat_lines(u)) == (if drop_blank_ends(u).len() == 0 {
            seq!['\n']
        } else {
            cat_lines(drop_blank_ends(u))
        }),
        tidy(drop_blank_ends(u)),
        drop_blank_ends(u).len() > 0 ==> drop_blank_ends(u)[0].len() > 0 && drop_blank_ends(u).last().len() > 0,
        nonblank(drop_blank_ends(u)) == nonblank(u),
{
    lemma_trim_start_of_cat(u);
    lemma_trim_end_of_cat(drop_blank_start(u));
}

proof fn lemma_one_blank()
    ensures
        cat_lines(seq![Seq::<char>::empty()]) == seq!['\n'],
        nonblank(seq![Seq::<char>::empty()]) == Seq::<Seq<char>>::empty(),
        norm_units(seq![Seq::<char>::empty()]) == seq![Seq::<char>::empty()],
        tidy(seq![Seq::<char>::empty()]),
        drop_blank_ends(seq![Seq::<char>::empty()]) == Seq::<Seq<char>>::empty(),
{
    let e = Seq::<char>::empty();
    let one = seq![e];
    assert(one.drop_last() =~= Seq::<Seq<char>>::empty());
    assert(one.last() == e);
    assert(cat_lines(Seq::<Seq<char>>::empty()) =~= Seq::<char>::empty());
    assert(cat_lines(one) =~= seq!['\n']);
    assert(nonblank(Seq::<Seq<char>>::empty()) =~= Seq::<Seq<char>>::empty());
    assert(norm_units(Seq::<Seq<char>>::empty()) =~= Seq::<Seq<char>>::empty());
    assert(trim_end(e) =~= e);
    assert(norm_units(one) =~= Seq::<Seq<char>>::empty().push(e));
    assert(no_newline(e));
    assert(drop_blank_start(one) =~= Seq::<Seq<char>>::empty());
}

proof fn lemma_tidy_units_fixed(v: Seq<Seq<char>>)
    requires
        tidy(v),
        v.len() > 0 ==> v[0].len() > 0,
    ensures
        norm_units(v) == v,
    decreases v.len(),
{
    if v.len() > 0 {
        let p = v.drop_last();
        lemma_tidy_sub(v, 0, v.len() - 1);
        assert(p =~= v.subrange(0, v.len() - 1));
        if p.len() > 0 {
            assert(p[0] == v[0]);
        }
        lemma_tidy_units_fixed(p);
        let l = v.last();
        assert(trim_end(v[v.len() - 1]) == v[v.len() - 1]);
        if l.len() == 0 {
            assert(v.len() >= 2);
            assert(v[v.len() - 2].len() > 0 || v[v.len() - 1].len() > 0);
            assert(p.last() == v[v.len() - 2]);
            assert(l =~= Seq::<char>::empty());
        }
        assert(v =~= p.push(l));
    }
}

/// Tidy lines, each followed by a line break, never hold three line breaks in a row.
proof fn lemma_cat_no_triple(v: Seq<Seq<char>>)
    requires
        tidy(v),
    ensures
        !crate::text::contains_seq(cat_lines(v), seq!['\n', '\n', '\n']),
    decreases v.len(),
{
    let q = seq!['\n', '\n', '\n'];
    let r = cat_lines(v);
    if v.len() == 0 {
        assert(r =~= Seq::<char>::empty());
        assert forall|j: int| !occurs_at(r, j, q) by {}
    } else {
        let p = v.drop_last();
        lemma_tidy_sub(v, 0, v.len() - 1);
        assert(p =~= v.subrange(0, v.len() - 1));
        lemma_cat_no_triple(p);
        let c = cat_lines(p);
        let l = v.last();
        assert(r == c + l + seq!['\n']);
        assert(no_newline(v[v.len() - 1]));
        let n = r.len() as int;
        assert forall|j: int| !occurs_at(r, j, q) by {
            if occurs_at(r, j, q) {
                assert(r[j] == '\n' && r[j + 1] == '\n' && r[j + 2] == '\n') by {
                    assert(r.subrange(j, j + 3)[0] == r[j]);
                    assert(r.subrange(j, j + 3)[1] == r[j + 1]);
                    assert(r.subrange(j, j + 3)[2] == r[j + 2]);
                }
                if j + 3 <= c.len() {
                    assert(c.subrange(j, j + 3) =~= r.subrange(j, j + 3));
                    assert(occurs_at(c, j, q));
                } else if l.len() > 0 {
                    if j + 2 < n - 1 {
                        assert(r[j + 2] == l[j + 2 - c.len()]);
                    } else {
                        assert(r[j + 1] == l[j + 1 - c.len()]);
                    }
                } else {
                    assert(j == c.len() - 2);
                    assert(p.len() > 0) by {
                        if p.len() == 0 {
                            assert(c =~= Seq::<char>::empty());
                        }
                    }
                    let l2 = p.last();
                    assert(c == cat_lines(p.drop_last()) + l2 + seq!['\n']);
                    assert(no_newline(p[p.len() - 1]));
                    assert(r[j] == c[c.len() - 2]);
                    if l2.len() > 0 {
                        assert(c[c.len() - 2] == l2.last());
                    }
                    assert(v[v.len() - 2] == l2);
                    assert(v[v.len() - 2].len() > 0 || v[v.len() - 1].len() > 0);
                }
            }
        }
    }
}

/// What normalizing gives: every line trimmed at the end, no two blank lines in a row and
/// none at either end (but for a lone line break), the non-blank lines those of the input,
/// trimmed, in order; never three line breaks in a row; and normalizing again changes nothing.
#[verifier::rlimit(40)]
#[verifier::spinoff_prover]
pub proof fn lemma_normalize_laws(s: Seq<char>)
    ensures
        forall|k: int|
            0 <= k < lines(normalize_spec(s)).len() ==> trim_end(#[trigger] lines(normalize_spec(s))[k])
                == lines(normalize_spec(s))[k],
        forall|k: int|
            0 <= k < lines(normalize_spec(s)).len() - 1 ==> (#[trigger] lines(normalize_spec(s))[k]).len() > 0
                || lines(normalize_spec(s))[k + 1].len() > 0,
        normalize_spec(s) == seq!['\n'] || (lines(normalize_spec(s))[0].len() > 0 && lines(
            normalize_spec(s),
        ).last().len() > 0),
        nonblank(lines(normalize_spec(s))) == nonblank(trimmed_lines(lines(s))),
        normalize_spec(normalize_spec(s)) == normalize_spec(s),
        !crate::text::contains_seq(normalize_spec(s), seq!['\n', '\n', '\n']),
{
    let ls = lines(s);
    lemma_lines_no_newline(s);
    lemma_fold_is_cat(ls);
    lemma_units_tidy(ls);
    let u = norm_units(ls);
    lemma_final_newline_of_cat(u);
    let v = drop_blank_ends(u);
    let r = normalize_spec(s);
    if v.len() == 0 {
        let one = seq![Seq::<char>::empty()];
        lemma_one_blank();
        assert forall|j: int| !occurs_at(r, j, seq!['\n', '\n', '\n']) by {}
        lemma_lines_of_cat(one);
        lemma_fold_is_cat(one);
        lemma_final_newline_of_cat(one);
    } else {
        assert(r == cat_lines(v));
        lemma_cat_no_triple(v);
        lemma_lines_of_cat(v);
        // again
        lemma_fold_is_cat(v);
        lemma_tidy_units_fixed(v);
        lemma_final_newline_of_cat(v);
        assert(drop_blank_ends(v) == v);
    }
}


// ---------------------------------------------------------------- the `<pre>` fix is stable

proof fn lemma_lower_parts(x: Seq<char>, y: Seq<char>, a: int, b: int)
    requires
        0 <= a <= b <= x.len(),
    ensures
        ascii_lower(x + y) == ascii_lower(x) + ascii_lower(y),
        ascii_lower(x.subrange(a, b)) == ascii_lower(x).subrange(a, b),
        ascii_lower(x).len() == x.len(),
{
    assert(ascii_lower(x + y) =~= ascii_lower(x) + ascii_lower(y));
    assert(ascii_lower(x.subrange(a, b)) =~= ascii_lower(x).subrange(a, b));
}

/// The fix of `html` from `p.len() + j` on is the fix of `y` from `j` on, where `html` is
/// `p` then `y`.
proof fn lemma_pre_shift(p: Seq<char>, y: Seq<char>, j: int)
    requires
        0 <= j <= y.len(),
    ensures
        pre_wrapped(p + y, ascii_lower(p + y), p.len() + j) == pre_wrapped(y, ascii_lower(y), j),
    decreases y.len() - j,
{
    let h = p + y;
    let lh = ascii_lower(h);
    let ly = ascii_lower(y);
    lemma_lower_parts(p, y, 0, 0);
    let n = h.len() as int;
    let m = y.len() as int;
    let d = p.len() as int;
    assert(lh.len() == n && ly.len() == m);
    assert forall|a: int| j <= a <= m implies #[trigger] lh.subrange(d + a, n) == ly.subrange(a, m) by {
        assert(lh.subrange(d + a, n) =~= ly.subrange(a, m));
    }
    assert forall|a: int, b: int| j <= a <= b <= m implies #[trigger] h.subrange(d + a, d + b) == y.subrange(a, b) by {
        assert(h.subrange(d + a, d + b) =~= y.subrange(a, b));
    }
    assert(h.subrange(d + j, n) == y.subrange(j, m)) by {
        assert(h.subrange(d + j, n) =~= y.subrange(j, m));
    }
    assert(lh.subrange(d + j, n) == ly.subrange(j, m));
    match first_at(ly.subrange(j, m), "<pre"@) {
        None => {},
        Some(s0) => {
            lemma_first_at_occurs(ly.subrange(j, m), "<pre"@);
            let st = j + s0;
            assert(lh.subrange(d + st, n) == ly.subrange(st, m));
            match first_at(ly.subrange(st, m), seq!['>']) {
                None => {},
                Some(t0) => {
                    lemma_first_at_occurs(ly.subrange(st, m), seq!['>']);
                    let te = st + t0 + 1;
                    assert(lh.subrange(d + te, n) == ly.subrange(te, m));
                    match first_at(ly.subrange(te, m), "</pre>"@) {
                        None => {},
                        Some(e0) => {
                            lemma_first_at_occurs(ly.subrange(te, m), "</pre>"@);
                            let en = te + e0;
                            assert(h.subrange(d + j, d + te) == y.subrange(j, te));
                            assert(h.subrange(d + te, d + en) == y.subrange(te, en));
                            lemma_pre_shift(p, y, en);
                        },
                    }
                },
            }
        },
    }
}

/// The fix of `h` from `i` on is the fix of `h`'s text from `i` on.
proof fn lemma_pre_from(h: Seq<char>, i: int)
    requires
        0 <= i <= h.len(),
    ensures
        pre_wrapped(h, ascii_lower(h), i) == code_in_pre_spec(h.skip(i)),
{
    let p = h.take(i);
    let y = h.skip(i);
    assert(p + y =~= h);
    lemma_pre_shift(p, y, 0);
}

/// Where the lowered text from `i` on opens with `</pre>`, so does the lowered fix.
#[verifier::spinoff_prover]
proof fn lemma_pre_keeps_close(h: Seq<char>, i: int)
    requires
        0 <= i,
        i + 6 <= h.len(),
        ascii_lower(h).subrange(i, i + 6) == "</pre>"@,
    ensures
        pre_wrapped(h, ascii_lower(h), i).len() >= 6,
        ascii_lower(pre_wrapped(h, ascii_lower(h), i)).take(6) == "</pre>"@,
{
    lemma_code_tags();
    let l = ascii_lower(h);
    let n = h.len() as int;
    lemma_lower_parts(h, seq![], i, i + 6);
    let o = pre_wrapped(h, l, i);
    let ls = l.subrange(i, n);
    assert(ls.take(6) =~= "</pre>"@);
    match first_at(ls, "<pre"@) {
        None => {
            assert(o == h.subrange(i, n));
            lemma_lower_parts(h, seq![], i, n);
            assert(ascii_lower(o).take(6) =~= ls.take(6));
        },
        Some(s0) => {
            lemma_first_at_occurs(ls, "<pre"@);
            assert(s0 >= 6) by {
                assert(ls.subrange(s0, s0 + 4) == "<pre"@);
                assert(ls.subrange(s0, s0 + 4)[0] == '<');
                assert(ls[s0] == ls.subrange(s0, s0 + 4)[0]);
                if s0 < 6 {
                    assert(ls[s0] == ls.take(6)[s0]);
                    if s0 == 0 {
                        assert(ls[1] == ls.subrange(s0, s0 + 4)[1]);
                    }
                }
            }
            let st = i + s0;
            match first_at(l.subrange(st, n), seq!['>']) {
                None => {
                    assert(o == h.subrange(i, n));
                    lemma_lower_parts(h, seq![], i, n);
                    assert(ascii_lower(o).take(6) =~= ls.take(6));
                },
                Some(t0) => {
                    lemma_first_at_occurs(l.subrange(st, n), seq!['>']);
                    let te = st + t0 + 1;
                    match first_at(l.subrange(te, n), "</pre>"@) {
                        None => {
                            assert(o == h.subrange(i, n));
                            lemma_lower_parts(h, seq![], i, n);
                            assert(ascii_lower(o).take(6) =~= ls.take(6));
                        },
                        Some(e0) => {
                            lemma_first_at_occurs(l.subrange(te, n), "</pre>"@);
                            let a = h.subrange(i, te);
                            let rest = code_wrapped(h.subrange(te, te + e0)) + pre_wrapped(h, l, te + e0);
                            assert(o == a + rest);
                            lemma_lower_parts(a, rest, 0, 6);
                            lemma_lower_parts(h, seq![], i, te);
                            assert(ascii_lower(o).take(6) =~= ascii_lower(a).take(6));
                            assert(ascii_lower(a).take(6) =~= ls.take(6));
                        },
                    }
                },
            }
        },
    }
}

/// `<code>`, `</code>` and `</pre>` as the lowered text shows them.
proof fn lemma_code_tags()
    ensures
        ascii_lower("<code>"@) == "<code>"@,
        ascii_lower("</code>"@) == "</code>"@,
        "<code>"@ == seq!['<', 'c', 'o', 'd', 'e', '>'],
        "</code>"@ == seq!['<', '/', 'c', 'o', 'd', 'e', '>'],
        "</pre>"@ == seq!['<', '/', 'p', 'r', 'e', '>'],
        "<pre"@ == seq!['<', 'p', 'r', 'e'],
        "<code"@ == seq!['<', 'c', 'o', 'd', 'e'],
{
    reveal_strlit("<code>");
    reveal_strlit("</code>");
    reveal_strlit("</pre>");
    reveal_strlit("<pre");
    reveal_strlit("<code");
    assert(ascii_lower("<code>"@) =~= "<code>"@);
    assert(ascii_lower("</code>"@) =~= "</code>"@);
}

/// A block's contents, wrapped or not, hold no `</pre>` and none that runs into the `</pre>`
/// after them.
#[verifier::spinoff_prover]
proof fn lemma_wrapped_first_close(inner: Seq<char>, after: Seq<char>)
    requires
        after.len() >= 6,
        after.take(6) == "</pre>"@,
        first_at(ascii_lower(inner) + after, "</pre>"@) == Some(inner.len() as int),
    ensures
        first_at(ascii_lower(code_wrapped(inner)) + after, "</pre>"@) == Some(code_wrapped(inner).len() as int),
{
    lemma_code_tags();
    let li = ascii_lower(inner);
    assert(li.len() == inner.len());
    if starts_with(ascii_lower(trim_start(inner)), "<code"@) {
    } else {
        let w = "<code>"@ + inner + "</code>"@;
        lemma_lower_parts("<code>"@ + inner, "</code>"@, 0, 0);
        lemma_lower_parts("<code>"@, inner, 0, 0);
        let z = ascii_lower(w) + after;
        assert(ascii_lower(w) == "<code>"@ + li + "</code>"@);
        let k = w.len() as int;
        let q = "</pre>"@;
        let x = li + after;
        lemma_first_at_first(x, q);
        assert(z.subrange(k, k + 6) =~= after.take(6));
        assert forall|j: int| 0 <= j < k implies !occurs_at(z, j, q) by {
            if occurs_at(z, j, q) {
                assert(z.subrange(j, j + 6) == q);
                assert(z[j] == '<' && z[j + 1] == '/' && z[j + 2] == 'p') by {
                    assert(z[j] == z.subrange(j, j + 6)[0]);
                    assert(z[j + 1] == z.subrange(j, j + 6)[1]);
                    assert(z[j + 2] == z.subrange(j, j + 6)[2]);
                }
                let ni = li.len() as int;
                if j < 6 {
                    assert(z[j] == "<code>"@[j]);
                    if j == 0 {
                        assert(z[1] == 'c');
                    }
                } else if j + 6 <= 6 + ni {
                    assert(x.subrange(j - 6, j) =~= z.subrange(j, j + 6)) by {
                        assert forall|t: int| 0 <= t < 6 implies #[trigger] x.subrange(j - 6, j)[t] == z.subrange(j, j + 6)[t] by {
                            assert(x[j - 6 + t] == li[j - 6 + t]);
                            assert(z[j + t] == li[j - 6 + t]);
                        }
                    }
                    assert(occurs_at(x, j - 6, q));
                } else if j < 6 + ni {
                    let dd = 6 + ni - j;
                    assert(1 <= dd < 6);
                    assert(z[6 + ni] == '<');
                    assert(z[j + dd] == z.subrange(j, j + 6)[dd]);
                } else {
                    let o = j - 6 - ni;
                    assert(0 <= o < 7);
                    assert(z[j] == "</code>"@[o]);
                    if o == 0 {
                        assert(z[j + 2] == 'c');
                    }
                }
            }
        }
        lemma_first_at_is(z, q, k);
    }
}

/// Fixing the `<pre>` blocks a second time changes nothing.
pub proof fn lemma_code_in_pre_stable(h: Seq<char>)
    ensures
        code_in_pre_spec(code_in_pre_spec(h)) == code_in_pre_spec(h),
{
    lemma_pre_stable_from(h, 0);
}

proof fn lemma_pre_stable_from(h: Seq<char>, i: int)
    requires
        0 <= i <= h.len(),
    ensures
        code_in_pre_spec(pre_wrapped(h, ascii_lower(h), i)) == pre_wrapped(h, ascii_lower(h), i),
    decreases h.len() - i,
{
    lemma_code_tags();
    let l = ascii_lower(h);
    let n = h.len() as int;
    let o = pre_wrapped(h, l, i);
    lemma_lower_parts(h, seq![], i, n);
    lemma_pre_from(h, i);
    let ls = l.subrange(i, n);
    match first_at(ls, "<pre"@) {
        None => {
            assert(o == h.subrange(i, n));
            assert(h.skip(i) =~= h.subrange(i, n));
        },
        Some(s0) => {
            lemma_first_at_occurs(ls, "<pre"@);
            let st = i + s0;
            match first_at(l.subrange(st, n), seq!['>']) {
                None => {
                    assert(o == h.subrange(i, n));
                    assert(h.skip(i) =~= h.subrange(i, n));
                },
                Some(t0) => {
                    lemma_first_at_occurs(l.subrange(st, n), seq!['>']);
                    let te = st + t0 + 1;
                    match first_at(l.subrange(te, n), "</pre>"@) {
                        None => {
                            assert(o == h.subrange(i, n));
                            assert(h.skip(i) =~= h.subrange(i, n));
                        },
                        Some(e0) => {
                            lemma_pre_stable_next(h, i, s0, t0, e0);
                        },
                    }
                },
            }
        },
    }
}

#[verifier::rlimit(60)]
#[verifier::spinoff_prover]
proof fn lemma_pre_stable_next(h: Seq<char>, i: int, s0: int, t0: int, e0: int)
    requires
        0 <= i <= h.len(),
        first_at(ascii_lower(h).subrange(i, h.len() as int), "<pre"@) == Some(s0),
        first_at(ascii_lower(h).subrange(i + s0, h.len() as int), seq!['>']) == Some(t0),
        first_at(ascii_lower(h).subrange(i + s0 + t0 + 1, h.len() as int), "</pre>"@) == Some(e0),
    ensures
        code_in_pre_spec(pre_wrapped(h, ascii_lower(h), i)) == pre_wrapped(h, ascii_lower(h), i),
    decreases h.len() - i, 0int,
{
    lemma_code_tags();
    let l = ascii_lower(h);
    let n = h.len() as int;
    lemma_lower_parts(h, seq![], i, n);
    let ls = l.subrange(i, n);
    let st = i + s0;
    let te = st + t0 + 1;
    let en = te + e0;
    lemma_first_at_occurs(ls, "<pre"@);
    lemma_first_at_occurs(l.subrange(st, n), seq!['>']);
    lemma_first_at_occurs(l.subrange(te, n), "</pre>"@);
    lemma_first_at_first(l.subrange(st, n), seq!['>']);
    // the tag's `>` comes after `<pre`
    assert(t0 >= 4) by {
        if t0 < 4 {
            assert(!occurs_at(l.subrange(st, n), t0, seq!['>'])) by {
                assert(ls.subrange(s0, s0 + 4) == "<pre"@);
                assert(l.subrange(st, n)[t0] == ls.subrange(s0, s0 + 4)[t0]);
                if occurs_at(l.subrange(st, n), t0, seq!['>']) {
                    assert(l.subrange(st, n).subrange(t0, t0 + 1)[0] == l.subrange(st, n)[t0]);
                }
            }
        }
    }
    let a = h.subrange(i, te);
    let inner = h.subrange(te, en);
    let w = code_wrapped(inner);
    let r = pre_wrapped(h, l, en);
    let o = pre_wrapped(h, l, i);
    assert(o == a + w + r);
    lemma_pre_stable_from(h, en);
    assert(l.subrange(te, n).subrange(e0, e0 + 6) == "</pre>"@);
    assert(l.subrange(en, en + 6) =~= l.subrange(te, n).subrange(e0, e0 + 6));
    lemma_pre_keeps_close(h, en);
    // the lowered fix, piece by piece
    let lo = ascii_lower(o);
    lemma_lower_parts(a + w, r, 0, 0);
    lemma_lower_parts(a, w, 0, 0);
    lemma_lower_parts(h, seq![], i, te);
    let la = ascii_lower(a);
    assert(la == l.subrange(i, te));
    let lw = ascii_lower(w);
    let lr = ascii_lower(r);
    assert(lo == la + lw + lr);
    let ka = a.len() as int;
    let kw = w.len() as int;
    assert(ka == te - i);
    // `<pre` at the same place
    assert(lo.take(ka) =~= ls.take(ka));
    lemma_first_at_same(ls, lo, "<pre"@, ka, s0);
    assert(lo.subrange(0, lo.len() as int) =~= lo);
    // `>` at the same place
    assert(lo.subrange(s0, lo.len() as int).take(t0 + 1) =~= l.subrange(st, n).take(t0 + 1));
    lemma_first_at_same(l.subrange(st, n), lo.subrange(s0, lo.len() as int), seq!['>'], t0 + 1, t0);
    // `</pre>` right after the block's contents
    let after = lr;
    assert(after.take(6) == "</pre>"@);
    assert(lo.subrange(ka, lo.len() as int) =~= lw + after);
    let li = ascii_lower(inner);
    lemma_lower_parts(h, seq![], te, en);
    assert(li == l.subrange(te, en));
    assert(first_at(li + after, "</pre>"@) == Some(inner.len() as int)) by {
        let x = l.subrange(te, n);
        let y = li + after;
        assert(x.take(e0 + 6) =~= y.take(e0 + 6)) by {
            assert forall|t: int| 0 <= t < e0 + 6 implies #[trigger] x.take(e0 + 6)[t] == y.take(e0 + 6)[t] by {
                if t < e0 {
                    assert(y[t] == li[t]);
                    assert(li[t] == l[te + t]);
                } else {
                    assert(y[t] == after[t - e0]);
                    assert(after[t - e0] == after.take(6)[t - e0]);
                    assert(x[t] == x.subrange(e0, e0 + 6)[t - e0]);
                }
            }
        }
        lemma_first_at_same(x, y, "</pre>"@, e0 + 6, e0);
    }
    lemma_wrapped_first_close(inner, after);
    // the contents stay as they are
    assert(code_wrapped(w) == w) by {
        if !starts_with(ascii_lower(trim_start(inner)), "<code"@) {
            assert(w == "<code>"@ + inner + "</code>"@);
            assert(w[0] == '<');
            assert(trim_start(w) == w);
            lemma_lower_parts("<code>"@ + inner, "</code>"@, 0, 0);
            lemma_lower_parts("<code>"@, inner, 0, 0);
            assert(ascii_lower(w).take(5) =~= "<code"@);
        }
    }
    // the rest of the second pass is the second pass of the rest
    lemma_pre_shift(a + w, r, 0);
    assert(o.subrange(0, ka) =~= a);
    assert(o.subrange(ka, ka + kw) =~= w);
    let s1 = s0;
    let te2 = s1 + t0 + 1;
    assert(te2 == ka);
    assert(lo.subrange(te2, lo.len() as int) == lw + after);
    assert(code_in_pre_spec(o) == o.subrange(0, ka) + code_wrapped(o.subrange(ka, ka + kw)) + pre_wrapped(
        o,
        lo,
        ka + kw,
    ));
    assert((a + w) + r =~= o);
}

} // verus!
