//! Resident mode: the hotkey's description, the preview shown in the popup, and the choice of
//! what a conversion request does.
use vstd::prelude::*;
use vstd::utf8::{decode_utf8, valid_utf8};
use crate::chooser::Choice;
use crate::convert::{
    already_satisfied, convert_for, convert_for_items, convert_result, first_source, flavor_label, lossy_opt,
    lossy_or_empty, looks_like_markdown_spec, preference, prefers_rtf, read_source, replaces_all_spec, rtf_app,
    same_chars, skip_reason, source_view, target_name, target_title, ClipboardReads, Flavor, Output, Source, Target,
};
use crate::text::{
    ascii_lower, ascii_lower_exec, char_is_space, chars_of, decode_exact, is_space, line_spans, lines, lossy_text,
    push_range, spans_of, split_on, split_spans, string_of, to_upper, unicode_upper,
};

verus! {

pub const DEFAULT_HOTKEY: &'static str = "ctrl+alt+super+v";

/// How one part of a hotkey spec reads: modifier symbols on macOS, names elsewhere.
pub open spec fn key_label(k: Seq<char>, mac: bool) -> Seq<char> {
    if k == "ctrl"@ || k == "control"@ {
        if mac { "⌃"@ } else { "Ctrl+"@ }
    } else if k == "alt"@ || k == "option"@ {
        if mac { "⌥"@ } else { "Alt+"@ }
    } else if k == "super"@ || k == "cmd"@ || k == "command"@ || k == "meta"@ {
        if mac { "⌘"@ } else { "Win+"@ }
    } else if k == "shift"@ {
        if mac { "⇧"@ } else { "Shift+"@ }
    } else {
        unicode_upper(k)
    }
}

pub open spec fn key_labels(parts: Seq<Seq<char>>, mac: bool) -> Seq<char>
    decreases parts.len(),
{
    if parts.len() == 0 {
        seq![]
    } else {
        key_labels(parts.drop_last(), mac) + key_label(ascii_lower(parts.last()), mac)
    }
}

/// Human-readable form of a hotkey spec ("ctrl+alt+super+v" -> "⌃⌥⌘V" on macOS).
pub open spec fn description(spec: Seq<char>, mac: bool) -> Seq<char> {
    key_labels(split_on(spec, '+'), mac)
}

fn key_label_exec(k: &Vec<char>, mac: bool) -> (l: String)
    ensures
        l@ == key_label(k@, mac),
{
    if same_chars(k, "ctrl") || same_chars(k, "control") {
        String::from_str(if mac { "⌃" } else { "Ctrl+" })
    } else if same_chars(k, "alt") || same_chars(k, "option") {
        String::from_str(if mac { "⌥" } else { "Alt+" })
    } else if same_chars(k, "super") || same_chars(k, "cmd") || same_chars(k, "command") || same_chars(k, "meta") {
        String::from_str(if mac { "⌘" } else { "Win+" })
    } else if same_chars(k, "shift") {
        String::from_str(if mac { "⇧" } else { "Shift+" })
    } else {
        let s = string_of(k);
        to_upper(s.as_str())
    }
}

/// Human-readable form of a hotkey spec; `mac` selects the macOS modifier symbols.
pub fn describe(spec: &str, mac: bool) -> (d: String)
    ensures
        d@ == description(spec@, mac),
{
    let c = chars_of(spec);
    let spans = split_spans(&c, '+');
    let ghost parts = split_on(c@, '+');
    let mut out: Vec<char> = Vec::new();
    let mut k: usize = 0;
    while k < spans.len()
        invariant
            parts == split_on(c@, '+'),
            spans_of(c@, spans@, parts),
            k <= spans.len(),
            out@ == key_labels(parts.take(k as int), mac),
        decreases spans.len() - k,
    {
        let (lo, hi) = spans[k];
        proof {
            assert(spans@[k as int].0 <= spans@[k as int].1);
            assert(parts.take(k + 1).drop_last() =~= parts.take(k as int));
            assert(parts.take(k + 1).last() == parts[k as int]);
        }
        let mut part: Vec<char> = Vec::new();
        push_range(&mut part, &c, lo, hi);
        let low = ascii_lower_exec(&part);
        let label = chars_of(key_label_exec(&low, mac).as_str());
        push_range(&mut out, &label, 0, label.len());
        assert(label@.subrange(0, label.len() as int) =~= label@);
        k += 1;
    }
    assert(parts.take(spans.len() as int) =~= parts);
    string_of(&out)
}


/// The labels of two lists of parts, one after the other.
proof fn lemma_key_labels_append(x: Seq<Seq<char>>, y: Seq<Seq<char>>, mac: bool)
    ensures
        key_labels(x + y, mac) == key_labels(x, mac) + key_labels(y, mac),
    decreases y.len(),
{
    if y.len() == 0 {
        assert(x + y =~= x);
        assert(key_labels(y, mac) =~= Seq::<char>::empty());
        assert(key_labels(x, mac) + key_labels(y, mac) =~= key_labels(x, mac));
    } else {
        lemma_key_labels_append(x, y.drop_last(), mac);
        assert((x + y).drop_last() =~= x + y.drop_last());
        assert((x + y).last() == y.last());
    }
}

/// Each `+`-separated part of a hotkey is described on its own: describing `a+b` gives the
/// description of `a` followed by that of `b`.
pub proof fn lemma_describe_join(a: Seq<char>, b: Seq<char>, mac: bool)
    ensures
        description(a + seq!['+'] + b, mac) == description(a, mac) + description(b, mac),
{
    crate::text::lemma_split_join(a, b, '+');
    lemma_key_labels_append(split_on(a, '+'), split_on(b, '+'), mac);
}

// ---------------------------------------------------------------- preview

/// (the words so far, the word being read) after the characters of `s`.
pub open spec fn words_fold(s: Seq<char>) -> (Seq<Seq<char>>, Seq<char>)
    decreases s.len(),
{
    if s.len() == 0 {
        (seq![], seq![])
    } else {
        let (ws, cur) = words_fold(s.drop_last());
        let c = s.last();
        if is_space(c) {
            if cur.len() > 0 {
                (ws.push(cur), seq![])
            } else {
                (ws, seq![])
            }
        } else {
            (ws, cur.push(c))
        }
    }
}

/// The words of `s`: its runs of characters between whitespace (`str::split_whitespace`).
pub open spec fn words(s: Seq<char>) -> Seq<Seq<char>> {
    let (ws, cur) = words_fold(s);
    if cur.len() > 0 {
        ws.push(cur)
    } else {
        ws
    }
}

/// `ws` joined with `sep` between them.
pub open spec fn joined(ws: Seq<Seq<char>>, sep: Seq<char>) -> Seq<char>
    decreases ws.len(),
{
    if ws.len() == 0 {
        seq![]
    } else if ws.len() == 1 {
        ws[0]
    } else {
        joined(ws.drop_last(), sep) + sep + ws.last()
    }
}

/// The words that the wrapping places: those of the text, or one empty word for blank text.
pub open spec fn preview_words(text: Seq<char>) -> Seq<Seq<char>> {
    if words(text).len() == 0 {
        seq![seq![]]
    } else {
        words(text)
    }
}

/// One word placed: a full line is closed first (and placing stops once `lines` lines are
/// full), then the word joins the current line after a space.
pub open spec fn wrap_step(
    st: (Seq<Seq<char>>, Seq<char>, bool),
    word: Seq<char>,
    width: nat,
    lines: nat,
) -> (Seq<Seq<char>>, Seq<char>, bool) {
    let (out, cur, stopped) = st;
    if stopped {
        st
    } else if cur.len() > 0 && cur.len() + 1 + word.len() > width {
        let o = out.push(cur);
        if o.len() == lines {
            (o, seq![], true)
        } else {
            (o, word, false)
        }
    } else {
        (out, (if cur.len() > 0 { cur.push(' ') } else { cur }) + word, false)
    }
}

pub open spec fn wrap_fold(ws: Seq<Seq<char>>, width: nat, lines: nat) -> (Seq<Seq<char>>, Seq<char>, bool)
    decreases ws.len(),
{
    if ws.len() == 0 {
        (seq![], seq![], false)
    } else {
        wrap_step(wrap_fold(ws.drop_last(), width, lines), ws.last(), width, lines)
    }
}

/// The characters that the lines take, each counted with its line break.
pub open spec fn lines_size(ls: Seq<Seq<char>>) -> nat
    decreases ls.len(),
{
    if ls.len() == 0 {
        0
    } else {
        lines_size(ls.drop_last()) + ls.last().len() + 1
    }
}

/// The lines of the preview: the words wrapped at `width`, at most `lines` of them, the last
/// one cut and ended by "…" when the text did not fit.
pub open spec fn preview_lines(text: Seq<char>, width: nat, lines: nat) -> Seq<Seq<char>> {
    let (out, cur, _) = wrap_fold(preview_words(text), width, lines);
    let out = if out.len() < lines && cur.len() > 0 { out.push(cur) } else { out };
    let flat = joined(words(text), seq![' ']);
    if lines_size(out) < flat.len() + 1 && out.len() > 0 {
        let keep = if width > 0 { (width - 1) as nat } else { 0 };
        let last = out.last();
        out.update(out.len() - 1, last.take(if keep < last.len() { keep as int } else { last.len() as int }) + seq!['…'])
    } else {
        out
    }
}

/// The preview text: its lines joined by newlines.
pub open spec fn preview_text(text: Seq<char>, width: nat, lines: nat) -> Seq<char> {
    joined(preview_lines(text, width, lines), seq!['\n'])
}

fn words_exec(s: &Vec<char>) -> (ws: Vec<Vec<char>>)
    ensures
        ws@.map_values(|w: Vec<char>| w@) == words(s@),
{
    let mut ws: Vec<Vec<char>> = Vec::new();
    let mut cur: Vec<char> = Vec::new();
    let mut i: usize = 0;
    while i < s.len()
        invariant
            i <= s.len(),
            (ws@.map_values(|w: Vec<char>| w@), cur@) == words_fold(s@.take(i as int)),
        decreases s.len() - i,
    {
        let c = s[i];
        proof {
            assert(s@.take(i + 1).drop_last() =~= s@.take(i as int));
            assert(s@.take(i + 1).last() == c);
        }
        if char_is_space(c) {
            if cur.len() > 0 {
                let w = cur;
                let ghost wv = w@;
                ws.push(w);
                assert(ws@.map_values(|w: Vec<char>| w@) =~= ws@.drop_last().map_values(|w: Vec<char>| w@).push(wv));
            }
            cur = Vec::new();
        } else {
            cur.push(c);
        }
        i += 1;
    }
    assert(s@.take(s.len() as int) =~= s@);
    if cur.len() > 0 {
        let ghost cv = cur@;
        ws.push(cur);
        assert(ws@.map_values(|w: Vec<char>| w@) =~= ws@.drop_last().map_values(|w: Vec<char>| w@).push(cv));
    }
    ws
}


pub open spec fn views(ws: Seq<Vec<char>>) -> Seq<Seq<char>> {
    ws.map_values(|w: Vec<char>| w@)
}

/// `ws` joined with `sep` between them.
pub fn join_chars(ws: &Vec<Vec<char>>, sep: &[char]) -> (r: Vec<char>)
    ensures
        r@ == joined(views(ws@), sep@),
{
    let mut r: Vec<char> = Vec::new();
    let mut k: usize = 0;
    while k < ws.len()
        invariant
            k <= ws.len(),
            r@ == joined(views(ws@).take(k as int), sep@),
        decreases ws.len() - k,
    {
        proof {
            assert(views(ws@).take(k + 1).drop_last() =~= views(ws@).take(k as int));
            assert(views(ws@).take(k + 1).last() == ws@[k as int]@);
        }
        if k > 0 {
            crate::text::push_chars(&mut r, sep);
        }
        push_range(&mut r, &ws[k], 0, ws[k].len());
        proof {
            assert(ws@[k as int]@.subrange(0, ws@[k as int]@.len() as int) =~= ws@[k as int]@);
            if k == 0 {
                assert(views(ws@).take(1) =~= seq![ws@[0]@]);
                assert(joined(views(ws@).take(0), sep@) =~= Seq::<char>::empty());
                assert(r@ =~= ws@[0]@);
            }
        }
        k += 1;
    }
    assert(views(ws@).take(ws.len() as int) =~= views(ws@));
    r
}

proof fn lemma_lines_size_grows(ls: Seq<Seq<char>>, k: int)
    requires
        0 <= k <= ls.len(),
    ensures
        lines_size(ls.take(k)) <= lines_size(ls),
    decreases ls.len() - k,
{
    if k < ls.len() {
        lemma_lines_size_grows(ls, k + 1);
        assert(ls.take(k + 1).drop_last() =~= ls.take(k));
    } else {
        assert(ls.take(k) =~= ls);
    }
}

/// Whether `lines_size(ls) < bound`.
fn size_below(ls: &Vec<Vec<char>>, bound: u128) -> (b: bool)
    requires
        0 < bound <= u64::MAX as u128 + 1,
    ensures
        b == (lines_size(views(ls@)) < bound),
{
    let ghost v = views(ls@);
    let mut sum: u128 = 0;
    let mut k: usize = 0;
    while k < ls.len()
        invariant
            k <= ls.len(),
            v == views(ls@),
            sum == lines_size(v.take(k as int)),
            sum < bound,
            bound <= u64::MAX as u128 + 1,
        decreases ls.len() - k,
    {
        proof {
            assert(v.take(k + 1).drop_last() =~= v.take(k as int));
        }
        sum = sum + ls[k].len() as u128 + 1;
        if sum >= bound {
            proof {
                lemma_lines_size_grows(v, k + 1);
            }
            return false;
        }
        k += 1;
    }
    assert(v.take(ls.len() as int) =~= v);
    true
}

/// Wrap a preview into at most `lines` lines of about `width` characters.
pub fn wrap_preview(text: &str, width: usize, lines: usize) -> (p: String)
    ensures
        p@ == preview_text(text@, width as nat, lines as nat),
{
    let c = chars_of(text);
    let ws = words_exec(&c);
    let flat = join_chars(&ws, &[' ']);
    assert([' ']@ =~= seq![' ']);
    assert(flat@ == joined(words(text@), seq![' ']));
    let mut pw: Vec<Vec<char>> = ws;
    if pw.len() == 0 {
        pw.push(Vec::new());
        assert(views(pw@) =~= seq![Seq::<char>::empty()]);
    }
    let ghost pv = views(pw@);
    assert(pv == preview_words(text@));
    let mut out: Vec<Vec<char>> = Vec::new();
    let mut cur: Vec<char> = Vec::new();
    let mut stopped = false;
    let mut k: usize = 0;
    while k < pw.len()
        invariant
            k <= pw.len(),
            pv == views(pw@),
            (views(out@), cur@, stopped) == wrap_fold(pv.take(k as int), width as nat, lines as nat),
        decreases pw.len() - k,
    {
        proof {
            assert(pv.take(k + 1).drop_last() =~= pv.take(k as int));
            assert(pv.take(k + 1).last() == pw@[k as int]@);
        }
        let wlen = pw[k].len();
        if !stopped {
            if cur.len() > 0 && (cur.len() as u128) + 1 + (wlen as u128) > width as u128 {
                let full = cur;
                let ghost fv = full@;
                out.push(full);
                assert(views(out@) =~= views(out@.drop_last()).push(fv));
                if out.len() == lines {
                    cur = Vec::new();
                    stopped = true;
                } else {
                    cur = Vec::new();
                    push_range(&mut cur, &pw[k], 0, wlen);
                    assert(pw@[k as int]@.subrange(0, wlen as int) =~= pw@[k as int]@);
                }
            } else {
                if cur.len() > 0 {
                    cur.push(' ');
                }
                push_range(&mut cur, &pw[k], 0, wlen);
                assert(pw@[k as int]@.subrange(0, wlen as int) =~= pw@[k as int]@);
            }
        }
        k += 1;
    }
    assert(pv.take(pw.len() as int) =~= pv);
    if out.len() < lines && cur.len() > 0 {
        let ghost cv = cur@;
        out.push(cur);
        assert(views(out@) =~= views(out@.drop_last()).push(cv));
    }
    let ghost before = views(out@);
    proof {
        let (o, cu, _) = wrap_fold(preview_words(text@), width as nat, lines as nat);
        assert(before == (if o.len() < lines && cu.len() > 0 { o.push(cu) } else { o }));
    }
    if out.len() > 0 && size_below(&out, flat.len() as u128 + 1) {
        let n = out.len();
        let keep = if width > 0 { width - 1 } else { 0 };
        let last_len = out[n - 1].len();
        let take = if keep < last_len { keep } else { last_len };
        let ghost lastv = out@[n - 1]@;
        assert(before.last() == lastv);
        let mut cut: Vec<char> = Vec::new();
        push_range(&mut cut, &out[n - 1], 0, take);
        cut.push('…');
        proof {
            assert(out@[n - 1]@.subrange(0, take as int) =~= out@[n - 1]@.take(take as int));
        }
        let ghost cutv = cut@;
        out.set(n - 1, cut);
        assert(views(out@) =~= before.update(n - 1, cutv));
        proof {
            assert(cutv =~= lastv.take(take as int) + seq!['…']);
            assert(lines_size(before) < joined(words(text@), seq![' ']).len() + 1);
        }
        assert(views(out@) == preview_lines(text@, width as nat, lines as nat));
    } else {
        assert(views(out@) == preview_lines(text@, width as nat, lines as nat));
    }
    let joined_lines = join_chars(&out, &['\n']);
    assert(['\n']@ =~= seq!['\n']);
    string_of(&joined_lines)
}


// ---------------------------------------------------------------- menu

/// The id of the menu item for `t`.
pub open spec fn item_id(t: Target) -> Seq<char> {
    "target-"@ + target_name(t)
}

/// The id of the menu item for `t`.
pub fn target_item_id(t: Target) -> (id: String)
    ensures
        id@ == item_id(t),
{
    let mut id = String::from_str("target-");
    id.append(t.name());
    id
}

/// The target whose menu item has the id `id`, if any.
pub fn menu_target(id: &str) -> (r: Option<Target>)
    ensures
        r matches Some(t) ==> id@ == item_id(t),
        r is None ==> forall|t: Target| id@ != #[trigger] item_id(t),
{
    let all = Target::ALL;
    let c = chars_of(id);
    let mut i: usize = 0;
    while i < 5
        invariant
            i <= 5,
            c@ == id@,
            all@ == seq![Target::Rich, Target::Md, Target::Plain, Target::Html, Target::Text],
            forall|j: int| 0 <= j < i ==> id@ != item_id(#[trigger] all@[j]),
        decreases 5 - i,
    {
        let want = target_item_id(all[i]);
        if same_chars(&c, want.as_str()) {
            return Some(all[i]);
        }
        i += 1;
    }
    proof {
        assert forall|t: Target| id@ != #[trigger] item_id(t) by {
            match t {
                Target::Rich => assert(item_id(all@[0]) == item_id(t)),
                Target::Md => assert(item_id(all@[1]) == item_id(t)),
                Target::Plain => assert(item_id(all@[2]) == item_id(t)),
                Target::Html => assert(item_id(all@[3]) == item_id(t)),
                Target::Text => assert(item_id(all@[4]) == item_id(t)),
            }
        }
    }
    None
}

/// Each target's menu item leads back to that target.
pub proof fn lemma_item_ids_differ(t: Target, u: Target)
    ensures
        item_id(t) == item_id(u) <==> t == u,
{
    reveal_strlit("target-");
    reveal_strlit("rich");
    reveal_strlit("md");
    reveal_strlit("plain");
    reveal_strlit("html");
    reveal_strlit("text");
    if t != u {
        let a = item_id(t);
        let b = item_id(u);
        assert(a.len() != b.len() || a[7] != b[7]);
    }
}

/// The page that the menu's "about" entry opens.
pub const ABOUT_URL: &'static str = "http://jkn.me";

/// The settings pane (macOS) where the permission to paste is granted.
pub const ACCESSIBILITY_URL: &'static str = "x-apple.systempreferences:com.apple.preference.security?Privacy_Accessibility";

/// What choosing a menu entry does.
pub enum MenuAction {
    Convert(Target),
    /// Open the page about the program.
    About,
    /// Open the settings pane of the permission to paste.
    Accessibility,
    Quit,
    /// An entry that does nothing.
    Nothing,
}

/// What choosing the menu entry with the id `id` does.
pub open spec fn menu_action_spec(id: Seq<char>, a: MenuAction) -> bool {
    if exists|t: Target| id == #[trigger] item_id(t) {
        a matches MenuAction::Convert(t) && id == item_id(t)
    } else if id == "about"@ {
        a is About
    } else if id == "accessibility"@ {
        a is Accessibility
    } else if id == "quit"@ {
        a is Quit
    } else {
        a is Nothing
    }
}

/// What choosing the menu entry with the id `id` does.
pub fn menu_action(id: &str) -> (a: MenuAction)
    ensures
        menu_action_spec(id@, a),
{
    match menu_target(id) {
        Some(t) => MenuAction::Convert(t),
        None => {
            let c = chars_of(id);
            if same_chars(&c, "about") {
                MenuAction::About
            } else if same_chars(&c, "accessibility") {
                MenuAction::Accessibility
            } else if same_chars(&c, "quit") {
                MenuAction::Quit
            } else {
                MenuAction::Nothing
            }
        },
    }
}

/// How long the resident loop waits between two looks at the clipboard and the events, in
/// milliseconds: briefly while the chooser is open, longer otherwise.
pub fn tick_ms(chooser_open: bool) -> (ms: u64)
    ensures
        ms == (if chooser_open { 50u64 } else { 250u64 }),
{
    if chooser_open {
        50
    } else {
        250
    }
}

/// How long the tray icon shows the outcome of a request, in milliseconds.
pub const FLASH_MS: u64 = 1500;

/// One entry of the tray or popup menu.
pub enum MenuEntry {
    Separator,
    Item { id: Option<String>, title: String, enabled: bool },
}

/// A menu entry as a value.
pub enum EntryModel {
    Separator,
    Item { id: Option<Seq<char>>, title: Seq<char>, enabled: bool },
}

pub open spec fn id_view(o: Option<String>) -> Option<Seq<char>> {
    match o {
        Some(s) => Some(s@),
        None => None,
    }
}

impl View for MenuEntry {
    type V = EntryModel;

    open spec fn view(&self) -> EntryModel {
        match self {
            MenuEntry::Separator => EntryModel::Separator,
            MenuEntry::Item { id, title, enabled } => EntryModel::Item { id: id_view(*id), title: title@, enabled: *enabled },
        }
    }
}

pub open spec fn bytes_view(o: Option<Vec<u8>>) -> Option<Seq<u8>> {
    match o {
        Some(b) => Some(b@),
        None => None,
    }
}

pub open spec fn entries_view(es: Seq<MenuEntry>) -> Seq<EntryModel> {
    es.map_values(|e: MenuEntry| e@)
}

/// A disabled entry that only shows `title`.
pub open spec fn label_entry(title: Seq<char>) -> EntryModel {
    EntryModel::Item { id: None, title: title, enabled: false }
}

/// The labels of `fs`, in order.
pub open spec fn labels(fs: Seq<Flavor>) -> Seq<Seq<char>> {
    fs.map_values(|f: Flavor| flavor_label(f))
}

/// The menu's heading: the flavors on the clipboard.
pub open spec fn clipboard_header(present: Seq<Flavor>) -> Seq<char> {
    if present.len() == 0 {
        "Clipboard: empty"@
    } else {
        "Clipboard: "@ + joined(labels(present), ", "@)
    }
}

/// The preview that the menu shows of the text flavor `text`: its first words, wrapped at 44
/// characters on at most three lines, when it is UTF-8 and holds a word.
pub open spec fn menu_preview(text: Option<Seq<u8>>) -> Option<Seq<char>> {
    match text {
        Some(b) => if valid_utf8(b) && preview_text(decode_utf8(b), 44, 3).len() > 0 {
            Some(preview_text(decode_utf8(b), 44, 3))
        } else {
            None
        },
        None => None,
    }
}

/// The title under which the preview shows: a marker that the macOS menu replaces by the
/// preview itself, and the first line elsewhere.
pub open spec fn preview_entry_title(p: Seq<char>, mac: bool) -> Seq<char> {
    if mac {
        "\u{200b}preview"@
    } else if lines(p).len() > 0 {
        lines(p)[0]
    } else {
        seq![]
    }
}

/// The entry for target `t`, numbered `n`.
pub open spec fn target_entry(t: Target, n: Seq<char>, enabled: bool, mac: bool) -> EntryModel {
    EntryModel::Item {
        id: Some(item_id(t)),
        title: if mac { target_title(t) } else { target_title(t) + "\t"@ + n },
        enabled: enabled,
    }
}

/// The entries of the resident menu that follow the targets.
pub open spec fn resident_entries(hotkey: Seq<char>, mac: bool, trusted: bool, version: Seq<char>) -> Seq<EntryModel> {
    seq![
        EntryModel::Separator,
        label_entry("Hotkey: "@ + hotkey),
        label_entry("Hold "@ + (if mac { "⌥"@ } else { "Alt"@ }) + " while choosing to force a conversion"@),
    ] + (if mac {
        seq![
            EntryModel::Item {
                id: Some("accessibility"@),
                title: if trusted {
                    "Accessibility: granted (needed to paste)"@
                } else {
                    "Accessibility: not granted — open Settings…"@
                },
                enabled: true,
            },
        ]
    } else {
        seq![]
    }) + seq![
        EntryModel::Separator,
        EntryModel::Item { id: Some("about"@), title: "ClipTo "@ + version + " — John Knipper, jkn.me"@, enabled: true },
        EntryModel::Item { id: Some("quit"@), title: "Quit ct"@, enabled: true },
    ]
}

/// The menu: the preview, the heading, one entry per target (enabled when the clipboard holds
/// something), and, for the resident menu, the hotkey, the force hint, the permission to paste
/// on macOS, about and quit.
pub open spec fn menu_spec(
    present: Seq<Flavor>,
    text: Option<Seq<u8>>,
    hotkey: Seq<char>,
    resident: bool,
    mac: bool,
    trusted: bool,
    version: Seq<char>,
) -> Seq<EntryModel> {
    let en = present.len() > 0;
    (match menu_preview(text) {
        Some(p) => seq![label_entry(preview_entry_title(p, mac))],
        None => seq![],
    }) + seq![
        label_entry(clipboard_header(present)),
        EntryModel::Separator,
        target_entry(Target::Rich, "1"@, en, mac),
        target_entry(Target::Md, "2"@, en, mac),
        target_entry(Target::Plain, "3"@, en, mac),
        target_entry(Target::Html, "4"@, en, mac),
        target_entry(Target::Text, "5"@, en, mac),
    ] + (if resident { resident_entries(hotkey, mac, trusted, version) } else { seq![] })
}

fn label_item(title: String) -> (e: MenuEntry)
    ensures
        e@ == label_entry(title@),
{
    MenuEntry::Item { id: None, title: title, enabled: false }
}

fn push_entry(es: &mut Vec<MenuEntry>, e: MenuEntry)
    ensures
        entries_view(final(es)@) == entries_view(old(es)@).push(e@),
{
    let ghost before = es@;
    es.push(e);
    assert(entries_view(es@) =~= entries_view(before).push(e@));
}

/// The labels of the flavors `present`, joined by commas.
pub fn flavor_names(present: &[Flavor]) -> (s: String)
    ensures
        s@ == joined(labels(present@), ", "@),
{
    let mut names: Vec<Vec<char>> = Vec::new();
    let mut i: usize = 0;
    while i < present.len()
        invariant
            i <= present.len(),
            views(names@) == labels(present@.take(i as int)),
        decreases present.len() - i,
    {
        let l = chars_of(present[i].label());
        let ghost lv = l@;
        names.push(l);
        assert(views(names@) =~= views(names@.drop_last()).push(lv));
        assert(labels(present@.take(i + 1)) =~= labels(present@.take(i as int)).push(flavor_label(present@[i as int])));
        i += 1;
    }
    assert(present@.take(present.len() as int) =~= present@);
    let sep = chars_of(", ");
    string_of(&join_chars(&names, sep.as_slice()))
}

/// The menu's heading for the flavors `present`.
pub fn header_title(present: &[Flavor]) -> (h: String)
    ensures
        h@ == clipboard_header(present@),
{
    if present.len() == 0 {
        return String::from_str("Clipboard: empty");
    }
    let mut names: Vec<Vec<char>> = Vec::new();
    let mut i: usize = 0;
    while i < present.len()
        invariant
            i <= present.len(),
            views(names@) == labels(present@.take(i as int)),
        decreases present.len() - i,
    {
        let l = chars_of(present[i].label());
        let ghost lv = l@;
        names.push(l);
        assert(views(names@) =~= views(names@.drop_last()).push(lv));
        assert(labels(present@.take(i + 1)) =~= labels(present@.take(i as int)).push(flavor_label(present@[i as int])));
        i += 1;
    }
    assert(present@.take(present.len() as int) =~= present@);
    let sep = chars_of(", ");
    let body = join_chars(&names, sep.as_slice());
    let mut out = chars_of("Clipboard: ");
    crate::text::push_chars(&mut out, body.as_slice());
    string_of(&out)
}

/// The first line of `p`, or nothing when it has none.
fn first_line(p: &str) -> (l: String)
    ensures
        l@ == (if lines(p@).len() > 0 { lines(p@)[0] } else { seq![] }),
{
    let c = chars_of(p);
    let spans = line_spans(&c);
    if spans.len() == 0 {
        proof {
            reveal_strlit("");
        }
        return String::from_str("");
    }
    let (lo, hi) = spans[0];
    assert(spans@[0].0 <= spans@[0].1);
    let mut out: Vec<char> = Vec::new();
    push_range(&mut out, &c, lo, hi);
    string_of(&out)
}

/// The preview of the text flavor's bytes `text`, when there is one to show.
pub fn preview_of(text: Option<Vec<u8>>) -> (p: Option<String>)
    ensures
        id_view(p) == menu_preview(bytes_view(text)),
{
    match text {
        None => None,
        Some(b) => {
            let ghost bv = b@;
            match decode_exact(b) {
                None => None,
                Some(t) => {
                    let p = wrap_preview(t.as_str(), 44, 3);
                    if p.as_str().unicode_len() > 0 {
                        Some(p)
                    } else {
                        None
                    }
                }
            }
        }
    }
}

/// Builds the tray menu (`resident`) or the popup menu for the clipboard's flavors `present` and
/// its text flavor's bytes `text`. `mac` selects the macOS layout, `trusted` tells whether the
/// process may post the paste keystroke, `version` is the program's version.
pub fn build_menu(
    hotkey_desc: &str,
    resident: bool,
    present: &[Flavor],
    text: Option<Vec<u8>>,
    mac: bool,
    trusted: bool,
    version: &str,
) -> (menu: Vec<MenuEntry>)
    ensures
        entries_view(menu@) == menu_spec(
            present@,
            bytes_view(text),
            hotkey_desc@,
            resident,
            mac,
            trusted,
            version@,
        ),
{
    let ghost tv = bytes_view(text);
    let mut menu: Vec<MenuEntry> = Vec::new();
    assert(entries_view(menu@) =~= Seq::<EntryModel>::empty());
    let preview = preview_of(text);
    match preview {
        Some(p) => {
            let title = if mac {
                String::from_str("\u{200b}preview")
            } else {
                first_line(p.as_str())
            };
            push_entry(&mut menu, label_item(title));
        },
        None => {},
    }
    let ghost start = entries_view(menu@);
    assert(start == match menu_preview(tv) {
        Some(p) => seq![label_entry(preview_entry_title(p, mac))],
        None => Seq::<EntryModel>::empty(),
    });
    push_entry(&mut menu, label_item(header_title(present)));
    push_entry(&mut menu, MenuEntry::Separator);
    let en = present.len() > 0;
    let numbers = ["1", "2", "3", "4", "5"];
    let all = Target::ALL;
    let mut i: usize = 0;
    while i < 5
        invariant
            i <= 5,
            en == (present@.len() > 0),
            all@ == seq![Target::Rich, Target::Md, Target::Plain, Target::Html, Target::Text],
            numbers@ == seq!["1", "2", "3", "4", "5"],
            entries_view(menu@) == start + seq![label_entry(clipboard_header(present@)), EntryModel::Separator]
                + Seq::new(i as nat, |j: int| target_entry(all@[j], numbers@[j]@, en, mac)),
        decreases 5 - i,
    {
        let t = all[i];
        let title = if mac {
            String::from_str(t.title())
        } else {
            let mut s = String::from_str(t.title());
            s.append("\t");
            s.append(numbers[i]);
            s
        };
        let ghost before = entries_view(menu@);
        push_entry(&mut menu, MenuEntry::Item { id: Some(target_item_id(t)), title: title, enabled: en });
        assert(Seq::new((i + 1) as nat, |j: int| target_entry(all@[j], numbers@[j]@, en, mac)) =~= Seq::new(
            i as nat,
            |j: int| target_entry(all@[j], numbers@[j]@, en, mac),
        ).push(target_entry(all@[i as int], numbers@[i as int]@, en, mac)));
        i += 1;
    }
    let ghost mid = entries_view(menu@);
    assert(Seq::new(5, |j: int| target_entry(all@[j], numbers@[j]@, en, mac)) =~= seq![
        target_entry(Target::Rich, "1"@, en, mac),
        target_entry(Target::Md, "2"@, en, mac),
        target_entry(Target::Plain, "3"@, en, mac),
        target_entry(Target::Html, "4"@, en, mac),
        target_entry(Target::Text, "5"@, en, mac),
    ]);
    if resident {
        push_entry(&mut menu, MenuEntry::Separator);
        let mut hk = String::from_str("Hotkey: ");
        hk.append(hotkey_desc);
        push_entry(&mut menu, label_item(hk));
        let mut hold = String::from_str("Hold ");
        hold.append(if mac { "⌥" } else { "Alt" });
        hold.append(" while choosing to force a conversion");
        push_entry(&mut menu, label_item(hold));
        let ghost with_hold = entries_view(menu@);
        if mac {
            let label = if trusted {
                "Accessibility: granted (needed to paste)"
            } else {
                "Accessibility: not granted — open Settings…"
            };
            push_entry(
                &mut menu,
                MenuEntry::Item { id: Some(String::from_str("accessibility")), title: String::from_str(label), enabled: true },
            );
        }
        let ghost with_access = entries_view(menu@);
        push_entry(&mut menu, MenuEntry::Separator);
        let mut about = String::from_str("ClipTo ");
        about.append(version);
        about.append(" — John Knipper, jkn.me");
        push_entry(&mut menu, MenuEntry::Item { id: Some(String::from_str("about")), title: about, enabled: true });
        push_entry(
            &mut menu,
            MenuEntry::Item { id: Some(String::from_str("quit")), title: String::from_str("Quit ct"), enabled: true },
        );
        assert(entries_view(menu@) =~= mid + resident_entries(hotkey_desc@, mac, trusted, version@));
    } else {
        assert(entries_view(menu@) =~= mid + Seq::<EntryModel>::empty());
    }
    menu
}

// ---------------------------------------------------------------- icon

/// Whether the pixel at column `x`, row `y` of the tray icon is drawn: the board's outline,
/// the clip at its top, and three lines of text.
pub open spec fn icon_on(x: int, y: int) -> bool {
    ||| (4 <= x < 18 && (y == 3 || y == 4 || y == 19 || y == 20))
    ||| (3 <= y < 21 && (x == 4 || x == 5 || x == 16 || x == 17))
    ||| (8 <= x < 14 && 1 <= y < 6)
    ||| ((y == 9 || y == 12 || y == 15) && 7 <= x < 15)
}

/// Byte `i` of the icon's RGBA data, rows top down: drawn pixels are opaque black, the others
/// transparent.
pub open spec fn icon_byte(i: int) -> u8 {
    let p = i / 4;
    if icon_on(p % 22, p / 22) && i % 4 == 3 {
        255
    } else {
        0
    }
}

fn icon_on_exec(x: u32, y: u32) -> (b: bool)
    ensures
        b == icon_on(x as int, y as int),
{
    (4 <= x && x < 18 && (y == 3 || y == 4 || y == 19 || y == 20)) || (3 <= y && y < 21 && (x == 4 || x == 5
        || x == 16 || x == 17)) || (8 <= x && x < 14 && 1 <= y && y < 6) || ((y == 9 || y == 12 || y == 15) && 7
        <= x && x < 15)
}

/// The tray icon, 22 by 22 pixels of RGBA: a small clipboard drawn in code, so no image file
/// has to ship.
pub fn icon_pixels() -> (px: Vec<u8>)
    ensures
        px.len() == 22 * 22 * 4,
        forall|i: int| 0 <= i < px.len() ==> px@[i] == icon_byte(i),
{
    let mut px: Vec<u8> = Vec::new();
    let mut y: u32 = 0;
    while y < 22
        invariant
            y <= 22,
            px.len() == y * 22 * 4,
            forall|i: int| 0 <= i < px.len() ==> px@[i] == icon_byte(i),
        decreases 22 - y,
    {
        let mut x: u32 = 0;
        while x < 22
            invariant
                y < 22,
                x <= 22,
                px.len() == (y * 22 + x) * 4,
                forall|i: int| 0 <= i < px.len() ==> px@[i] == icon_byte(i),
            decreases 22 - x,
        {
            let on = icon_on_exec(x, y);
            let ghost base = px.len() as int;
            let mut c: u32 = 0;
            while c < 4
                invariant
                    y < 22,
                    x < 22,
                    c <= 4,
                    base == (y * 22 + x) * 4,
                    px.len() == base + c,
                    on == icon_on(x as int, y as int),
                    forall|i: int| 0 <= i < px.len() ==> px@[i] == icon_byte(i),
                decreases 4 - c,
            {
                let v: u8 = if on && c == 3 { 255 } else { 0 };
                proof {
                    let i = base + c;
                    let p = y * 22 + x;
                    assert(i / 4 == p && i % 4 == c) by (nonlinear_arith)
                        requires
                            i == p * 4 + c,
                            0 <= c < 4,
                            p >= 0,
                    ;
                    assert(p % 22 == x && p / 22 == y) by (nonlinear_arith)
                        requires
                            p == y * 22 + x,
                            0 <= x < 22,
                            y >= 0,
                    ;
                    assert(icon_byte(i) == v);
                }
                px.push(v);
                c += 1;
            }
            x += 1;
        }
        y += 1;
    }
    px
}


// ---------------------------------------------------------------- conversion requests

/// A request to convert the clipboard, from the menu or from the chooser.
pub struct Request {
    pub target: Target,
    /// Convert even when the clipboard already holds the target.
    pub force: bool,
    /// Made in the popup or the chooser, rather than in the tray menu.
    pub from_popup: bool,
    /// The app that had focus before the popup, when known.
    pub app_id: Option<String>,
}

/// Whether a request writes rich text as RTF only: it came from the popup, over one of the apps
/// that flatten HTML.
pub open spec fn request_rtf_only(from_popup: bool, app_id: Option<Seq<char>>) -> bool {
    from_popup && (app_id matches Some(a) && rtf_app(a))
}

/// What the popup remembers between showing the menu and the choice in it.
pub struct PopupState {
    pub from_popup: bool,
    pub forced: bool,
    pub app_id: Option<String>,
}

pub open spec fn app_seq(a: Option<String>) -> Option<Seq<char>> {
    match a {
        Some(s) => Some(s@),
        None => None,
    }
}

impl PopupState {
    /// No popup shown.
    pub fn new() -> (p: PopupState)
        ensures
            !p.from_popup,
            !p.forced,
            p.app_id is None,
    {
        PopupState { from_popup: false, forced: false, app_id: None }
    }

    /// The popup closed; `forced` tells whether the force modifier was held then, `app_id` which
    /// app had focus before it.
    pub fn popup_closed(&mut self, forced: bool, app_id: Option<String>)
        ensures
            final(self).from_popup,
            final(self).forced == forced,
            app_seq(final(self).app_id) == app_seq(app_id),
    {
        self.from_popup = true;
        self.forced = forced;
        self.app_id = app_id;
    }

    /// The menu item for `t` was chosen, with the force modifier held (`modifier_held`) or not.
    /// The request is forced when the modifier was held at either moment; the popup is then
    /// forgotten.
    pub fn request(&mut self, t: Target, modifier_held: bool) -> (r: Request)
        ensures
            r.target == t,
            r.force == ((old(self).from_popup && old(self).forced) || modifier_held),
            r.from_popup == old(self).from_popup,
            app_seq(r.app_id) == app_seq(old(self).app_id),
            !final(self).from_popup,
            !final(self).forced,
            final(self).app_id is None,
    {
        let force = (self.from_popup && self.forced) || modifier_held;
        let app_id = self.app_id.take();
        let r = Request { target: t, force: force, from_popup: self.from_popup, app_id: app_id };
        self.from_popup = false;
        self.forced = false;
        r
    }
}

/// The request that a choice in the chooser makes.
pub fn chooser_request(c: Choice) -> (r: Request)
    ensures
        r.target == c.target,
        r.force == c.force,
        r.from_popup,
        app_seq(r.app_id) == app_seq(c.app_id),
{
    Request { target: c.target, force: c.force, from_popup: true, app_id: c.app_id }
}

/// Whether a request writes rich text as RTF only.
pub fn rtf_only_for(req: &Request) -> (b: bool)
    ensures
        b == request_rtf_only(req.from_popup, app_seq(req.app_id)),
{
    req.from_popup && match &req.app_id {
        Some(a) => prefers_rtf(a.as_str()),
        None => false,
    }
}

/// What a request does to the clipboard as read.
pub enum Plan {
    /// The clipboard already holds what the target produces, for this reason.
    Unchanged(String),
    /// Nothing on the clipboard can be converted.
    Nothing,
    /// Write `output`'s flavors, converted from `source`; `keep` keeps the formats it does not
    /// replace.
    Write { source: Source, output: Output, keep: bool },
}

/// The text flavor as the skip rule reads it.
pub open spec fn reads_text(reads: ClipboardReads) -> Seq<char> {
    lossy_or_empty(reads.text)
}

/// Whether the text flavor looks like Markdown, for the reading order.
pub open spec fn reads_text_is_md(reads: ClipboardReads) -> bool {
    match reads.text {
        Some(b) => looks_like_markdown_spec(lossy_text(b@)),
        None => false,
    }
}

/// Why a request for `t` leaves the clipboard as it is, if it does: never when forced.
pub open spec fn request_skip(t: Target, force: bool, present: Seq<Flavor>, reads: ClipboardReads) -> Option<Seq<char>> {
    if force {
        None
    } else {
        skip_reason(t, present, reads_text(reads), lossy_opt(reads.md))
    }
}

/// The source a request for `t` converts from.
pub open spec fn request_source(t: Target, reads: ClipboardReads) -> Option<(bool, Seq<char>)> {
    first_source(preference(t, reads_text_is_md(reads)), reads)
}

fn copy_bytes(b: &Option<Vec<u8>>) -> (c: Option<Vec<u8>>)
    ensures
        bytes_view(c) == bytes_view(*b),
{
    match b {
        Some(v) => Some(v.clone()),
        None => None,
    }
}

/// Decides what the request `req` does on a clipboard holding the flavors `present`, whose
/// bytes are `reads`: leave it (unless forced, when it already holds the target), report that
/// nothing is usable, or write the conversion of the first usable flavor.
pub fn plan_request(req: &Request, present: Vec<Flavor>, reads: &ClipboardReads) -> (p: Plan)
    ensures
        (p is Unchanged) <==> request_skip(req.target, req.force, present@, *reads) is Some,
        p matches Plan::Unchanged(r) ==> request_skip(req.target, req.force, present@, *reads) == Some(r@),
        (p is Nothing) <==> (request_skip(req.target, req.force, present@, *reads) is None && request_source(
            req.target,
            *reads,
        ) is None),
        p matches Plan::Write { source, output, keep } ==> {
            &&& source_view(Some(source)) == request_source(req.target, *reads)
            &&& output.result@ == convert_result(source, req.target)
            &&& crate::convert::items_view(output.items@) == convert_for_items(
                source,
                req.target,
                request_rtf_only(req.from_popup, app_seq(req.app_id)),
            )
            &&& keep == !replaces_all_spec(req.target)
        },
{
    let t = req.target;
    if !req.force {
        let text = copy_bytes(&reads.text);
        let md = copy_bytes(&reads.md);
        proof {
            assert(lossy_or_empty(text) == reads_text(*reads));
            assert(lossy_opt(md) == lossy_opt(reads.md));
        }
        if let Some(reason) = already_satisfied(t, present, text, md) {
            return Plan::Unchanged(reason);
        }
    }
    let order = t.prefer(copy_bytes(&reads.text));
    match read_source(order.as_slice(), reads) {
        None => Plan::Nothing,
        Some(src) => {
            let rtf_only = rtf_only_for(req);
            let output = convert_for(&src, t, rtf_only);
            Plan::Write { source: src, output: output, keep: !t.replaces_all() }
        },
    }
}

/// How a request ended.
pub enum Outcome {
    /// The clipboard already held the target.
    Unchanged,
    /// Nothing usable was on the clipboard.
    Empty,
    /// The conversion was written.
    Written,
    /// Writing failed with this message.
    WriteFailed(String),
    /// The paste keystroke could not be sent.
    PasteFailed,
}

/// The title that the tray icon flashes after a request for `t` ended with `o`.
pub open spec fn flash_text(t: Target, o: Outcome) -> Seq<char> {
    match o {
        Outcome::Unchanged => " = "@ + target_title(t),
        Outcome::Empty => " ✗ empty"@,
        Outcome::Written => " ✓ "@ + target_title(t),
        Outcome::WriteFailed(e) => " ✗ "@ + e@,
        Outcome::PasteFailed => " ✗ paste"@,
    }
}

/// The title that the tray icon flashes after a request for `t` ended with `o`.
pub fn flash_title(t: Target, o: &Outcome) -> (s: String)
    ensures
        s@ == flash_text(t, *o),
{
    match o {
        Outcome::Unchanged => {
            let mut s = String::from_str(" = ");
            s.append(t.title());
            s
        },
        Outcome::Empty => String::from_str(" ✗ empty"),
        Outcome::Written => {
            let mut s = String::from_str(" ✓ ");
            s.append(t.title());
            s
        },
        Outcome::WriteFailed(e) => {
            let mut s = String::from_str(" ✗ ");
            s.append(e.as_str());
            s
        },
        Outcome::PasteFailed => String::from_str(" ✗ paste"),
    }
}

/// Whether the clipboard holds the target after the outcome `o`.
pub open spec fn succeeded(o: Outcome) -> bool {
    o is Unchanged || o is Written
}

/// Whether to send the paste keystroke after the outcome `o`: the clipboard holds the target,
/// pasting is on, and the request came from the popup.
pub fn should_paste(o: &Outcome, auto_paste: bool, from_popup: bool) -> (b: bool)
    ensures
        b == (succeeded(*o) && auto_paste && from_popup),
{
    let ok = match o {
        Outcome::Unchanged | Outcome::Written => true,
        _ => false,
    };
    ok && auto_paste && from_popup
}

/// A forced request never leaves the clipboard unchanged: it writes, or finds nothing to write.
pub proof fn lemma_forced_never_unchanged(t: Target, present: Seq<Flavor>, reads: ClipboardReads)
    ensures
        request_skip(t, true, present, reads) is None,
{
}


proof fn lemma_wrap_fold_count(ws: Seq<Seq<char>>, width: nat, lines: nat)
    requires
        lines >= 1,
    ensures
        wrap_fold(ws, width, lines).2 ==> wrap_fold(ws, width, lines).0.len() == lines,
        !wrap_fold(ws, width, lines).2 ==> wrap_fold(ws, width, lines).0.len() < lines,
    decreases ws.len(),
{
    if ws.len() > 0 {
        lemma_wrap_fold_count(ws.drop_last(), width, lines);
    }
}

/// The preview never has more than `lines` lines, when at least one is asked for.
pub proof fn lemma_preview_fits(text: Seq<char>, width: nat, lines: nat)
    requires
        lines >= 1,
    ensures
        preview_lines(text, width, lines).len() <= lines,
{
    lemma_wrap_fold_count(preview_words(text), width, lines);
}


/// `w` holds no space.
pub open spec fn spacefree(w: Seq<char>) -> bool {
    forall|j: int| 0 <= j < w.len() ==> w[j] != ' '
}

/// A preview line fits: it is at most `width` characters long, or a single word that is
/// longer on its own.
pub open spec fn fits(l: Seq<char>, width: nat) -> bool {
    l.len() <= width || spacefree(l)
}

proof fn lemma_words_fold_spacefree(s: Seq<char>)
    ensures
        forall|k: int| 0 <= k < words_fold(s).0.len() ==> spacefree(#[trigger] words_fold(s).0[k]),
        spacefree(words_fold(s).1),
    decreases s.len(),
{
    if s.len() > 0 {
        lemma_words_fold_spacefree(s.drop_last());
        let (ws, cur) = words_fold(s.drop_last());
        let c = s.last();
        if is_space(c) {
            if cur.len() > 0 {
                assert forall|k: int| 0 <= k < ws.push(cur).len() implies spacefree(#[trigger] ws.push(cur)[k]) by {
                    if k < ws.len() {
                        assert(ws.push(cur)[k] == ws[k]);
                    }
                }
            }
        } else {
            assert(c != ' ');
            assert forall|j: int| 0 <= j < cur.push(c).len() implies cur.push(c)[j] != ' ' by {
                if j < cur.len() {
                    assert(cur.push(c)[j] == cur[j]);
                }
            }
        }
    }
}

proof fn lemma_preview_words_spacefree(text: Seq<char>)
    ensures
        forall|k: int| 0 <= k < preview_words(text).len() ==> spacefree(#[trigger] preview_words(text)[k]),
{
    lemma_words_fold_spacefree(text);
    let (ws, cur) = words_fold(text);
    assert forall|k: int| 0 <= k < words(text).len() implies spacefree(#[trigger] words(text)[k]) by {
        if cur.len() > 0 && k == ws.len() {
            assert(words(text)[k] == cur);
        } else {
            assert(words(text)[k] == ws[k]);
        }
    }
    if words(text).len() == 0 {
        assert(preview_words(text)[0] =~= Seq::<char>::empty());
    }
}

proof fn lemma_wrap_fold_fits(ws: Seq<Seq<char>>, width: nat, lines: nat)
    requires
        forall|k: int| 0 <= k < ws.len() ==> spacefree(#[trigger] ws[k]),
    ensures
        forall|k: int| 0 <= k < wrap_fold(ws, width, lines).0.len() ==> fits(#[trigger] wrap_fold(ws, width, lines).0[k], width),
        fits(wrap_fold(ws, width, lines).1, width),
    decreases ws.len(),
{
    if ws.len() > 0 {
        let p = ws.drop_last();
        assert forall|k: int| 0 <= k < p.len() implies spacefree(#[trigger] p[k]) by {
            assert(p[k] == ws[k]);
        }
        lemma_wrap_fold_fits(p, width, lines);
        let (out, cur, stopped) = wrap_fold(p, width, lines);
        let word = ws.last();
        assert(spacefree(ws[ws.len() - 1]));
        if !stopped {
            if cur.len() > 0 && cur.len() + 1 + word.len() > width {
                let o = out.push(cur);
                assert forall|k: int| 0 <= k < o.len() implies fits(#[trigger] o[k], width) by {
                    if k < out.len() {
                        assert(o[k] == out[k]);
                    }
                }
                if o.len() == lines {
                    assert(spacefree(Seq::<char>::empty()));
                }
            } else if cur.len() == 0 {
                assert(cur + word =~= word);
            }
        }
    }
}

/// Every line of the preview fits its width, but for a single word that is longer on its own;
/// a line cut short ends with "…" within the width.
pub proof fn lemma_preview_lines_fit(text: Seq<char>, width: nat, lines: nat)
    ensures
        forall|k: int| 0 <= k < preview_lines(text, width, lines).len() ==> fits(
            #[trigger] preview_lines(text, width, lines)[k],
            width,
        ),
{
    let ws = preview_words(text);
    lemma_preview_words_spacefree(text);
    lemma_wrap_fold_fits(ws, width, lines);
    let (out0, cur, _) = wrap_fold(ws, width, lines);
    let out = if out0.len() < lines && cur.len() > 0 { out0.push(cur) } else { out0 };
    assert forall|k: int| 0 <= k < out.len() implies fits(#[trigger] out[k], width) by {
        if k < out0.len() {
            assert(out[k] == out0[k]);
        }
    }
    let flat = joined(words(text), seq![' ']);
    if lines_size(out) < flat.len() + 1 && out.len() > 0 {
        let keep = if width > 0 { (width - 1) as nat } else { 0 };
        let last = out.last();
        let cut = last.take(if keep < last.len() { keep as int } else { last.len() as int }) + seq!['…'];
        let r = out.update(out.len() - 1, cut);
        assert(preview_lines(text, width, lines) == r);
        assert(fits(cut, width)) by {
            if width == 0 {
                assert(cut =~= seq!['…']);
                assert(spacefree(cut));
            }
        }
        assert forall|k: int| 0 <= k < r.len() implies fits(#[trigger] r[k], width) by {
            if k < out.len() - 1 {
                assert(r[k] == out[k]);
            }
        }
    } else {
        assert(preview_lines(text, width, lines) == out);
    }
}


proof fn lemma_words_nonempty(s: Seq<char>)
    ensures
        forall|k: int| 0 <= k < words(s).len() ==> (#[trigger] words(s)[k]).len() > 0,
{
    lemma_words_fold_nonempty(s);
    let (ws, cur) = words_fold(s);
    assert forall|k: int| 0 <= k < words(s).len() implies (#[trigger] words(s)[k]).len() > 0 by {
        if cur.len() > 0 && k == ws.len() {
            assert(words(s)[k] == cur);
        } else {
            assert(words(s)[k] == ws[k]);
        }
    }
}

proof fn lemma_words_fold_nonempty(s: Seq<char>)
    ensures
        forall|k: int| 0 <= k < words_fold(s).0.len() ==> (#[trigger] words_fold(s).0[k]).len() > 0,
    decreases s.len(),
{
    if s.len() > 0 {
        lemma_words_fold_nonempty(s.drop_last());
        let (ws, cur) = words_fold(s.drop_last());
        if is_space(s.last()) && cur.len() > 0 {
            assert forall|k: int| 0 <= k < ws.push(cur).len() implies (#[trigger] ws.push(cur)[k]).len() > 0 by {
                if k < ws.len() {
                    assert(ws.push(cur)[k] == ws[k]);
                }
            }
        }
    }
}

proof fn lemma_joined_push(xs: Seq<Seq<char>>, a: Seq<char>)
    ensures
        xs.len() > 0 ==> joined(xs.push(a), seq![' ']) == joined(xs, seq![' ']) + seq![' '] + a,
        xs.len() == 0 ==> joined(xs.push(a), seq![' ']) == a,
{
    assert(xs.push(a).drop_last() =~= xs);
    if xs.len() == 0 {
        assert(xs.push(a)[0] == a);
    }
}

proof fn lemma_lines_size_joined(xs: Seq<Seq<char>>)
    requires
        xs.len() > 0,
    ensures
        lines_size(xs) == joined(xs, seq![' ']).len() + 1,
    decreases xs.len(),
{
    if xs.len() > 1 {
        lemma_lines_size_joined(xs.drop_last());
        assert(joined(xs, seq![' ']) == joined(xs.drop_last(), seq![' ']) + seq![' '] + xs.last());
    } else {
        assert(xs.drop_last() =~= Seq::<Seq<char>>::empty());
        assert(lines_size(Seq::<Seq<char>>::empty()) == 0);
        assert(xs.last() == xs[0]);
        assert(joined(xs, seq![' ']) == xs[0]);
    }
}

proof fn lemma_wrap_fold_keeps(ws: Seq<Seq<char>>, width: nat, lines: nat)
    requires
        lines >= 1,
        ws.len() > 0,
        forall|k: int| 0 <= k < ws.len() ==> (#[trigger] ws[k]).len() > 0,
    ensures
        !wrap_fold(ws, width, lines).2 ==> joined(
            wrap_fold(ws, width, lines).0.push(wrap_fold(ws, width, lines).1),
            seq![' '],
        ) == joined(ws, seq![' ']) && wrap_fold(ws, width, lines).1.len() > 0,
        wrap_fold(ws, width, lines).2 ==> wrap_fold(ws, width, lines).0.len() > 0 && joined(
            wrap_fold(ws, width, lines).0,
            seq![' '],
        ).len() < joined(ws, seq![' ']).len(),
    decreases ws.len(),
{
    let p = ws.drop_last();
    let word = ws.last();
    assert(ws[ws.len() - 1].len() > 0);
    lemma_joined_push(p, word);
    assert(p.push(word) =~= ws);
    if p.len() == 0 {
        assert(wrap_fold(p, width, lines) == (Seq::<Seq<char>>::empty(), Seq::<char>::empty(), false));
        lemma_joined_push(Seq::<Seq<char>>::empty(), word);
        assert(Seq::<char>::empty() + word =~= word);
    } else {
        assert forall|k: int| 0 <= k < p.len() implies (#[trigger] p[k]).len() > 0 by {
            assert(p[k] == ws[k]);
        }
        lemma_wrap_fold_keeps(p, width, lines);
        lemma_wrap_fold_count(p, width, lines);
        let (out, cur, stopped) = wrap_fold(p, width, lines);
        if !stopped {
            if cur.len() > 0 && cur.len() + 1 + word.len() > width {
                let o = out.push(cur);
                lemma_joined_push(o, word);
            } else {
                let c2 = cur.push(' ') + word;
                lemma_joined_push(out, cur);
                lemma_joined_push(out, c2);
                assert(c2 =~= cur + seq![' '] + word);
            }
        } else {
            assert(joined(ws, seq![' ']).len() == joined(p, seq![' ']).len() + 1 + word.len());
        }
    }
}

/// The preview keeps every word of the text, or its last line ends with "…" to show that
/// some were left out.
pub proof fn lemma_preview_keeps_words(text: Seq<char>, width: nat, lines: nat)
    requires
        lines >= 1,
    ensures
        joined(preview_lines(text, width, lines), seq![' ']) == joined(words(text), seq![' ']) || (
        preview_lines(text, width, lines).len() > 0 && preview_lines(text, width, lines).last().last() == '…'),
{
    let flat = joined(words(text), seq![' ']);
    let ws = preview_words(text);
    if words(text).len() == 0 {
        let e = Seq::<char>::empty();
        assert(ws == seq![e]);
        assert(ws.drop_last() =~= Seq::<Seq<char>>::empty());
        assert(ws.last() == e);
        assert(wrap_fold(Seq::<Seq<char>>::empty(), width, lines) == (Seq::<Seq<char>>::empty(), e, false));
        assert(wrap_fold(ws, width, lines) == wrap_step(
            (Seq::<Seq<char>>::empty(), e, false),
            e,
            width,
            lines,
        ));
        assert(e + e =~= e);
        assert(wrap_fold(ws, width, lines) == (Seq::<Seq<char>>::empty(), e, false));
        assert(preview_lines(text, width, lines) =~= Seq::<Seq<char>>::empty());
    } else {
        lemma_words_nonempty(text);
        lemma_wrap_fold_keeps(ws, width, lines);
        lemma_wrap_fold_count(ws, width, lines);
        let (out0, cur, stopped) = wrap_fold(ws, width, lines);
        let out = if out0.len() < lines && cur.len() > 0 { out0.push(cur) } else { out0 };
        if !stopped {
            assert(out == out0.push(cur));
            lemma_lines_size_joined(out);
        } else {
            assert(out == out0);
            lemma_lines_size_joined(out);
        }
        if lines_size(out) < flat.len() + 1 && out.len() > 0 {
            let keep = if width > 0 { (width - 1) as nat } else { 0 };
            let last = out.last();
            let cut = last.take(if keep < last.len() { keep as int } else { last.len() as int }) + seq!['…'];
            assert(preview_lines(text, width, lines) == out.update(out.len() - 1, cut));
            assert(cut.last() == '…');
        } else {
            assert(preview_lines(text, width, lines) == out);
        }
    }
}

} // verus!
