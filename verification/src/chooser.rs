//! The chooser that the hotkey opens: a list of targets, the selection, the "force" switch, and
//! the choice it hands to the resident loop. Drawing and windowing stay with the platform; this
//! is the state the panel keeps and the rules by which keys and clicks change it.
use vstd::prelude::*;
use vstd::arithmetic::div_mod::lemma_mod_multiples_vanish;
use crate::clipboard::linux::first_of;
use crate::convert::{
    already_satisfied, convert_for, convert_for_items, convert_result, first_source, items_view, lossy_opt, preference,
    read_of, read_source, skip_reason, source_markdown, source_raw_text, source_view, target_title, ClipboardReads,
    Flavor, Source, Target,
};
use crate::config::{hidden_in, hidden_text, lemma_hidden_round_trip};
use crate::daemon::{bytes_view, flavor_names, joined, labels, reads_text, reads_text_is_md};
use crate::text::{chars_of, push_chars, string_of};

verus! {

/// Every target, in the order the chooser lists them.
pub open spec fn all_targets() -> Seq<Target> {
    seq![Target::Rich, Target::Md, Target::Plain, Target::Html, Target::Text]
}

/// The targets of `ts` that `hidden` does not name, in order.
pub open spec fn kept_of(ts: Seq<Target>, hidden: Seq<Target>) -> Seq<Target>
    decreases ts.len(),
{
    if ts.len() == 0 {
        seq![]
    } else {
        let rest = kept_of(ts.drop_last(), hidden);
        if hidden.contains(ts.last()) {
            rest
        } else {
            rest.push(ts.last())
        }
    }
}

/// The rows shown when `hidden` is the saved list: every target it does not name, or all of
/// them when it names every one.
pub open spec fn shown_rows(hidden: Seq<Target>) -> Seq<Target> {
    let kept = kept_of(all_targets(), hidden);
    if kept.len() == 0 {
        all_targets()
    } else {
        kept
    }
}

/// What the chooser hands back: the target, whether to convert even when the clipboard already
/// holds it, and the app that had focus when the chooser opened.
pub struct Choice {
    pub target: Target,
    pub force: bool,
    pub app_id: Option<String>,
}

/// A choice as a value.
pub struct ChoiceModel {
    pub target: Target,
    pub force: bool,
    pub app_id: Option<Seq<char>>,
}

pub open spec fn app_view(a: Option<String>) -> Option<Seq<char>> {
    match a {
        Some(s) => Some(s@),
        None => None,
    }
}

impl View for Choice {
    type V = ChoiceModel;

    open spec fn view(&self) -> ChoiceModel {
        ChoiceModel { target: self.target, force: self.force, app_id: app_view(self.app_id) }
    }
}

/// The chooser's state as a value.
pub struct ChooserModel {
    pub rows: Seq<Target>,
    pub selected: usize,
    pub hover: Option<usize>,
    pub force_checked: bool,
    pub option_held: bool,
    pub open: bool,
    pub app_id: Option<Seq<char>>,
    pub choice: Option<ChoiceModel>,
}

/// The chooser panel's state.
pub struct ChooserView {
    rows: Vec<Target>,
    selected: usize,
    hover: Option<usize>,
    force_checked: bool,
    option_held: bool,
    open: bool,
    app_id: Option<String>,
    choice: Option<Choice>,
}

pub open spec fn choice_view(c: Option<Choice>) -> Option<ChoiceModel> {
    match c {
        Some(x) => Some(x@),
        None => None,
    }
}

impl View for ChooserView {
    type V = ChooserModel;

    closed spec fn view(&self) -> ChooserModel {
        ChooserModel {
            rows: self.rows@,
            selected: self.selected,
            hover: self.hover,
            force_checked: self.force_checked,
            option_held: self.option_held,
            open: self.open,
            app_id: app_view(self.app_id),
            choice: choice_view(self.choice),
        }
    }
}

/// The selection and the hovered row point at rows, and there are never more rows than targets.
pub open spec fn chooser_wf(m: ChooserModel) -> bool {
    &&& m.rows.len() <= 5
    &&& (m.rows.len() == 0 ==> m.selected == 0)
    &&& (m.rows.len() > 0 ==> m.selected < m.rows.len())
    &&& (m.hover matches Some(h) ==> h < m.rows.len())
}

/// Whether a choice made now converts even an already satisfied clipboard.
pub open spec fn force_spec(m: ChooserModel) -> bool {
    m.force_checked || m.option_held
}

/// `load_rows`: the rows for the saved list `hidden`, the selection kept where it still fits.
pub open spec fn load_spec(m: ChooserModel, hidden: Seq<Target>) -> ChooserModel {
    let rows = shown_rows(hidden);
    ChooserModel {
        rows: rows,
        selected: if m.selected < rows.len() { m.selected } else { (rows.len() - 1) as usize },
        hover: None,
        ..m
    }
}

/// `show`: fresh rows, the force switch off, the panel open, and the app that had focus noted.
pub open spec fn show_spec(m: ChooserModel, hidden: Seq<Target>, app_id: Option<Seq<char>>) -> ChooserModel {
    ChooserModel {
        force_checked: false,
        option_held: false,
        open: true,
        app_id: app_id,
        ..load_spec(m, hidden)
    }
}

/// `move_selection`: the selection moved by `delta` rows, wrapping around at either end.
pub open spec fn move_spec(m: ChooserModel, delta: int) -> ChooserModel {
    if m.rows.len() == 0 {
        m
    } else {
        ChooserModel {
            selected: ((m.selected + delta) % (m.rows.len() as int)) as usize,
            hover: None,
            ..m
        }
    }
}

/// `choose`: row `i`, if there is one, becomes the choice and the panel closes.
pub open spec fn choose_spec(m: ChooserModel, i: int) -> ChooserModel {
    if 0 <= i < m.rows.len() {
        ChooserModel {
            choice: Some(ChoiceModel { target: m.rows[i], force: force_spec(m), app_id: m.app_id }),
            open: false,
            ..m
        }
    } else {
        m
    }
}

/// `hide_row`: row `i` leaves the list unless it is the last one.
pub open spec fn hide_spec(m: ChooserModel, i: int) -> ChooserModel {
    if m.rows.len() <= 1 {
        m
    } else {
        let rows = m.rows.remove(i);
        ChooserModel {
            rows: rows,
            selected: if m.selected < rows.len() { m.selected } else { (rows.len() - 1) as usize },
            hover: None,
            ..m
        }
    }
}

/// The force switch after the option key went down (`held`) or up.
pub open spec fn flags_spec(m: ChooserModel, held: bool) -> ChooserModel {
    if held && !m.option_held {
        ChooserModel { option_held: true, force_checked: true, ..m }
    } else if !held && m.option_held {
        ChooserModel { option_held: false, force_checked: false, ..m }
    } else {
        m
    }
}

/// The ASCII digit `c` stands for, if it is one.
pub open spec fn digit_of(c: char) -> Option<int> {
    if '0' <= c && c <= '9' {
        Some(c as int - '0' as int)
    } else {
        None
    }
}

/// What a key press does. Escape closes, return and enter choose the selection, the arrows move
/// it, command-R shows every row again, a digit chooses that row, the space bar flips the force
/// switch.
pub open spec fn key_spec(m: ChooserModel, code: u16, chars: Seq<char>, cmd: bool) -> ChooserModel {
    if code == 53 {
        ChooserModel { open: false, ..m }
    } else if code == 36 || code == 76 {
        choose_spec(m, m.selected as int)
    } else if code == 126 {
        move_spec(m, -1)
    } else if code == 125 {
        move_spec(m, 1)
    } else if cmd && chars == "r"@ {
        load_spec(m, seq![])
    } else if chars.len() > 0 && digit_of(chars[0]) is Some {
        let d = digit_of(chars[0])->0;
        if 1 <= d <= m.rows.len() {
            choose_spec(m, d - 1)
        } else {
            m
        }
    } else if chars == " "@ {
        ChooserModel { force_checked: !m.force_checked, ..m }
    } else {
        m
    }
}

/// The list that a key press asks to save: none hidden, after command-R.
pub open spec fn key_saves(code: u16, chars: Seq<char>, cmd: bool) -> bool {
    code != 53 && code != 36 && code != 76 && code != 126 && code != 125 && cmd && chars == "r"@
}

/// What the preview's title calls the flavor that `t` shows.
pub open spec fn preview_flavor(t: Target) -> Seq<char> {
    match t {
        Target::Rich => "as rich apps see it"@,
        Target::Md | Target::Plain | Target::Html => "text flavor"@,
        Target::Text => "plain text only"@,
    }
}

/// The preview's title for the state `m`.
pub open spec fn preview_title_spec(m: ChooserModel) -> Seq<char> {
    if m.selected < m.rows.len() {
        "Preview — "@ + target_title(m.rows[m.selected as int]) + " ("@ + preview_flavor(
            m.rows[m.selected as int],
        ) + ")"@
    } else {
        "Preview"@
    }
}

/// The line under the preview that tells what is on the clipboard.
pub open spec fn clipboard_status_spec(present: Seq<Flavor>) -> Seq<char> {
    if present.len() == 0 {
        "clipboard: empty"@
    } else {
        "clipboard: "@ + joined(labels(present), ", "@)
    }
}

/// The line under the preview for a clipboard holding the flavors `present`.
pub fn clipboard_status(present: &[Flavor]) -> (s: String)
    ensures
        s@ == clipboard_status_spec(present@),
{
    if present.len() == 0 {
        String::from_str("clipboard: empty")
    } else {
        let mut s = String::from_str("clipboard: ");
        s.append(flavor_names(present).as_str());
        s
    }
}

/// What the preview's title calls the flavor that `t` shows.
pub fn preview_flavor_label(t: Target) -> (s: &'static str)
    ensures
        s@ == preview_flavor(t),
{
    match t {
        Target::Rich => "as rich apps see it",
        Target::Md | Target::Plain | Target::Html => "text flavor",
        Target::Text => "plain text only",
    }
}

/// Whether `hidden` names `t`.
fn names(hidden: &[Target], t: Target) -> (b: bool)
    ensures
        b == hidden@.contains(t),
{
    let mut i: usize = 0;
    while i < hidden.len()
        invariant
            i <= hidden.len(),
            forall|j: int| 0 <= j < i ==> hidden@[j] != t,
        decreases hidden.len() - i,
    {
        if hidden[i] == t {
            return true;
        }
        i += 1;
    }
    false
}

/// The rows shown when `hidden` is the saved list.
pub fn rows_for(hidden: &[Target]) -> (rows: Vec<Target>)
    ensures
        rows@ == shown_rows(hidden@),
{
    let all = Target::ALL;
    assert(all@ =~= all_targets());
    let mut rows: Vec<Target> = Vec::new();
    let mut i: usize = 0;
    while i < 5
        invariant
            i <= 5,
            all@ == all_targets(),
            rows@ == kept_of(all_targets().take(i as int), hidden@),
        decreases 5 - i,
    {
        let t = all[i];
        proof {
            assert(all_targets().take(i + 1).drop_last() =~= all_targets().take(i as int));
        }
        if !names(hidden, t) {
            rows.push(t);
        }
        i += 1;
    }
    assert(all_targets().take(5) =~= all_targets());
    if rows.len() == 0 {
        let mut every: Vec<Target> = Vec::new();
        every.push(Target::Rich);
        every.push(Target::Md);
        every.push(Target::Plain);
        every.push(Target::Html);
        every.push(Target::Text);
        assert(every@ =~= all_targets());
        every
    } else {
        rows
    }
}

/// The kept rows are never more than the targets they are taken from.
pub proof fn lemma_kept_len(ts: Seq<Target>, hidden: Seq<Target>)
    ensures
        kept_of(ts, hidden).len() <= ts.len(),
    decreases ts.len(),
{
    if ts.len() > 0 {
        lemma_kept_len(ts.drop_last(), hidden);
    }
}

/// A target is kept exactly when it is one of `ts` and `hidden` does not name it.
pub proof fn lemma_kept_contains(ts: Seq<Target>, hidden: Seq<Target>, t: Target)
    ensures
        kept_of(ts, hidden).contains(t) <==> (ts.contains(t) && !hidden.contains(t)),
    decreases ts.len(),
{
    if ts.len() > 0 {
        lemma_kept_contains(ts.drop_last(), hidden, t);
        let rest = kept_of(ts.drop_last(), hidden);
        if ts.contains(t) && !hidden.contains(t) {
            let k = choose|k: int| 0 <= k < ts.len() && ts[k] == t;
            if k < ts.len() - 1 {
                assert(ts.drop_last()[k] == t);
            }
        }
        if ts.drop_last().contains(t) {
            let k = choose|k: int| 0 <= k < ts.drop_last().len() && ts.drop_last()[k] == t;
            assert(ts[k] == t);
        }
        if !hidden.contains(ts.last()) {
            assert(rest.push(ts.last()).last() == ts.last());
            if rest.push(ts.last()).contains(t) && t != ts.last() {
                let k = choose|k: int| 0 <= k < rest.push(ts.last()).len() && rest.push(ts.last())[k] == t;
                assert(rest[k] == t);
            }
            if rest.contains(t) {
                let k = choose|k: int| 0 <= k < rest.len() && rest[k] == t;
                assert(rest.push(ts.last())[k] == t);
            }
        }
    }
}

/// The chooser always has a row: with every target hidden it shows them all again. Otherwise
/// it shows exactly the targets that the saved list does not name.
pub proof fn lemma_chooser_never_empty(hidden: Seq<Target>)
    ensures
        1 <= shown_rows(hidden).len() <= 5,
        kept_of(all_targets(), hidden).len() > 0 ==> forall|t: Target|
            shown_rows(hidden).contains(t) <==> !hidden.contains(t),
{
    lemma_kept_len(all_targets(), hidden);
    assert forall|t: Target| all_targets().contains(t) by {
        match t {
            Target::Rich => assert(all_targets()[0] == t),
            Target::Md => assert(all_targets()[1] == t),
            Target::Plain => assert(all_targets()[2] == t),
            Target::Html => assert(all_targets()[3] == t),
            Target::Text => assert(all_targets()[4] == t),
        }
    }
    assert forall|t: Target| kept_of(all_targets(), hidden).contains(t) <==> !hidden.contains(t) by {
        lemma_kept_contains(all_targets(), hidden, t);
    }
}

/// Hiding a row never leaves the chooser without one, and keeps the state well formed.
pub proof fn lemma_hide_keeps_a_row(m: ChooserModel, i: int)
    requires
        chooser_wf(m),
        m.rows.len() >= 1,
        m.rows.len() > 1 ==> 0 <= i < m.rows.len(),
    ensures
        hide_spec(m, i).rows.len() >= 1,
        chooser_wf(hide_spec(m, i)),
{
}

/// Moving the selection down one row and back up returns to the same row.
pub proof fn lemma_move_round_trip(m: ChooserModel)
    requires
        chooser_wf(m),
    ensures
        move_spec(move_spec(m, 1), -1).selected == m.selected,
{
    if m.rows.len() > 0 {
        let n = m.rows.len() as int;
        let s = m.selected as int;
        if s + 1 < n {
            assert((s + 1) % n == s + 1) by (nonlinear_arith)
                requires
                    0 <= s + 1 < n,
            ;
            assert((s + 1 - 1) % n == s) by (nonlinear_arith)
                requires
                    0 <= s < n,
            ;
        } else {
            assert((s + 1) % n == 0) by (nonlinear_arith)
                requires
                    s + 1 == n,
                    n > 0,
            ;
            assert((0 - 1) % n == n - 1) by (nonlinear_arith)
                requires
                    n > 0,
            ;
        }
    }
}

/// Restoring the rows lists every target.
pub proof fn lemma_restore_lists_all(m: ChooserModel)
    ensures
        load_spec(m, seq![]).rows == all_targets(),
{
    assert forall|t: Target| !seq![].contains(t) by {}
    assert(kept_of(all_targets(), seq![]) =~= all_targets()) by {
        let h = Seq::<Target>::empty();
        assert(kept_of(all_targets().take(0), h) =~= all_targets().take(0));
        assert(kept_of(all_targets().take(1), h) =~= all_targets().take(1)) by {
            assert(all_targets().take(1).drop_last() =~= all_targets().take(0));
        }
        assert(kept_of(all_targets().take(2), h) =~= all_targets().take(2)) by {
            assert(all_targets().take(2).drop_last() =~= all_targets().take(1));
        }
        assert(kept_of(all_targets().take(3), h) =~= all_targets().take(3)) by {
            assert(all_targets().take(3).drop_last() =~= all_targets().take(2));
        }
        assert(kept_of(all_targets().take(4), h) =~= all_targets().take(4)) by {
            assert(all_targets().take(4).drop_last() =~= all_targets().take(3));
        }
        assert(all_targets().take(5) =~= all_targets());
        assert(all_targets().drop_last() =~= all_targets().take(4));
    }
}

/// Return or enter chooses the selected row, with the force switch as it stands, and closes the
/// panel.
pub proof fn lemma_enter_chooses_selection(m: ChooserModel)
    requires
        chooser_wf(m),
        m.rows.len() > 0,
    ensures
        key_spec(m, 36, seq![], false).choice == Some(
            ChoiceModel { target: m.rows[m.selected as int], force: force_spec(m), app_id: m.app_id },
        ),
        !key_spec(m, 36, seq![], false).open,
{
}

/// Kept targets of a list without repeats come without repeats.
proof fn lemma_kept_distinct(ts: Seq<Target>, hidden: Seq<Target>)
    requires
        ts.no_duplicates(),
    ensures
        kept_of(ts, hidden).no_duplicates(),
    decreases ts.len(),
{
    if ts.len() > 0 {
        let prev = ts.drop_last();
        assert(prev.no_duplicates()) by {
            assert forall|i: int, j: int| 0 <= i < prev.len() && 0 <= j < prev.len() && i != j implies prev[i]
                != prev[j] by {
                assert(prev[i] == ts[i] && prev[j] == ts[j]);
            }
        }
        lemma_kept_distinct(prev, hidden);
        lemma_kept_contains(prev, hidden, ts.last());
        if prev.contains(ts.last()) {
            let k = choose|k: int| 0 <= k < prev.len() && prev[k] == ts.last();
            assert(ts[k] == ts[ts.len() - 1]);
        }
    }
}

/// A row hidden with a right-click stays hidden: the saved list, written to the settings file
/// and read back, shows the same rows, and the hidden target is not among them, as long as the
/// list did not already hide every target.
pub proof fn lemma_hidden_row_stays_hidden(m: ChooserModel, i: int, hidden: Seq<Target>)
    requires
        m.rows == shown_rows(hidden),
        kept_of(all_targets(), hidden).len() > 0,
        m.rows.len() > 1,
        0 <= i < m.rows.len(),
    ensures
        shown_rows(hidden_in(hidden_text(hidden.push(m.rows[i])))) == shown_rows(hidden.push(m.rows[i])),
        !shown_rows(hidden.push(m.rows[i])).contains(m.rows[i]),
        hide_spec(m, i).rows == m.rows.remove(i),
{
    let t = m.rows[i];
    let h2 = hidden.push(t);
    lemma_hidden_round_trip(h2);
    let kept = kept_of(all_targets(), hidden);
    assert(all_targets().no_duplicates()) by {
        assert forall|a: int, b: int| 0 <= a < 5 && 0 <= b < 5 && a != b implies all_targets()[a]
            != all_targets()[b] by {}
    }
    lemma_kept_distinct(all_targets(), hidden);
    let u = if kept[0] != t { kept[0] } else { kept[1] };
    assert(kept.contains(u)) by {
        if kept[0] != t {
            assert(kept[0] == u);
        } else {
            assert(kept[1] == u);
        }
    }
    assert(u != t);
    lemma_kept_contains(all_targets(), hidden, u);
    lemma_kept_contains(all_targets(), h2, u);
    assert(!h2.contains(u)) by {
        if h2.contains(u) {
            let k = choose|k: int| 0 <= k < h2.len() && h2[k] == u;
            if k < hidden.len() {
                assert(hidden[k] == u);
            }
        }
    }
    lemma_kept_contains(all_targets(), h2, t);
    assert(h2[hidden.len() as int] == t);
}

impl ChooserView {
    /// A closed chooser with no rows yet.
    pub fn new() -> (c: ChooserView)
        ensures
            c@.rows.len() == 0,
            c@.selected == 0,
            c@.hover is None,
            !c@.force_checked,
            !c@.option_held,
            !c@.open,
            c@.app_id is None,
            c@.choice is None,
            chooser_wf(c@),
    {
        let c = ChooserView {
            rows: Vec::new(),
            selected: 0,
            hover: None,
            force_checked: false,
            option_held: false,
            open: false,
            app_id: None,
            choice: None,
        };
        assert(c@.rows =~= Seq::<Target>::empty());
        c
    }

    /// Lists every target that the saved list `hidden` does not name (all of them if it names
    /// every one), keeps the selection where it still fits, and forgets the hovered row.
    pub fn load_rows(&mut self, hidden: &[Target])
        requires
            chooser_wf(old(self)@),
        ensures
            final(self)@ == load_spec(old(self)@, hidden@),
            chooser_wf(final(self)@),
    {
        let rows = rows_for(hidden);
        proof {
            lemma_kept_len(all_targets(), hidden@);
        }
        if self.selected >= rows.len() {
            self.selected = rows.len() - 1;
        }
        self.rows = rows;
        self.hover = None;
    }

    /// Opens the chooser for the app `app_id`: fresh rows, the force switch off.
    pub fn show(&mut self, hidden: &[Target], app_id: Option<String>)
        requires
            chooser_wf(old(self)@),
        ensures
            final(self)@ == show_spec(old(self)@, hidden@, app_view(app_id)),
            chooser_wf(final(self)@),
    {
        self.load_rows(hidden);
        self.option_held = false;
        self.force_checked = false;
        self.open = true;
        self.app_id = app_id;
    }

    /// Moves the selection by `delta` rows, wrapping around; nothing happens without rows.
    pub fn move_selection(&mut self, delta: i32)
        requires
            chooser_wf(old(self)@),
        ensures
            final(self)@ == move_spec(old(self)@, delta as int),
            chooser_wf(final(self)@),
    {
        let n = self.rows.len();
        if n == 0 {
            return;
        }
        let s = self.selected as u64;
        let nn = n as u64;
        let r: u64 = if delta >= 0 {
            (s + delta as u64) % nn
        } else {
            let e: u64 = (0i64 - delta as i64) as u64;
            assert(nn * e >= e) by (nonlinear_arith)
                requires
                    nn >= 1,
            ;
            assert(nn * e <= 5 * 0x8000_0000) by (nonlinear_arith)
                requires
                    nn <= 5,
                    e <= 0x8000_0000,
            ;
            proof {
                lemma_mod_multiples_vanish(e as int, s - e, nn as int);
                assert(nn * e + (s - e) == s + nn * e - e);
            }
            (s + nn * e - e) % nn
        };
        self.selected = r as usize;
        self.hover = None;
    }

    /// Whether a choice made now converts even an already satisfied clipboard.
    pub fn force(&self) -> (b: bool)
        ensures
            b == force_spec(self@),
    {
        self.force_checked || self.option_held
    }

    /// Chooses row `i`: it becomes the choice and the panel closes. Nothing happens when there
    /// is no such row.
    pub fn choose_row(&mut self, i: usize)
        requires
            chooser_wf(old(self)@),
        ensures
            final(self)@ == choose_spec(old(self)@, i as int),
            chooser_wf(final(self)@),
    {
        if i >= self.rows.len() {
            return;
        }
        let force = self.force();
        let app_id = match &self.app_id {
            Some(a) => Some(a.clone()),
            None => None,
        };
        self.choice = Some(Choice { target: self.rows[i], force: force, app_id: app_id });
        self.open = false;
    }

    /// Hides row `i` and adds its target to `hidden`, the saved list, which it returns to be
    /// saved. The last row stays: then nothing changes and there is nothing to save.
    pub fn hide_row(&mut self, i: usize, hidden: Vec<Target>) -> (saved: Option<Vec<Target>>)
        requires
            chooser_wf(old(self)@),
            old(self)@.rows.len() > 1 ==> i < old(self)@.rows.len(),
        ensures
            final(self)@ == hide_spec(old(self)@, i as int),
            chooser_wf(final(self)@),
            old(self)@.rows.len() <= 1 ==> saved is None,
            old(self)@.rows.len() > 1 ==> (saved matches Some(h) && h@ == hidden@.push(old(self)@.rows[i as int])),
    {
        if self.rows.len() <= 1 {
            return None;
        }
        let t = self.rows.remove(i);
        let mut hidden = hidden;
        hidden.push(t);
        if self.selected >= self.rows.len() {
            self.selected = self.rows.len() - 1;
        }
        self.hover = None;
        Some(hidden)
    }

    /// Shows every row again; the saved list to write is then empty.
    pub fn restore_rows(&mut self) -> (saved: Vec<Target>)
        requires
            chooser_wf(old(self)@),
        ensures
            final(self)@ == load_spec(old(self)@, seq![]),
            chooser_wf(final(self)@),
            saved@.len() == 0,
    {
        let none: Vec<Target> = Vec::new();
        self.load_rows(none.as_slice());
        none
    }

    /// The option key went down (`held`) or up: a fresh press turns the force switch on, letting
    /// go turns it off.
    pub fn flags_changed(&mut self, held: bool)
        ensures
            final(self)@ == flags_spec(old(self)@, held),
    {
        if held && !self.option_held {
            self.option_held = true;
            self.force_checked = true;
        } else if !held && self.option_held {
            self.option_held = false;
            self.force_checked = false;
        }
    }

    /// The pointer is over row `hit` (or over no row): it is hovered, and selected when it is a
    /// row. Returns whether the hovered row changed.
    pub fn mouse_moved(&mut self, hit: Option<usize>) -> (changed: bool)
        requires
            chooser_wf(old(self)@),
            hit matches Some(i) ==> i < old(self)@.rows.len(),
        ensures
            changed == (old(self)@.hover != hit),
            final(self)@ == (ChooserModel {
                hover: hit,
                selected: match hit {
                    Some(i) => i,
                    None => old(self)@.selected,
                },
                ..old(self)@
            }),
            chooser_wf(final(self)@),
    {
        let changed = self.hover != hit;
        self.hover = hit;
        if let Some(i) = hit {
            self.selected = i;
        }
        changed
    }

    /// The pointer left the panel.
    pub fn mouse_exited(&mut self)
        requires
            chooser_wf(old(self)@),
        ensures
            final(self)@ == (ChooserModel { hover: None, ..old(self)@ }),
            chooser_wf(final(self)@),
    {
        self.hover = None;
    }

    /// A key press; returns the saved list to write when the press asks for one.
    pub fn key_down(&mut self, code: u16, chars: &str, cmd: bool) -> (saved: Option<Vec<Target>>)
        requires
            chooser_wf(old(self)@),
        ensures
            final(self)@ == key_spec(old(self)@, code, chars@, cmd),
            chooser_wf(final(self)@),
            key_saves(code, chars@, cmd) ==> (saved matches Some(h) && h@.len() == 0),
            !key_saves(code, chars@, cmd) ==> saved is None,
    {
        let c = chars_of(chars);
        proof {
            reveal_strlit("r");
            reveal_strlit(" ");
        }
        let is_r = c.len() == 1 && c[0] == 'r';
        let is_space = c.len() == 1 && c[0] == ' ';
        proof {
            if is_r {
                assert(c@ =~= "r"@);
            }
            if c@ == "r"@ {
                assert(c@[0] == 'r');
            }
            if is_space {
                assert(c@ =~= " "@);
            }
            if c@ == " "@ {
                assert(c@[0] == ' ');
            }
        }
        if code == 53 {
            self.close_panel();
            None
        } else if code == 36 || code == 76 {
            let i = self.selected;
            self.choose_row(i);
            None
        } else if code == 126 {
            self.move_selection(-1);
            None
        } else if code == 125 {
            self.move_selection(1);
            None
        } else if cmd && is_r {
            Some(self.restore_rows())
        } else if c.len() > 0 && '0' <= c[0] && c[0] <= '9' {
            let d = (c[0] as u32 - '0' as u32) as usize;
            assert(digit_of(c@[0]) == Some(d as int));
            if d >= 1 && d <= self.rows.len() {
                self.choose_row(d - 1);
            }
            None
        } else if is_space {
            self.force_checked = !self.force_checked;
            None
        } else {
            None
        }
    }

    /// Hands over the choice made, if any, and forgets it.
    pub fn take_choice(&mut self) -> (c: Option<Choice>)
        ensures
            choice_view(c) == old(self)@.choice,
            final(self)@ == (ChooserModel { choice: None, ..old(self)@ }),
    {
        self.choice.take()
    }

    /// Whether the panel is showing.
    pub fn is_open(&self) -> (b: bool)
        ensures
            b == self@.open,
    {
        self.open
    }

    /// Hides the panel.
    pub fn close_panel(&mut self)
        ensures
            final(self)@ == (ChooserModel { open: false, ..old(self)@ }),
    {
        self.open = false;
    }

    /// The title above the preview: the selected row and the flavor it shows.
    pub fn preview_title(&self) -> (s: String)
        ensures
            s@ == preview_title_spec(self@),
    {
        if self.selected < self.rows.len() {
            let t = self.rows[self.selected];
            let mut out = chars_of("Preview — ");
            let title = chars_of(t.title());
            push_chars(&mut out, title.as_slice());
            let open = chars_of(" (");
            push_chars(&mut out, open.as_slice());
            let label = chars_of(preview_flavor_label(t));
            push_chars(&mut out, label.as_slice());
            let close = chars_of(")");
            push_chars(&mut out, close.as_slice());
            string_of(&out)
        } else {
            String::from_str("Preview")
        }
    }
}


// ---------------------------------------------------------------- the preview

/// A source whose text is `v`.
pub open spec fn source_for(v: (bool, Seq<char>)) -> Source {
    choose|s: Source| source_view(Some(s)) == Some(v)
}

/// Two sources with the same text convert alike.
pub proof fn lemma_same_text_same_conversion(a: Source, b: Source, t: Target, rtf_only: bool)
    requires
        source_view(Some(a)) == source_view(Some(b)),
    ensures
        convert_result(a, t) == convert_result(b, t),
        convert_for_items(a, t, rtf_only) == convert_for_items(b, t, rtf_only),
{
    assert(source_markdown(a) == source_markdown(b));
    assert(source_raw_text(a) == source_raw_text(b));
}

/// What the preview shows: the rich text of `rtf` or else of `html` where the platform can
/// render one, otherwise `text`, greyed out when `muted`.
pub struct Preview {
    pub rtf: Option<Vec<u8>>,
    pub html: Option<Vec<u8>>,
    pub text: String,
    pub muted: bool,
}

/// A preview as a value.
pub struct PreviewModel {
    pub rtf: Option<Seq<u8>>,
    pub html: Option<Seq<u8>>,
    pub text: Seq<char>,
    pub muted: bool,
}

impl View for Preview {
    type V = PreviewModel;

    open spec fn view(&self) -> PreviewModel {
        PreviewModel { rtf: bytes_view(self.rtf), html: bytes_view(self.html), text: self.text@, muted: self.muted }
    }
}

/// The preview of target `t` on a clipboard holding the flavors `present` whose bytes are
/// `reads`. When the clipboard already holds the target, what is there (its rich flavors for
/// `rich`, its text otherwise), or the reason greyed out. Else the conversion's result, with
/// its rich flavors for `rich`; or a greyed-out note that nothing is usable.
pub open spec fn preview_spec(t: Target, present: Seq<Flavor>, reads: ClipboardReads) -> PreviewModel {
    match skip_reason(t, present, reads_text(reads), lossy_opt(reads.md)) {
        Some(reason) => if t == Target::Rich {
            PreviewModel {
                rtf: read_of(reads, Flavor::Rtf),
                html: read_of(reads, Flavor::Html),
                text: "Unchanged: "@ + reason,
                muted: true,
            }
        } else {
            match read_of(reads, Flavor::Text) {
                Some(b) => PreviewModel { rtf: None, html: None, text: crate::text::lossy_text(b), muted: false },
                None => PreviewModel { rtf: None, html: None, text: "Unchanged: "@ + reason, muted: true },
            }
        },
        None => match first_source(preference(t, reads_text_is_md(reads)), reads) {
            None => PreviewModel { rtf: None, html: None, text: "Nothing usable on the clipboard"@, muted: true },
            Some(v) => {
                let src = source_for(v);
                let items = convert_for_items(src, t, false);
                if t == Target::Rich {
                    PreviewModel {
                        rtf: first_of(items, Flavor::Rtf),
                        html: first_of(items, Flavor::Html),
                        text: convert_result(src, t),
                        muted: false,
                    }
                } else {
                    PreviewModel { rtf: None, html: None, text: convert_result(src, t), muted: false }
                }
            },
        },
    }
}

fn copy_bytes(b: &Option<Vec<u8>>) -> (c: Option<Vec<u8>>)
    ensures
        bytes_view(c) == bytes_view(*b),
{
    match b {
        Some(v) => Some(v.clone()),
        None => None,
    }
}

/// The bytes of the first item of flavor `f`.
fn first_item(items: &Vec<(Flavor, Vec<u8>)>, f: Flavor) -> (r: Option<Vec<u8>>)
    ensures
        bytes_view(r) == first_of(items_view(items@), f),
{
    let ghost iv = items_view(items@);
    let mut i: usize = 0;
    assert(iv.skip(0) =~= iv);
    while i < items.len()
        invariant
            i <= items.len(),
            iv == items_view(items@),
            first_of(iv, f) == first_of(iv.skip(i as int), f),
        decreases items.len() - i,
    {
        proof {
            assert(iv.skip(i as int).drop_first() =~= iv.skip(i + 1));
            assert(iv.skip(i as int)[0] == (items@[i as int].0, items@[i as int].1@));
        }
        if items[i].0 == f {
            return Some(items[i].1.clone());
        }
        i += 1;
    }
    assert(iv.skip(i as int) =~= Seq::<(Flavor, Seq<u8>)>::empty());
    None
}

/// Computes what the preview of target `t` shows, on a clipboard holding the flavors `present`
/// whose bytes are `reads`.
pub fn build_preview(t: Target, present: Vec<Flavor>, reads: &ClipboardReads) -> (p: Preview)
    ensures
        p@ == preview_spec(t, present@, *reads),
{
    let text = copy_bytes(&reads.text);
    let md = copy_bytes(&reads.md);
    if let Some(reason) = already_satisfied(t, present, text, md) {
        let mut note = String::from_str("Unchanged: ");
        note.append(reason.as_str());
        if t == Target::Rich {
            return Preview { rtf: copy_bytes(&reads.rtf), html: copy_bytes(&reads.html), text: note, muted: true };
        }
        return match &reads.text {
            Some(b) => Preview { rtf: None, html: None, text: crate::text::decode_lossy(b.as_slice()), muted: false },
            None => Preview { rtf: None, html: None, text: note, muted: true },
        };
    }
    let order = t.prefer(copy_bytes(&reads.text));
    match read_source(order.as_slice(), reads) {
        None => Preview {
            rtf: None,
            html: None,
            text: String::from_str("Nothing usable on the clipboard"),
            muted: true,
        },
        Some(src) => {
            let out = convert_for(&src, t, false);
            proof {
                let v = source_view(Some(src))->0;
                assert(source_view(Some(source_for(v))) == Some(v));
                lemma_same_text_same_conversion(src, source_for(v), t, false);
            }
            if t == Target::Rich {
                let rtf = first_item(&out.items, Flavor::Rtf);
                let html = first_item(&out.items, Flavor::Html);
                Preview { rtf: rtf, html: html, text: out.result, muted: false }
            } else {
                Preview { rtf: None, html: None, text: out.result, muted: false }
            }
        },
    }
}

} // verus!
