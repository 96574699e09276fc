//! The persistent setting of the chooser: which targets the user hid. One target name per
//! line; lines that name no target are ignored.
use vstd::prelude::*;
use crate::convert::{lemma_parse_name, parse_target, target_name, target_of_chars, Target};
use crate::text::{
    chars_of, drop_space, is_space, lemma_newline_at_bounds, lemma_newline_at_is, line_spans, lines,
    newline_at, push_range, spans_of, skip_space, string_of, trim_end, trim_start,
};

verus! {

/// `s` without whitespace at either end (`str::trim`).
pub open spec fn trim(s: Seq<char>) -> Seq<char> {
    trim_end(trim_start(s))
}

/// The targets named by the lines of `ls`, in order.
pub open spec fn targets_named(ls: Seq<Seq<char>>) -> Seq<Target>
    decreases ls.len(),
{
    if ls.len() == 0 {
        seq![]
    } else {
        let prev = targets_named(ls.drop_last());
        match parse_target(trim(ls.last())) {
            Some(t) => prev.push(t),
            None => prev,
        }
    }
}

/// The hidden targets that the settings text `text` records.
pub open spec fn hidden_in(text: Seq<char>) -> Seq<Target> {
    targets_named(lines(text))
}

/// The settings text recording `ts`: each name on a line of its own.
pub open spec fn hidden_text(ts: Seq<Target>) -> Seq<char>
    decreases ts.len(),
{
    if ts.len() == 0 {
        seq![]
    } else {
        hidden_text(ts.drop_last()) + target_name(ts.last()) + seq!['\n']
    }
}

/// The targets that the settings file's contents `text` hide.
pub fn hidden_targets(text: &str) -> (ts: Vec<Target>)
    ensures
        ts@ == hidden_in(text@),
{
    let c = chars_of(text);
    let spans = line_spans(&c);
    let ghost ls = lines(c@);
    let mut ts: Vec<Target> = Vec::new();
    let mut k: usize = 0;
    while k < spans.len()
        invariant
            ls == lines(c@),
            spans_of(c@, spans@, ls),
            k <= spans.len(),
            ts@ == targets_named(ls.take(k as int)),
        decreases spans.len() - k,
    {
        let (lo, hi) = spans[k];
        proof {
            assert(spans@[k as int].0 <= spans@[k as int].1);
            assert(ls.take(k + 1).drop_last() =~= ls.take(k as int));
            assert(ls.take(k + 1).last() == ls[k as int]);
        }
        let a = skip_space(&c, lo, hi);
        let b = drop_space(&c, a, hi);
        let mut word: Vec<char> = Vec::new();
        push_range(&mut word, &c, a, b);
        proof {
            assert(word@ =~= trim(ls[k as int]));
        }
        if let Some(t) = target_of_chars(&word) {
            ts.push(t);
        }
        k += 1;
    }
    proof {
        assert(ls.take(spans.len() as int) =~= ls);
    }
    ts
}

/// The settings file's contents for the hidden targets `hidden`.
pub fn set_hidden_targets(hidden: &[Target]) -> (text: String)
    ensures
        text@ == hidden_text(hidden@),
{
    let mut out: Vec<char> = Vec::new();
    let mut k: usize = 0;
    while k < hidden.len()
        invariant
            k <= hidden.len(),
            out@ == hidden_text(hidden@.take(k as int)),
        decreases hidden.len() - k,
    {
        let name = chars_of(hidden[k].name());
        push_range(&mut out, &name, 0, name.len());
        out.push('\n');
        proof {
            assert(name@.subrange(0, name.len() as int) =~= name@);
            assert(hidden@.take(k + 1).drop_last() =~= hidden@.take(k as int));
        }
        k += 1;
    }
    assert(hidden@.take(hidden.len() as int) =~= hidden@);
    string_of(&out)
}

/// The lines of `x + y`, where `x` is empty or ends a line, are those of `x` then `y`.
pub proof fn lemma_lines_append(x: Seq<char>, y: Seq<char>)
    requires
        x.len() == 0 || x.last() == '\n',
    ensures
        lines(x + y) == lines(x) + lines(y),
    decreases x.len(),
{
    if x.len() == 0 {
        assert(x + y =~= y);
        assert(lines(x) =~= Seq::<Seq<char>>::empty());
        assert(Seq::<Seq<char>>::empty() + lines(y) =~= lines(y));
    } else {
        lemma_newline_at_bounds(x);
        let i = newline_at(x);
        assert(i < x.len()) by {
            if i >= x.len() {
                assert(x[x.len() - 1] != '\n');
            }
        }
        lemma_newline_at_is(x + y, i);
        assert((x + y).take(i) =~= x.take(i));
        assert((x + y).skip(i + 1) =~= x.skip(i + 1) + y);
        let r = x.skip(i + 1);
        assert(r.len() == 0 || r.last() == '\n');
        lemma_lines_append(r, y);
        assert(lines(x + y) =~= lines(x) + lines(y));
    }
}

/// A line without line breaks and without a trailing `'\r'` reads back as itself.
pub proof fn lemma_one_line(l: Seq<char>)
    requires
        l.len() > 0,
        forall|j: int| 0 <= j < l.len() ==> l[j] != '\n',
        l.last() != '\r',
    ensures
        lines(l + seq!['\n']) == seq![l],
{
    let s = l + seq!['\n'];
    lemma_newline_at_is(s, l.len() as int);
    assert(s.take(l.len() as int) =~= l);
    assert(s.skip(l.len() as int + 1) =~= Seq::<char>::empty());
    assert(lines(Seq::<char>::empty()) =~= Seq::<Seq<char>>::empty());
    assert(seq![l] + Seq::<Seq<char>>::empty() =~= seq![l]);
}

proof fn lemma_name_line(t: Target)
    ensures
        lines(target_name(t) + seq!['\n']) == seq![target_name(t)],
        trim(target_name(t)) == target_name(t),
{
    reveal_strlit("rich");
    reveal_strlit("md");
    reveal_strlit("plain");
    reveal_strlit("html");
    reveal_strlit("text");
    let n = target_name(t);
    assert(n.len() > 0 && !is_space(n[0]) && !is_space(n.last()));
    assert(forall|j: int| 0 <= j < n.len() ==> n[j] != '\n');
    lemma_one_line(n);
    assert(trim_end(n) == n);
}

/// What `set_hidden_targets` writes, `hidden_targets` reads back.
pub proof fn lemma_hidden_round_trip(ts: Seq<Target>)
    ensures
        hidden_in(hidden_text(ts)) == ts,
    decreases ts.len(),
{
    if ts.len() > 0 {
        let prev = ts.drop_last();
        let t = ts.last();
        lemma_hidden_round_trip(prev);
        let x = hidden_text(prev);
        assert(x.len() == 0 || x.last() == '\n');
        lemma_lines_append(x, target_name(t) + seq!['\n']);
        lemma_name_line(t);
        assert(hidden_text(ts) =~= x + (target_name(t) + seq!['\n']));
        let ls = lines(hidden_text(ts));
        assert(ls == lines(x) + seq![target_name(t)]);
        assert(ls.drop_last() =~= lines(x));
        lemma_parse_name(t);
        assert(prev.push(t) =~= ts);
    } else {
        assert(lines(Seq::<char>::empty()) =~= Seq::<Seq<char>>::empty());
    }
}

} // verus!
