//! Character-sequence helpers shared by the converters: lines, trimming, searching.
use vstd::prelude::*;
use vstd::utf8::{decode_utf8, encode_utf8, valid_utf8};

verus! {

// ---------------------------------------------------------------- whitespace

/// The Unicode `White_Space` property, the one that `char::is_whitespace` tests.
pub open spec fn is_space(c: char) -> bool {
    ||| ('\t' <= c && c <= '\r')
    ||| c == ' '
    ||| c == '\u{85}'
    ||| c == '\u{a0}'
    ||| c == '\u{1680}'
    ||| ('\u{2000}' <= c && c <= '\u{200a}')
    ||| c == '\u{2028}'
    ||| c == '\u{2029}'
    ||| c == '\u{202f}'
    ||| c == '\u{205f}'
    ||| c == '\u{3000}'
}

pub fn char_is_space(c: char) -> (b: bool)
    ensures
        b == is_space(c),
{
    ('\t' <= c && c <= '\r') || c == ' ' || c == '\u{85}' || c == '\u{a0}' || c == '\u{1680}' || (
    '\u{2000}' <= c && c <= '\u{200a}') || c == '\u{2028}' || c == '\u{2029}' || c == '\u{202f}'
        || c == '\u{205f}' || c == '\u{3000}'
}

/// `s` without its leading whitespace (`str::trim_start`).
pub open spec fn trim_start(s: Seq<char>) -> Seq<char>
    decreases s.len(),
{
    if s.len() > 0 && is_space(s[0]) {
        trim_start(s.drop_first())
    } else {
        s
    }
}

/// `s` without its trailing whitespace (`str::trim_end`).
pub open spec fn trim_end(s: Seq<char>) -> Seq<char>
    decreases s.len(),
{
    if s.len() > 0 && is_space(s.last()) {
        trim_end(s.drop_last())
    } else {
        s
    }
}

/// The index in `s` where the text left after `trim_start` on `s[lo..hi]` begins.
pub fn skip_space(s: &Vec<char>, lo: usize, hi: usize) -> (i: usize)
    requires
        lo <= hi <= s.len(),
    ensures
        lo <= i <= hi,
        s@.subrange(i as int, hi as int) == trim_start(s@.subrange(lo as int, hi as int)),
{
    let mut i = lo;
    while i < hi && char_is_space(s[i])
        invariant
            lo <= i <= hi <= s.len(),
            trim_start(s@.subrange(lo as int, hi as int)) == trim_start(
                s@.subrange(i as int, hi as int),
            ),
        decreases hi - i,
    {
        assert(s@.subrange(i as int, hi as int).drop_first() =~= s@.subrange(i + 1, hi as int));
        i += 1;
    }
    i
}

/// The index in `s` where the text left after `trim_end` on `s[lo..hi]` ends.
pub fn drop_space(s: &Vec<char>, lo: usize, hi: usize) -> (j: usize)
    requires
        lo <= hi <= s.len(),
    ensures
        lo <= j <= hi,
        s@.subrange(lo as int, j as int) == trim_end(s@.subrange(lo as int, hi as int)),
{
    let mut j = hi;
    while j > lo && char_is_space(s[j - 1])
        invariant
            lo <= j <= hi <= s.len(),
            trim_end(s@.subrange(lo as int, hi as int)) == trim_end(
                s@.subrange(lo as int, j as int),
            ),
        decreases j - lo,
    {
        assert(s@.subrange(lo as int, j as int).drop_last() =~= s@.subrange(lo as int, j - 1));
        j -= 1;
    }
    j
}

// ---------------------------------------------------------------- lines

/// Index of the first `c` in `s`, or `s.len()` when there is none.
pub open spec fn index_of(s: Seq<char>, c: char) -> int
    decreases s.len(),
{
    if s.len() == 0 {
        0
    } else if s[0] == c {
        0
    } else {
        1 + index_of(s.drop_first(), c)
    }
}

/// Index of the first `'\n'` in `s`, or `s.len()` when there is none.
pub open spec fn newline_at(s: Seq<char>) -> int {
    index_of(s, '\n')
}

/// A line without the `'\r'` of a `"\r\n"` ending.
pub open spec fn strip_cr(l: Seq<char>) -> Seq<char> {
    if l.len() > 0 && l.last() == '\r' {
        l.drop_last()
    } else {
        l
    }
}

pub proof fn lemma_index_of_bounds(s: Seq<char>, c: char)
    ensures
        0 <= index_of(s, c) <= s.len(),
        index_of(s, c) < s.len() ==> s[index_of(s, c)] == c,
        forall|j: int| 0 <= j < index_of(s, c) ==> s[j] != c,
    decreases s.len(),
{
    if s.len() > 0 && s[0] != c {
        lemma_index_of_bounds(s.drop_first(), c);
        assert forall|j: int| 0 <= j < index_of(s, c) implies s[j] != c by {
            if j > 0 {
                assert(s[j] == s.drop_first()[j - 1]);
            }
        }
    }
}

pub proof fn lemma_index_of_is(s: Seq<char>, c: char, k: int)
    requires
        0 <= k <= s.len(),
        forall|j: int| 0 <= j < k ==> s[j] != c,
        k < s.len() ==> s[k] == c,
    ensures
        index_of(s, c) == k,
    decreases s.len(),
{
    if s.len() > 0 && k > 0 {
        lemma_index_of_is(s.drop_first(), c, k - 1);
    }
}

pub proof fn lemma_newline_at_bounds(s: Seq<char>)
    ensures
        0 <= newline_at(s) <= s.len(),
        newline_at(s) < s.len() ==> s[newline_at(s)] == '\n',
        forall|j: int| 0 <= j < newline_at(s) ==> s[j] != '\n',
{
    lemma_index_of_bounds(s, '\n');
}

pub proof fn lemma_newline_at_is(s: Seq<char>, k: int)
    requires
        0 <= k <= s.len(),
        forall|j: int| 0 <= j < k ==> s[j] != '\n',
        k < s.len() ==> s[k] == '\n',
    ensures
        newline_at(s) == k,
{
    lemma_index_of_is(s, '\n', k);
}

/// The lines of `s` as `str::lines` yields them: split at `'\n'`, a `'\r'` before the
/// `'\n'` dropped, and no empty last line after a final line ending.
pub open spec fn lines(s: Seq<char>) -> Seq<Seq<char>>
    decreases s.len(),
{
    if s.len() == 0 {
        seq![]
    } else {
        let i = newline_at(s);
        proof {
            lemma_newline_at_bounds(s);
        }
        if i >= s.len() {
            seq![s]
        } else {
            seq![strip_cr(s.take(i))] + lines(s.skip(i + 1))
        }
    }
}

/// `spans` locate the sequences `ls` in `s`.
pub open spec fn spans_of(s: Seq<char>, spans: Seq<(usize, usize)>, ls: Seq<Seq<char>>) -> bool {
    &&& spans.len() == ls.len()
    &&& forall|k: int|
        0 <= k < spans.len() ==> {
            &&& #[trigger] spans[k].0 <= spans[k].1 <= s.len()
            &&& s.subrange(spans[k].0 as int, spans[k].1 as int) == ls[k]
        }
}

pub proof fn lemma_spans_push(s: Seq<char>, spans: Seq<(usize, usize)>, ls: Seq<Seq<char>>, a: usize, b: usize)
    requires
        spans_of(s, spans, ls),
        a <= b <= s.len(),
    ensures
        spans_of(s, spans.push((a, b)), ls.push(s.subrange(a as int, b as int))),
{
    let sp = spans.push((a, b));
    let l2 = ls.push(s.subrange(a as int, b as int));
    assert forall|k: int| 0 <= k < sp.len() implies {
        &&& #[trigger] sp[k].0 <= sp[k].1 <= s.len()
        &&& s.subrange(sp[k].0 as int, sp[k].1 as int) == l2[k]
    } by {
        if k < spans.len() {
            assert(sp[k] == spans[k]);
            assert(spans[k].0 <= spans[k].1 <= s.len());
        }
    }
}

/// Start and end, in `s`, of each line of `s`.
pub fn line_spans(s: &Vec<char>) -> (spans: Vec<(usize, usize)>)
    ensures
        spans_of(s@, spans@, lines(s@)),
{
    let n = s.len();
    let mut spans: Vec<(usize, usize)> = Vec::new();
    let mut start: usize = 0;
    let mut i: usize = 0;
    let ghost mut done: Seq<Seq<char>> = seq![];
    assert(s@.skip(0) =~= s@);
    while i < n
        invariant
            n == s.len(),
            start <= i <= n,
            forall|j: int| start <= j < i ==> s@[j] != '\n',
            lines(s@) == done + lines(s@.skip(start as int)),
            spans_of(s@, spans@, done),
        decreases n - i,
    {
        if s[i] == '\n' {
            let mut end = i;
            if end > start && s[end - 1] == '\r' {
                end = end - 1;
            }
            proof {
                let t = s@.skip(start as int);
                lemma_newline_at_is(t, i - start);
                assert(t.take(i - start) =~= s@.subrange(start as int, i as int));
                assert(t.skip(i - start + 1) =~= s@.skip(i + 1));
                assert(strip_cr(s@.subrange(start as int, i as int)) =~= s@.subrange(
                    start as int,
                    end as int,
                ));
                lemma_spans_push(s@, spans@, done, start, end);
                done = done.push(s@.subrange(start as int, end as int));
            }
            spans.push((start, end));
            start = i + 1;
        }
        i += 1;
    }
    if start < n {
        proof {
            let t = s@.skip(start as int);
            lemma_newline_at_is(t, t.len() as int);
            assert(t =~= s@.subrange(start as int, n as int));
            lemma_spans_push(s@, spans@, done, start, n);
            done = done.push(t);
        }
        spans.push((start, n));
    }
    proof {
        if start >= n {
            assert(s@.skip(start as int) =~= Seq::<char>::empty());
        } else {
            assert(lines(s@.skip(n as int)) =~= Seq::<Seq<char>>::empty()) by {
                assert(s@.skip(n as int) =~= Seq::<char>::empty());
            }
        }
        assert(done + Seq::<Seq<char>>::empty() =~= done);
    }
    spans
}

// ---------------------------------------------------------------- searching

pub open spec fn starts_with(s: Seq<char>, p: Seq<char>) -> bool {
    p.len() <= s.len() && s.take(p.len() as int) == p
}

/// `p` occurs in `s` at index `i`.
pub open spec fn occurs_at(s: Seq<char>, i: int, p: Seq<char>) -> bool {
    0 <= i && i + p.len() <= s.len() && s.subrange(i, i + p.len()) == p
}

pub open spec fn contains_seq(s: Seq<char>, p: Seq<char>) -> bool {
    exists|i: int| occurs_at(s, i, p)
}

/// `s[i..hi]` starts with `p`.
pub fn matches_at(s: &Vec<char>, i: usize, hi: usize, p: &[char]) -> (b: bool)
    requires
        i <= hi <= s.len(),
    ensures
        b == starts_with(s@.subrange(i as int, hi as int), p@),
{
    if p.len() > hi - i {
        return false;
    }
    let mut k: usize = 0;
    while k < p.len()
        invariant
            i <= hi <= s.len(),
            p.len() <= hi - i,
            k <= p.len(),
            forall|j: int| 0 <= j < k ==> s@[i + j] == p@[j],
        decreases p.len() - k,
    {
        if s[i + k] != p[k] {
            assert(s@.subrange(i as int, hi as int).take(p.len() as int)[k as int] != p@[k as int]);
            return false;
        }
        k += 1;
    }
    assert(s@.subrange(i as int, hi as int).take(p.len() as int) =~= p@);
    true
}

/// Whether `p` occurs in `s[lo..hi]`.
pub fn contains_in(s: &Vec<char>, lo: usize, hi: usize, p: &[char]) -> (b: bool)
    requires
        lo <= hi <= s.len(),
    ensures
        b == contains_seq(s@.subrange(lo as int, hi as int), p@),
{
    match find_in(s, lo, hi, p) {
        Some(_) => true,
        None => false,
    }
}

/// The first index `k >= lo` at which `p` occurs in `s[lo..hi]`.
pub fn find_in(s: &Vec<char>, lo: usize, hi: usize, p: &[char]) -> (r: Option<usize>)
    requires
        lo <= hi <= s.len(),
    ensures
        r is None <==> !contains_seq(s@.subrange(lo as int, hi as int), p@),
        r matches Some(k) ==> {
            &&& lo <= k <= hi
            &&& occurs_at(s@.subrange(lo as int, hi as int), k - lo, p@)
            &&& forall|j: int| 0 <= j < k - lo ==> !occurs_at(s@.subrange(lo as int, hi as int), j, p@)
        },
{
    let ghost w = s@.subrange(lo as int, hi as int);
    let mut i = lo;
    while i <= hi
        invariant
            lo <= i <= hi + 1,
            hi <= s.len(),
            w == s@.subrange(lo as int, hi as int),
            forall|j: int| 0 <= j < i - lo ==> !occurs_at(w, j, p@),
        decreases hi + 1 - i,
    {
        let m = matches_at(s, i, hi, p);
        proof {
            let v = s@.subrange(i as int, hi as int);
            if p@.len() <= v.len() {
                assert(v.take(p@.len() as int) =~= w.subrange(i - lo, i - lo + p@.len()));
            }
            assert(m == occurs_at(w, i - lo, p@));
        }
        if m {
            return Some(i);
        }
        if i == hi {
            proof {
                assert forall|j: int| !occurs_at(w, j, p@) by {
                    if 0 <= j && j + p@.len() <= w.len() {
                        assert(j < i - lo + 1);
                    }
                }
            }
            return None;
        }
        i += 1;
    }
    None
}

/// The index of the first occurrence of `p` in `s`.
pub open spec fn first_at(s: Seq<char>, p: Seq<char>) -> Option<int>
    decreases s.len(),
{
    if p.len() <= s.len() && s.take(p.len() as int) == p {
        Some(0)
    } else if s.len() == 0 {
        None
    } else {
        match first_at(s.drop_first(), p) {
            Some(i) => Some(i + 1),
            None => None,
        }
    }
}

pub proof fn lemma_first_at_occurs(s: Seq<char>, p: Seq<char>)
    ensures
        first_at(s, p) matches Some(i) ==> occurs_at(s, i, p),
    decreases s.len(),
{
    if p.len() <= s.len() && s.take(p.len() as int) == p {
        assert(s.subrange(0, p.len() as int) =~= s.take(p.len() as int));
    } else if s.len() > 0 {
        lemma_first_at_occurs(s.drop_first(), p);
        if let Some(i) = first_at(s.drop_first(), p) {
            assert(s.drop_first().subrange(i, i + p.len()) =~= s.subrange(i + 1, i + 1 + p.len()));
        }
    }
}

/// The first occurrence of `p` in `s` is at `k`.
pub proof fn lemma_first_at_is(s: Seq<char>, p: Seq<char>, k: int)
    requires
        occurs_at(s, k, p),
        forall|j: int| 0 <= j < k ==> !occurs_at(s, j, p),
    ensures
        first_at(s, p) == Some(k),
    decreases s.len(),
{
    if k == 0 {
        assert(s.subrange(0, p.len() as int) =~= s.take(p.len() as int));
    } else {
        assert(!occurs_at(s, 0, p));
        assert(!(p.len() <= s.len() && s.take(p.len() as int) == p)) by {
            if p.len() <= s.len() && s.take(p.len() as int) == p {
                assert(s.subrange(0, p.len() as int) =~= s.take(p.len() as int));
            }
        }
        let t = s.drop_first();
        assert(t.subrange(k - 1, k - 1 + p.len()) =~= s.subrange(k, k + p.len()));
        assert forall|j: int| 0 <= j < k - 1 implies !occurs_at(t, j, p) by {
            assert(t.subrange(j, j + p.len()) =~= s.subrange(j + 1, j + 1 + p.len()));
            assert(!occurs_at(s, j + 1, p));
        }
        lemma_first_at_is(t, p, k - 1);
    }
}

/// Before its first occurrence, `p` does not occur in `s`; with none, it occurs nowhere.
pub proof fn lemma_first_at_first(s: Seq<char>, p: Seq<char>)
    ensures
        first_at(s, p) matches Some(k) ==> forall|j: int| 0 <= j < k ==> !occurs_at(s, j, p),
        first_at(s, p) is None ==> forall|j: int| !occurs_at(s, j, p),
    decreases s.len(),
{
    if p.len() <= s.len() && s.take(p.len() as int) == p {
    } else {
        assert(!occurs_at(s, 0, p)) by {
            if occurs_at(s, 0, p) {
                assert(s.take(p.len() as int) =~= s.subrange(0, p.len() as int));
            }
        }
        if s.len() > 0 {
            lemma_first_at_first(s.drop_first(), p);
            assert forall|j: int| 1 <= j && occurs_at(s, j, p) implies occurs_at(s.drop_first(), j - 1, p) by {
                assert(s.drop_first().subrange(j - 1, j - 1 + p.len()) =~= s.subrange(j, j + p.len()));
            }
        } else {
            assert forall|j: int| !occurs_at(s, j, p) by {
                if occurs_at(s, j, p) {
                    assert(j == 0 && p.len() == 0);
                    assert(s.take(0) =~= p);
                }
            }
        }
    }
}

/// Two texts that agree on their first `m` characters have the same first occurrence of `p`,
/// when it ends within them.
pub proof fn lemma_first_at_same(x: Seq<char>, y: Seq<char>, p: Seq<char>, m: int, k: int)
    requires
        m <= x.len(),
        m <= y.len(),
        x.take(m) == y.take(m),
        first_at(x, p) == Some(k),
        k + p.len() <= m,
    ensures
        first_at(y, p) == Some(k),
{
    lemma_first_at_occurs(x, p);
    lemma_first_at_first(x, p);
    assert(occurs_at(x, k, p));
    assert(y.subrange(k, k + p.len()) =~= x.subrange(k, k + p.len())) by {
        assert forall|i: int| 0 <= i < p.len() implies #[trigger] y.subrange(k, k + p.len())[i] == x.subrange(k, k + p.len())[i] by {
            assert(0 <= k);
            assert(x.take(m)[k + i] == x[k + i]);
            assert(y.take(m)[k + i] == y[k + i]);
            assert(x.take(m)[k + i] == y.take(m)[k + i]);
        }
    }
    assert forall|j: int| 0 <= j < k implies !occurs_at(y, j, p) by {
        if occurs_at(y, j, p) {
            assert(x.subrange(j, j + p.len()) =~= y.subrange(j, j + p.len())) by {
                assert forall|i: int| 0 <= i < p.len() implies #[trigger] x.subrange(j, j + p.len())[i] == y.subrange(j, j + p.len())[i] by {
                    assert(x.take(m)[j + i] == x[j + i]);
                    assert(y.take(m)[j + i] == y[j + i]);
                    assert(x.take(m)[j + i] == y.take(m)[j + i]);
                }
            }
            assert(occurs_at(x, j, p));
        }
    }
    lemma_first_at_is(y, p, k);
}

/// `p` does not occur in `s`.
pub proof fn lemma_first_at_none(s: Seq<char>, p: Seq<char>)
    requires
        !contains_seq(s, p),
    ensures
        first_at(s, p) is None,
{
    lemma_first_at_occurs(s, p);
}

// ---------------------------------------------------------------- case

pub open spec fn ascii_lower_char(c: char) -> char {
    if 'A' <= c && c <= 'Z' {
        (((c as u8) + 32) as u8) as char
    } else {
        c
    }
}

/// `str::to_ascii_lowercase`: ASCII letters lowered, everything else kept.
pub open spec fn ascii_lower(s: Seq<char>) -> Seq<char> {
    s.map_values(|c: char| ascii_lower_char(c))
}

pub fn ascii_lower_exec(s: &Vec<char>) -> (l: Vec<char>)
    ensures
        l@ == ascii_lower(s@),
{
    let mut l: Vec<char> = Vec::new();
    let mut i: usize = 0;
    while i < s.len()
        invariant
            i <= s.len(),
            l@ == ascii_lower(s@.take(i as int)),
        decreases s.len() - i,
    {
        let c = s[i];
        let d = if 'A' <= c && c <= 'Z' {
            ((c as u8) + 32) as char
        } else {
            c
        };
        l.push(d);
        assert(ascii_lower(s@.take(i + 1)) =~= ascii_lower(s@.take(i as int)).push(ascii_lower_char(c)));
        i += 1;
    }
    assert(s@.take(s.len() as int) =~= s@);
    l
}

// ---------------------------------------------------------------- numbers

pub open spec fn digit(d: nat) -> char {
    seq!['0', '1', '2', '3', '4', '5', '6', '7', '8', '9'][d as int]
}

/// The decimal digits of `n`.
pub open spec fn decimal(n: nat) -> Seq<char>
    decreases n,
{
    if n < 10 {
        seq![digit(n)]
    } else {
        decimal(n / 10).push(digit(n % 10))
    }
}

pub fn digit_char(d: u64) -> (c: char)
    requires
        d < 10,
    ensures
        c == digit(d as nat),
{
    let digits = ['0', '1', '2', '3', '4', '5', '6', '7', '8', '9'];
    assert(digits@ =~= seq!['0', '1', '2', '3', '4', '5', '6', '7', '8', '9']);
    digits[d as usize]
}

/// The decimal digits of `n`.
pub fn decimal_chars(n: u64) -> (v: Vec<char>)
    ensures
        v@ == decimal(n as nat),
    decreases n,
{
    if n < 10 {
        let mut v: Vec<char> = Vec::new();
        v.push(digit_char(n));
        assert(v@ =~= seq![digit(n as nat)]);
        v
    } else {
        let mut v = decimal_chars(n / 10);
        v.push(digit_char(n % 10));
        v
    }
}

pub open spec fn is_digit(c: char) -> bool {
    '0' <= c && c <= '9'
}

pub open spec fn digit_value(c: char) -> nat {
    ((c as u32) - ('0' as u32)) as nat
}

/// The number that the decimal digits `s` spell.
pub open spec fn digits_value(s: Seq<char>) -> nat
    decreases s.len(),
{
    if s.len() == 0 {
        0
    } else {
        digits_value(s.drop_last()) * 10 + digit_value(s.last())
    }
}

pub open spec fn all_digits(s: Seq<char>) -> bool {
    forall|i: int| 0 <= i < s.len() ==> is_digit(#[trigger] s[i])
}

/// `usize::from_str`: an optional `+`, at least one decimal digit, a value that fits.
pub open spec fn parse_usize(s: Seq<char>) -> Option<nat> {
    let d = if s.len() > 0 && s[0] == '+' { s.drop_first() } else { s };
    if d.len() > 0 && all_digits(d) && digits_value(d) <= usize::MAX {
        Some(digits_value(d))
    } else {
        None
    }
}

proof fn lemma_digits_value_grows(s: Seq<char>, k: int)
    requires
        0 <= k <= s.len(),
    ensures
        digits_value(s.take(k)) <= digits_value(s),
    decreases s.len() - k,
{
    if k < s.len() {
        lemma_digits_value_grows(s, k + 1);
        assert(s.take(k + 1).drop_last() =~= s.take(k));
    } else {
        assert(s.take(k) =~= s);
    }
}

proof fn lemma_digit(d: nat)
    requires
        d < 10,
    ensures
        is_digit(digit(d)),
        digit_value(digit(d)) == d,
{
    let t = seq!['0', '1', '2', '3', '4', '5', '6', '7', '8', '9'];
    assert(digit(d) == t[d as int]);
    if d == 0 { assert(t[0] == '0'); }
    else if d == 1 { assert(t[1] == '1'); }
    else if d == 2 { assert(t[2] == '2'); }
    else if d == 3 { assert(t[3] == '3'); }
    else if d == 4 { assert(t[4] == '4'); }
    else if d == 5 { assert(t[5] == '5'); }
    else if d == 6 { assert(t[6] == '6'); }
    else if d == 7 { assert(t[7] == '7'); }
    else if d == 8 { assert(t[8] == '8'); }
    else { assert(t[9] == '9'); }
}

/// The decimal digits of `n` are digits, at least one, and spell `n`.
pub proof fn lemma_decimal(n: nat)
    ensures
        decimal(n).len() > 0,
        all_digits(decimal(n)),
        digits_value(decimal(n)) == n,
    decreases n,
{
    if n < 10 {
        lemma_digit(n);
        assert(decimal(n).drop_last() =~= Seq::<char>::empty());
        assert(decimal(n).last() == digit(n));
        assert(digits_value(Seq::<char>::empty()) == 0);
        assert(digits_value(decimal(n)) == digits_value(decimal(n).drop_last()) * 10 + digit_value(digit(n)));
    } else {
        lemma_decimal(n / 10);
        lemma_digit(n % 10);
        let d = decimal(n);
        assert(d.drop_last() =~= decimal(n / 10));
        assert(d.last() == digit(n % 10));
        assert(digits_value(d) == digits_value(decimal(n / 10)) * 10 + digit_value(digit(n % 10)));
        assert((n / 10) * 10 + n % 10 == n);
        assert forall|i: int| 0 <= i < d.len() implies is_digit(#[trigger] d[i]) by {
            if i < d.len() - 1 {
                assert(d[i] == decimal(n / 10)[i]);
            }
        }
    }
}

/// Digits spelling a value that fits read back as that value.
pub proof fn lemma_parse_digits(s: Seq<char>)
    requires
        s.len() > 0,
        all_digits(s),
        digits_value(s) <= usize::MAX,
    ensures
        parse_usize(s) == Some(digits_value(s)),
{
    assert(is_digit(s[0]));
}

/// The value of `s[lo..hi]` as `usize::from_str` reads it.
pub fn parse_usize_in(s: &Vec<char>, lo: usize, hi: usize) -> (r: Option<usize>)
    requires
        lo <= hi <= s.len(),
    ensures
        match r {
            Some(v) => parse_usize(s@.subrange(lo as int, hi as int)) == Some(v as nat),
            None => parse_usize(s@.subrange(lo as int, hi as int)) is None,
        },
{
    let ghost w = s@.subrange(lo as int, hi as int);
    let a = if lo < hi && s[lo] == '+' { lo + 1 } else { lo };
    let ghost d = s@.subrange(a as int, hi as int);
    proof {
        if lo < hi && s@[lo as int] == '+' {
            assert(w.drop_first() =~= d);
        } else {
            assert(w =~= d);
        }
    }
    let ghost expect: Option<nat> = if d.len() > 0 && all_digits(d) && digits_value(d) <= usize::MAX {
        Some(digits_value(d))
    } else {
        None
    };
    assert(parse_usize(w) == expect);
    if a == hi {
        return None;
    }
    let mut acc: u128 = 0;
    let mut i = a;
    while i < hi
        invariant
            a <= i <= hi <= s.len(),
            a < hi,
            w == s@.subrange(lo as int, hi as int),
            parse_usize(w) == expect,
            expect == (if d.len() > 0 && all_digits(d) && digits_value(d) <= usize::MAX {
                Some(digits_value(d))
            } else {
                None
            }),
            d == s@.subrange(a as int, hi as int),
            acc as nat == digits_value(d.take(i - a)),
            acc <= usize::MAX,
            all_digits(d.take(i - a)),
        decreases hi - i,
    {
        let c = s[i];
        proof {
            assert(d.take(i - a + 1).drop_last() =~= d.take(i - a));
            assert(d.take(i - a + 1).last() == c);
        }
        if !('0' <= c && c <= '9') {
            assert(!all_digits(d)) by {
                assert(d[i - a] == c);
            }
            return None;
        }
        acc = acc * 10 + ((c as u32) - ('0' as u32)) as u128;
        proof {
            assert(all_digits(d.take(i - a + 1))) by {
                assert forall|j: int| 0 <= j < i - a + 1 implies is_digit(#[trigger] d.take(i - a + 1)[j]) by {
                    if j < i - a {
                        assert(d.take(i - a + 1)[j] == d.take(i - a)[j]);
                    }
                }
            }
        }
        if acc > usize::MAX as u128 {
            proof {
                lemma_digits_value_grows(d, i - a + 1);
            }
            return None;
        }
        i += 1;
    }
    assert(d.take(hi - a) =~= d);
    Some(acc as usize)
}

/// The pieces of `s` between the occurrences of `c` (`str::split`).
pub open spec fn split_on(s: Seq<char>, c: char) -> Seq<Seq<char>>
    decreases s.len(),
{
    let i = index_of(s, c);
    proof {
        lemma_index_of_bounds(s, c);
    }
    if i >= s.len() {
        seq![s]
    } else {
        seq![s.take(i)] + split_on(s.skip(i + 1), c)
    }
}

/// Splitting `a`, `c`, `b` at `c` gives the pieces of `a`, then those of `b`.
pub proof fn lemma_split_join(a: Seq<char>, b: Seq<char>, c: char)
    ensures
        split_on(a + seq![c] + b, c) == split_on(a, c) + split_on(b, c),
    decreases a.len(),
{
    let s = a + seq![c] + b;
    lemma_index_of_bounds(a, c);
    let j = index_of(a, c);
    if j < a.len() {
        assert forall|k: int| 0 <= k < j implies s[k] != c by {
            assert(s[k] == a[k]);
        }
        assert(s[j] == a[j]);
        lemma_index_of_is(s, c, j);
        let rest = a.skip(j + 1);
        assert(s.skip(j + 1) =~= rest + seq![c] + b);
        assert(s.take(j) =~= a.take(j));
        lemma_split_join(rest, b, c);
        assert(split_on(a, c) == seq![a.take(j)] + split_on(rest, c));
        assert(split_on(s, c) =~= split_on(a, c) + split_on(b, c));
    } else {
        assert forall|k: int| 0 <= k < a.len() implies s[k] != c by {
            assert(s[k] == a[k]);
        }
        lemma_index_of_is(s, c, a.len() as int);
        assert(s.take(a.len() as int) =~= a);
        assert(s.skip(a.len() as int + 1) =~= b);
        assert(split_on(a, c) == seq![a]);
        assert(split_on(s, c) =~= split_on(a, c) + split_on(b, c));
    }
}

/// Start and end, in `s`, of each piece of `s` between the occurrences of `c`.
pub fn split_spans(s: &Vec<char>, c: char) -> (spans: Vec<(usize, usize)>)
    ensures
        spans_of(s@, spans@, split_on(s@, c)),
{
    let n = s.len();
    let mut spans: Vec<(usize, usize)> = Vec::new();
    let mut start: usize = 0;
    let mut i: usize = 0;
    let ghost mut done: Seq<Seq<char>> = seq![];
    assert(s@.skip(0) =~= s@);
    while i < n
        invariant
            n == s.len(),
            start <= i <= n,
            forall|j: int| start <= j < i ==> s@[j] != c,
            split_on(s@, c) == done + split_on(s@.skip(start as int), c),
            spans_of(s@, spans@, done),
        decreases n - i,
    {
        if s[i] == c {
            proof {
                let t = s@.skip(start as int);
                lemma_index_of_is(t, c, i - start);
                assert(t.take(i - start) =~= s@.subrange(start as int, i as int));
                assert(t.skip(i - start + 1) =~= s@.skip(i + 1));
                lemma_spans_push(s@, spans@, done, start, i);
                done = done.push(s@.subrange(start as int, i as int));
            }
            spans.push((start, i));
            start = i + 1;
        }
        i += 1;
    }
    proof {
        let t = s@.skip(start as int);
        lemma_index_of_is(t, c, t.len() as int);
        assert(t =~= s@.subrange(start as int, n as int));
        lemma_spans_push(s@, spans@, done, start, n);
        done = done.push(t);
        assert(done =~= (done.drop_last() + seq![t]));
    }
    spans.push((start, n));
    spans
}

// ---------------------------------------------------------------- UTF-8

/// The UTF-8 encoding of a concatenation is the concatenation of the encodings.
pub proof fn lemma_encode_concat(x: Seq<char>, y: Seq<char>)
    ensures
        encode_utf8(x + y) == encode_utf8(x) + encode_utf8(y),
    decreases x.len(),
{
    if x.len() == 0 {
        assert(x + y =~= y);
        assert(encode_utf8(x) =~= Seq::<u8>::empty());
        assert(Seq::<u8>::empty() + encode_utf8(y) =~= encode_utf8(y));
    } else {
        assert((x + y).drop_first() =~= x.drop_first() + y);
        assert((x + y)[0] == x[0]);
        lemma_encode_concat(x.drop_first(), y);
        assert(encode_utf8(x + y) =~= encode_utf8(x) + encode_utf8(y));
    }
}

// ---------------------------------------------------------------- building

/// Appends `s[lo..hi]` to `out`.
pub fn push_range(out: &mut Vec<char>, s: &Vec<char>, lo: usize, hi: usize)
    requires
        lo <= hi <= s.len(),
    ensures
        final(out)@ == old(out)@ + s@.subrange(lo as int, hi as int),
{
    let ghost start = out@;
    let mut i = lo;
    while i < hi
        invariant
            lo <= i <= hi <= s.len(),
            out@ == start + s@.subrange(lo as int, i as int),
        decreases hi - i,
    {
        out.push(s[i]);
        assert(s@.subrange(lo as int, i + 1) =~= s@.subrange(lo as int, i as int).push(s@[i as int]));
        i += 1;
    }
}

/// Appends every character of `p` to `out`.
pub fn push_chars(out: &mut Vec<char>, p: &[char])
    ensures
        final(out)@ == old(out)@ + p@,
{
    let ghost start = out@;
    let mut i: usize = 0;
    while i < p.len()
        invariant
            i <= p.len(),
            out@ == start + p@.take(i as int),
        decreases p.len() - i,
    {
        out.push(p[i]);
        assert(p@.take(i + 1) =~= p@.take(i as int).push(p@[i as int]));
        i += 1;
    }
    assert(p@.take(p.len() as int) =~= p@);
}

/// The characters of a string slice, in order.
pub fn chars_of(s: &str) -> (res: Vec<char>)
    ensures
        res@ == s@,
{
    let mut res: Vec<char> = Vec::new();
    for c in it: s.chars()
        invariant
            res@ == it.seq().take(it.index() as int),
    {
        res.push(c);
    }
    res
}


/// A string holding the characters `v`.
pub fn string_of(v: &Vec<char>) -> (s: String)
    ensures
        s@ == v@,
{
    collect_string(v.as_slice())
}

/// Calls `FromIterator<&char> for String` (std): the string whose characters are `v`, in order.
#[verifier::external_body]
fn collect_string(v: &[char]) -> (s: String)
    ensures
        s@ == v@,
{
    v.iter().collect()
}

/// What `String::from_utf8_lossy` (std) makes of `b`: the decoded text, with U+FFFD in
/// place of each invalid sequence.
pub uninterp spec fn utf8_lossy(b: Seq<u8>) -> Seq<char>;

/// The text that `String::from_utf8_lossy` (std) gives for `b`: the decoded text when `b` is
/// valid UTF-8, as its documentation states, and `utf8_lossy` otherwise.
pub open spec fn lossy_text(b: Seq<u8>) -> Seq<char> {
    if valid_utf8(b) {
        decode_utf8(b)
    } else {
        utf8_lossy(b)
    }
}

/// Calls `String::from_utf8_lossy` (std). Claims that valid UTF-8 comes back decoded, as std
/// documents; what replaces invalid sequences is left to the name `utf8_lossy`.
#[verifier::external_body]
pub fn decode_lossy(b: &[u8]) -> (s: String)
    ensures
        valid_utf8(b@) ==> s@ == decode_utf8(b@),
        !valid_utf8(b@) ==> s@ == utf8_lossy(b@),
{
    String::from_utf8_lossy(b).into_owned()
}

/// Calls `String::from_utf8` (std): the text when `b` is valid UTF-8, `None` otherwise.
#[verifier::external_body]
pub fn decode_exact(b: Vec<u8>) -> (s: Option<String>)
    ensures
        s is Some <==> valid_utf8(b@),
        s matches Some(t) ==> t@ == decode_utf8(b@),
{
    String::from_utf8(b).ok()
}

/// What `str::to_uppercase` (std) makes of `s`, by Unicode's case mapping.
pub uninterp spec fn unicode_upper(s: Seq<char>) -> Seq<char>;

/// Calls `str::to_uppercase` (std).
#[verifier::external_body]
pub fn to_upper(s: &str) -> (u: String)
    ensures
        u@ == unicode_upper(s@),
{
    s.to_uppercase()
}

} // verus!
