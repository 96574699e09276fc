//! Linux: the clipboard is served by the process that copied, so `ct` hands what it writes to
//! a small background copy of itself. This is the message between the two, and the choice of
//! what is written: text and HTML only.
use vstd::prelude::*;
use vstd::utf8::{
    encode_utf8, encode_utf8_decode_utf8, encode_utf8_valid_utf8, is_ascii_chars, is_ascii_chars_encode_utf8,
};
use crate::convert::Flavor;
use crate::text::{
    chars_of, decimal, decimal_chars, is_digit, lemma_decimal,
    lemma_encode_concat, lemma_index_of_is, lemma_parse_digits, decode_lossy, parse_usize, parse_usize_in, spans_of, split_on,
    split_spans, string_of, lossy_text,
};

verus! {

// ---------------------------------------------------------------- what can be read

/// Whether flavor `f` can be read from the clipboard here: text and HTML only.
pub open spec fn readable(f: Flavor) -> bool {
    f == Flavor::Text || f == Flavor::Html
}

/// Whether flavor `f` can be read from the clipboard here.
pub fn reads_flavor(f: Flavor) -> (b: bool)
    ensures
        b == readable(f),
{
    match f {
        Flavor::Text | Flavor::Html => true,
        Flavor::Rtf | Flavor::Md => false,
    }
}

/// The names of the formats on the clipboard, given whether it holds text and HTML.
pub open spec fn types_spec(has_text: bool, has_html: bool) -> Seq<Seq<char>> {
    (if has_text { seq!["text/plain"@] } else { seq![] }) + (if has_html { seq!["text/html"@] } else { seq![] })
}

pub open spec fn names_view(v: Seq<String>) -> Seq<Seq<char>> {
    v.map_values(|s: String| s@)
}

/// The names of the formats on the clipboard, given whether it holds text and HTML.
pub fn types(has_text: bool, has_html: bool) -> (v: Vec<String>)
    ensures
        names_view(v@) == types_spec(has_text, has_html),
{
    let mut v: Vec<String> = Vec::new();
    if has_text {
        v.push(String::from_str("text/plain"));
    }
    if has_html {
        v.push(String::from_str("text/html"));
    }
    assert(names_view(v@) =~= types_spec(has_text, has_html));
    v
}

// ---------------------------------------------------------------- what is written

/// The bytes of the first item of flavor `f`.
pub open spec fn first_of(items: Seq<(Flavor, Seq<u8>)>, f: Flavor) -> Option<Seq<u8>>
    decreases items.len(),
{
    if items.len() == 0 {
        None
    } else if items[0].0 == f {
        Some(items[0].1)
    } else {
        first_of(items.drop_first(), f)
    }
}

pub open spec fn lossy_of(b: Option<Seq<u8>>) -> Option<Seq<char>> {
    match b {
        Some(v) => Some(lossy_text(v)),
        None => None,
    }
}

/// The (text, HTML) that the server offers: the text and HTML items, the HTML already on the
/// clipboard when others are kept and none is written, the HTML standing in for missing
/// text; an error when there is neither.
pub open spec fn payload_of(
    items: Seq<(Flavor, Seq<u8>)>,
    keep_others: bool,
    existing_html: Option<Seq<u8>>,
) -> Result<(Seq<char>, Seq<char>), Seq<char>> {
    let text = lossy_of(first_of(items, Flavor::Text));
    let html = if keep_others && lossy_of(first_of(items, Flavor::Html)) is None {
        lossy_of(existing_html)
    } else {
        lossy_of(first_of(items, Flavor::Html))
    };
    let text = if text is Some { text } else { html };
    match text {
        None => Err("nothing to write"@),
        Some(t) => Ok((t, match html { Some(h) => h, None => Seq::empty() })),
    }
}

pub open spec fn items_bytes(items: Seq<(Flavor, Vec<u8>)>) -> Seq<(Flavor, Seq<u8>)> {
    items.map_values(|it: (Flavor, Vec<u8>)| (it.0, it.1@))
}

fn pick(items: &Vec<(Flavor, Vec<u8>)>, f: Flavor) -> (r: Option<String>)
    ensures
        opt_view(r) == lossy_of(first_of(items_bytes(items@), f)),
{
    let ghost iv = items_bytes(items@);
    let mut i: usize = 0;
    assert(iv.skip(0) =~= iv);
    while i < items.len()
        invariant
            i <= items.len(),
            iv == items_bytes(items@),
            first_of(iv, f) == first_of(iv.skip(i as int), f),
        decreases items.len() - i,
    {
        proof {
            assert(iv.skip(i as int).drop_first() =~= iv.skip(i + 1));
            assert(iv.skip(i as int)[0] == (items@[i as int].0, items@[i as int].1@));
        }
        if items[i].0 == f {
            return Some(decode_lossy(items[i].1.as_slice()));
        }
        i += 1;
    }
    assert(iv.skip(i as int) =~= Seq::<(Flavor, Seq<u8>)>::empty());
    None
}

pub open spec fn opt_view(o: Option<String>) -> Option<Seq<char>> {
    match o {
        Some(s) => Some(s@),
        None => None,
    }
}

/// What the server is to offer for `items`; `existing_html` is the HTML on the clipboard.
pub fn payload(items: &Vec<(Flavor, Vec<u8>)>, keep_others: bool, existing_html: Option<Vec<u8>>) -> (r: Result<(String, String), String>)
    ensures
        match (r, payload_of(items_bytes(items@), keep_others, match existing_html { Some(v) => Some(v@), None => None })) {
            (Ok((t, h)), Ok((t2, h2))) => t@ == t2 && h@ == h2,
            (Err(e), Err(e2)) => e@ == e2,
            _ => false,
        },
{
    let text = pick(items, Flavor::Text);
    let mut html = pick(items, Flavor::Html);
    if keep_others && html.is_none() {
        html = match &existing_html {
            Some(b) => Some(decode_lossy(b.as_slice())),
            None => None,
        };
    }
    let text = match text {
        Some(t) => Some(t),
        None => html.clone(),
    };
    match text {
        None => Err(String::from_str("nothing to write")),
        Some(t) => Ok((t, match html {
            Some(h) => h,
            None => String::new(),
        })),
    }
}

// ---------------------------------------------------------------- the message

/// `"<text bytes> <HTML bytes>\n"`, then the text, then the HTML, in UTF-8.
pub open spec fn message_bytes(text: Seq<char>, html: Seq<char>) -> Seq<u8> {
    let t = encode_utf8(text);
    let h = encode_utf8(html);
    encode_utf8(decimal(t.len()) + seq![' '] + decimal(h.len()) + seq!['\n']) + t + h
}

fn append_bytes(out: &mut Vec<u8>, b: &Vec<u8>)
    ensures
        final(out)@ == old(out)@ + b@,
{
    let ghost start = out@;
    let mut i: usize = 0;
    while i < b.len()
        invariant
            i <= b.len(),
            out@ == start + b@.take(i as int),
        decreases b.len() - i,
    {
        out.push(b[i]);
        assert(b@.take(i + 1) =~= b@.take(i as int).push(b@[i as int]));
        i += 1;
    }
    assert(b@.take(b.len() as int) =~= b@);
}

/// The message that hands `text` and `html` to the clipboard server.
pub fn message(text: &str, html: &str) -> (m: Vec<u8>)
    ensures
        m@ == message_bytes(text@, html@),
{
    let t = text.as_bytes_vec();
    let h = html.as_bytes_vec();
    let mut header = decimal_chars(t.len() as u64);
    header.push(' ');
    let hd = decimal_chars(h.len() as u64);
    let mut i: usize = 0;
    let ghost start = header@;
    while i < hd.len()
        invariant
            i <= hd.len(),
            header@ == start + hd@.take(i as int),
        decreases hd.len() - i,
    {
        header.push(hd[i]);
        assert(hd@.take(i + 1) =~= hd@.take(i as int).push(hd@[i as int]));
        i += 1;
    }
    header.push('\n');
    proof {
        assert(hd@.take(hd.len() as int) =~= hd@);
        assert(header@ =~= decimal(t@.len()) + seq![' '] + decimal(h@.len()) + seq!['\n']);
    }
    let hs = string_of(&header);
    let mut m = hs.as_str().as_bytes_vec();
    append_bytes(&mut m, &t);
    append_bytes(&mut m, &h);
    m
}

/// Index of the first `x` in `b`, or `b.len()` when there is none.
pub open spec fn byte_index(b: Seq<u8>, x: u8) -> int
    decreases b.len(),
{
    if b.len() == 0 {
        0
    } else if b[0] == x {
        0
    } else {
        1 + byte_index(b.drop_first(), x)
    }
}

pub proof fn lemma_byte_index_is(b: Seq<u8>, x: u8, k: int)
    requires
        0 <= k <= b.len(),
        forall|j: int| 0 <= j < k ==> b[j] != x,
        k < b.len() ==> b[k] == x,
    ensures
        byte_index(b, x) == k,
    decreases b.len(),
{
    if b.len() > 0 && k > 0 {
        lemma_byte_index_is(b.drop_first(), x, k - 1);
    }
}

/// Where the header line ends: at the first newline, or at 0 when there is none.
pub open spec fn header_end(input: Seq<u8>) -> int {
    let i = byte_index(input, 10);
    if i < input.len() {
        i
    } else {
        0
    }
}

/// The numbers among `parts` that `usize::from_str` reads, in order.
pub open spec fn parsed_numbers(parts: Seq<Seq<char>>) -> Seq<nat>
    decreases parts.len(),
{
    if parts.len() == 0 {
        seq![]
    } else {
        let prev = parsed_numbers(parts.drop_last());
        match parse_usize(parts.last()) {
            Some(v) => prev.push(v),
            None => prev,
        }
    }
}

pub open spec fn nth_or_zero(ns: Seq<nat>, k: int) -> nat {
    if 0 <= k < ns.len() {
        ns[k]
    } else {
        0
    }
}

/// The numbers on the header line, split at spaces.
pub open spec fn header_numbers(input: Seq<u8>) -> Seq<nat> {
    parsed_numbers(split_on(lossy_text(input.take(header_end(input))), ' '))
}

pub open spec fn text_length(input: Seq<u8>) -> nat {
    nth_or_zero(header_numbers(input), 0)
}

pub open spec fn html_length(input: Seq<u8>) -> nat {
    nth_or_zero(header_numbers(input), 1)
}

pub open spec fn min(a: int, b: int) -> int {
    if a <= b {
        a
    } else {
        b
    }
}

pub open spec fn message_body(input: Seq<u8>) -> Seq<u8> {
    input.skip(header_end(input) + 1)
}

/// The text of a message: the first `text_length` bytes of the body, as far as there are any.
pub open spec fn message_text(input: Seq<u8>) -> Seq<char> {
    let body = message_body(input);
    lossy_text(body.take(min(text_length(input) as int, body.len() as int)))
}

/// The HTML of a message: the `html_length` bytes after the text, as far as there are any.
pub open spec fn message_html(input: Seq<u8>) -> Seq<char> {
    let body = message_body(input);
    let tl = text_length(input) as int;
    lossy_text(body.subrange(min(tl, body.len() as int), min(tl + html_length(input), body.len() as int)))
}

fn bytes_range(b: &[u8], lo: usize, hi: usize) -> (v: Vec<u8>)
    requires
        lo <= hi <= b.len(),
    ensures
        v@ == b@.subrange(lo as int, hi as int),
{
    let mut v: Vec<u8> = Vec::new();
    let mut i = lo;
    while i < hi
        invariant
            lo <= i <= hi <= b.len(),
            v@ == b@.subrange(lo as int, i as int),
        decreases hi - i,
    {
        v.push(b[i]);
        assert(b@.subrange(lo as int, i + 1) =~= b@.subrange(lo as int, i as int).push(b@[i as int]));
        i += 1;
    }
    v
}

fn header_end_exec(input: &[u8]) -> (e: usize)
    ensures
        e as int == header_end(input@),
{
    let mut i: usize = 0;
    while i < input.len()
        invariant
            i <= input.len(),
            forall|j: int| 0 <= j < i ==> input@[j] != 10,
        decreases input.len() - i,
    {
        if input[i] == 10 {
            proof {
                lemma_byte_index_is(input@, 10, i as int);
            }
            return i;
        }
        i += 1;
    }
    proof {
        lemma_byte_index_is(input@, 10, i as int);
    }
    0
}

/// The text and HTML lengths that the header of `input` announces.
pub fn message_lengths(input: &[u8]) -> (r: (usize, usize))
    ensures
        r.0 as nat == text_length(input@),
        r.1 as nat == html_length(input@),
{
    let e = header_end_exec(input);
    let head = bytes_range(input, 0, e);
    assert(head@ =~= input@.take(e as int));
    let hs = decode_lossy(head.as_slice());
    let c = chars_of(hs.as_str());
    let spans = split_spans(&c, ' ');
    let ghost parts = split_on(c@, ' ');
    let mut nums: Vec<usize> = Vec::new();
    let mut k: usize = 0;
    while k < spans.len()
        invariant
            parts == split_on(c@, ' '),
            spans_of(c@, spans@, parts),
            k <= spans.len(),
            nums@.map_values(|v: usize| v as nat) == parsed_numbers(parts.take(k as int)),
        decreases spans.len() - k,
    {
        let (lo, hi) = spans[k];
        proof {
            assert(spans@[k as int].0 <= spans@[k as int].1);
            assert(parts.take(k + 1).drop_last() =~= parts.take(k as int));
            assert(parts.take(k + 1).last() == parts[k as int]);
        }
        if let Some(v) = parse_usize_in(&c, lo, hi) {
            nums.push(v);
            assert(nums@.map_values(|v: usize| v as nat) =~= nums@.drop_last().map_values(|v: usize| v as nat).push(v as nat));
        }
        k += 1;
    }
    proof {
        assert(parts.take(spans.len() as int) =~= parts);
    }
    let ghost ns = nums@.map_values(|v: usize| v as nat);
    let a = if nums.len() > 0 { nums[0] } else { 0 };
    let b = if nums.len() > 1 { nums[1] } else { 0 };
    proof {
        if nums.len() > 0 {
            assert(ns[0] == nums@[0] as nat);
        }
        if nums.len() > 1 {
            assert(ns[1] == nums@[1] as nat);
        }
    }
    (a, b)
}

/// The text and HTML carried by a message. The message is never empty and its two lengths
/// add up without overflow (else slicing it would fail).
pub fn read_message(input: &[u8]) -> (r: (String, String))
    requires
        input.len() > 0,
        text_length(input@) + html_length(input@) <= usize::MAX,
    ensures
        r.0@ == message_text(input@),
        r.1@ == message_html(input@),
{
    let e = header_end_exec(input);
    let (tl, hl) = message_lengths(input);
    let n = input.len();
    let start = e + 1;
    let blen = n - start;
    let te = if tl < blen { tl } else { blen };
    let he = if tl + hl < blen { tl + hl } else { blen };
    let tb = bytes_range(input, start, start + te);
    let hb = bytes_range(input, start + te, start + he);
    proof {
        let body = message_body(input@);
        assert(tb@ =~= body.take(te as int));
        assert(hb@ =~= body.subrange(te as int, he as int));
    }
    (decode_lossy(tb.as_slice()), decode_lossy(hb.as_slice()))
}


/// The text and HTML carried by `input`, when it can be read: `None` for an empty input or one
/// whose two lengths overflow when added.
pub fn try_read_message(input: &[u8]) -> (r: Option<(String, String)>)
    ensures
        r is None <==> (input.len() == 0 || text_length(input@) + html_length(input@) > usize::MAX),
        r matches Some((t, h)) ==> t@ == message_text(input@) && h@ == message_html(input@),
{
    if input.len() == 0 {
        return None;
    }
    let (tl, hl) = message_lengths(input);
    if tl > usize::MAX - hl {
        return None;
    }
    Some(read_message(input))
}

proof fn lemma_split_two(a: Seq<char>, b: Seq<char>)
    requires
        forall|i: int| 0 <= i < a.len() ==> a[i] != ' ',
        forall|i: int| 0 <= i < b.len() ==> b[i] != ' ',
    ensures
        split_on(a + seq![' '] + b, ' ') == seq![a, b],
{
    let s = a + seq![' '] + b;
    lemma_index_of_is(s, ' ', a.len() as int);
    assert(s.take(a.len() as int) =~= a);
    assert(s.skip(a.len() as int + 1) =~= b);
    lemma_index_of_is(b, ' ', b.len() as int);
    assert(split_on(b, ' ') == seq![b]);
    assert(split_on(s, ' ') =~= seq![a] + seq![b]);
}

/// What `message` writes, `read_message` reads back: the clipboard server offers exactly the
/// text and HTML it was handed.
pub proof fn lemma_message_round_trip(text: Seq<char>, html: Seq<char>)
    requires
        encode_utf8(text).len() + encode_utf8(html).len() <= usize::MAX,
    ensures
        message_bytes(text, html).len() > 0,
        text_length(message_bytes(text, html)) == encode_utf8(text).len(),
        html_length(message_bytes(text, html)) == encode_utf8(html).len(),
        message_text(message_bytes(text, html)) == text,
        message_html(message_bytes(text, html)) == html,
{
    let t = encode_utf8(text);
    let h = encode_utf8(html);
    let a = decimal(t.len());
    let b = decimal(h.len());
    lemma_decimal(t.len());
    lemma_decimal(h.len());
    let ab = a + seq![' '] + b;
    let hdr = ab + seq!['\n'];
    assert forall|i: int| 0 <= i < a.len() implies a[i] != ' ' && '\0' <= a[i] <= '\u{7f}' by {
        assert(is_digit(a[i]));
    }
    assert forall|i: int| 0 <= i < b.len() implies b[i] != ' ' && '\0' <= b[i] <= '\u{7f}' by {
        assert(is_digit(b[i]));
    }
    assert(is_ascii_chars(hdr)) by {
        assert forall|i: int| 0 <= i < hdr.len() implies '\0' <= #[trigger] hdr[i] <= '\u{7f}' by {
            if i < a.len() {
                assert(hdr[i] == a[i]);
            } else if i == a.len() {
            } else if i < a.len() + 1 + b.len() {
                assert(hdr[i] == b[i - a.len() - 1]);
            }
        }
    }
    assert(is_ascii_chars(ab)) by {
        assert forall|i: int| 0 <= i < ab.len() implies '\0' <= #[trigger] ab[i] <= '\u{7f}' by {
            assert(ab[i] == hdr[i]);
        }
    }
    is_ascii_chars_encode_utf8(hdr);
    is_ascii_chars_encode_utf8(ab);
    let hb = encode_utf8(hdr);
    let m = message_bytes(text, html);
    assert(m =~= hb + t + h);
    let k = hdr.len() - 1;
    assert forall|j: int| 0 <= j < k implies m[j] != 10 by {
        assert(m[j] == hb[j]);
        assert(hb[j] == hdr[j] as u8);
        if j < a.len() {
            assert(hdr[j] == a[j]);
            assert(is_digit(a[j]));
        } else if j == a.len() {
            assert(hdr[j] == ' ');
        } else {
            assert(hdr[j] == b[j - a.len() - 1]);
            assert(is_digit(b[j - a.len() - 1]));
        }
    }
    assert(m[k] == hb[k]);
    assert(hdr[k] == '\n');
    lemma_byte_index_is(m, 10, k);
    assert(header_end(m) == k);
    lemma_encode_concat(ab, seq!['\n']);
    assert(m.take(k) =~= encode_utf8(ab));
    encode_utf8_valid_utf8(ab);
    encode_utf8_decode_utf8(ab);
    lemma_split_two(a, b);
    lemma_parse_digits(a);
    lemma_parse_digits(b);
    let parts = seq![a, b];
    assert(parts.drop_last() =~= seq![a]);
    assert(seq![a].drop_last() =~= Seq::<Seq<char>>::empty());
    assert(parts.last() == b);
    assert(seq![a].last() == a);
    assert(parsed_numbers(Seq::<Seq<char>>::empty()) =~= Seq::<nat>::empty());
    assert(parsed_numbers(seq![a]) =~= seq![t.len()]);
    assert(parsed_numbers(parts) =~= seq![t.len(), h.len()]);
    let body = message_body(m);
    assert(body =~= t + h);
    assert(body.take(t.len() as int) =~= t);
    assert(body.subrange(t.len() as int, t.len() as int + h.len()) =~= h);
    encode_utf8_valid_utf8(text);
    encode_utf8_decode_utf8(text);
    encode_utf8_valid_utf8(html);
    encode_utf8_decode_utf8(html);
}

} // verus!
