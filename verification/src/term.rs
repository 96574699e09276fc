//! ANSI colours, on only when writing to a terminal and `NO_COLOR` is unset.
use vstd::prelude::*;

verus! {

/// Colour is on for a terminal when `NO_COLOR` is not set.
pub fn enabled_for(is_tty: bool, no_color_set: bool) -> (on: bool)
    ensures
        on == (is_tty && !no_color_set),
{
    is_tty && !no_color_set
}

/// `s` wrapped in the SGR escape `code` and a reset, or `s` itself when colour is off.
pub open spec fn painted(code: Seq<char>, s: Seq<char>, on: bool) -> Seq<char> {
    if on {
        "\x1b["@ + code + "m"@ + s + "\x1b[0m"@
    } else {
        s
    }
}

pub fn paint(code: &str, s: &str, on: bool) -> (r: String)
    ensures
        r@ == painted(code@, s@, on),
{
    if on {
        let mut r = String::from_str("\x1b[");
        r.append(code);
        r.append("m");
        r.append(s);
        r.append("\x1b[0m");
        r
    } else {
        String::from_str(s)
    }
}

pub fn bold(s: &str, on: bool) -> (r: String)
    ensures
        r@ == painted("1"@, s@, on),
{
    paint("1", s, on)
}

pub fn dim(s: &str, on: bool) -> (r: String)
    ensures
        r@ == painted("2"@, s@, on),
{
    paint("2", s, on)
}

pub fn cyan(s: &str, on: bool) -> (r: String)
    ensures
        r@ == painted("36"@, s@, on),
{
    paint("36", s, on)
}

pub fn green(s: &str, on: bool) -> (r: String)
    ensures
        r@ == painted("32"@, s@, on),
{
    paint("32", s, on)
}

pub fn yellow(s: &str, on: bool) -> (r: String)
    ensures
        r@ == painted("33"@, s@, on),
{
    paint("33", s, on)
}

pub fn magenta(s: &str, on: bool) -> (r: String)
    ensures
        r@ == painted("35"@, s@, on),
{
    paint("35", s, on)
}

pub fn err_green(s: &str, on: bool) -> (r: String)
    ensures
        r@ == painted("32"@, s@, on),
{
    paint("32", s, on)
}

pub fn err_cyan(s: &str, on: bool) -> (r: String)
    ensures
        r@ == painted("36"@, s@, on),
{
    paint("36", s, on)
}

pub fn err_red(s: &str, on: bool) -> (r: String)
    ensures
        r@ == painted("31"@, s@, on),
{
    paint("31", s, on)
}

pub fn err_dim(s: &str, on: bool) -> (r: String)
    ensures
        r@ == painted("2"@, s@, on),
{
    paint("2", s, on)
}


/// Without a terminal, or with `NO_COLOR` set, text is printed as it is.
pub proof fn lemma_no_color_plain(code: Seq<char>, s: Seq<char>, is_tty: bool, no_color_set: bool)
    requires
        !is_tty || no_color_set,
    ensures
        painted(code, s, is_tty && !no_color_set) == s,
{
}

} // verus!
