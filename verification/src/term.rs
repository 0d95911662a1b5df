//! Coloured terminal text.
use vstd::prelude::*;
use crate::text::{chars_of, push_str, string_of};

verus! {

/// The text in the colour `code` when it goes to a terminal, plain otherwise.
pub open spec fn paint_of(s: Seq<char>, code: Seq<char>, tty: bool) -> Seq<char> {
    if tty {
        code + s + "\x1b[0m"@
    } else {
        s
    }
}

pub fn paint(s: &str, code: &str, tty: bool) -> (r: String)
    ensures
        r@ == paint_of(s@, code@, tty),
{
    if tty {
        let mut m = chars_of(code);
        push_str(&mut m, s);
        push_str(&mut m, "\x1b[0m");
        string_of(&m)
    } else {
        s.to_owned()
    }
}

/// Green, for standard output.
pub fn green(s: &str, tty: bool) -> (r: String)
    ensures
        r@ == paint_of(s@, "\x1b[32m"@, tty),
{
    paint(s, "\x1b[32m", tty)
}

/// Gray, for standard output.
pub fn gray(s: &str, tty: bool) -> (r: String)
    ensures
        r@ == paint_of(s@, "\x1b[90m"@, tty),
{
    paint(s, "\x1b[90m", tty)
}

/// Red, for standard error.
pub fn red(s: &str, tty: bool) -> (r: String)
    ensures
        r@ == paint_of(s@, "\x1b[31m"@, tty),
{
    paint(s, "\x1b[31m", tty)
}

/// Blue, for standard output.
pub fn blue(s: &str, tty: bool) -> (r: String)
    ensures
        r@ == paint_of(s@, "\x1b[34m"@, tty),
{
    paint(s, "\x1b[34m", tty)
}

} // verus!
