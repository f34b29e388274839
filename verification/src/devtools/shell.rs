//! Text shaping shared by the panels.

use vstd::prelude::*;

use crate::text::{push_chars, to_chars};

verus! {

/// `text` shortened to `max` characters by cutting its middle: the first
/// `(max - 1) / 2` characters, an ellipsis, and as many of the last ones as
/// fill the rest. Text that fits, or a `max` below four, is left whole.
pub open spec fn elided(text: Seq<char>, max: nat) -> Seq<char> {
    if text.len() <= max || max < 4 {
        text
    } else {
        let head = (max - 1) / 2;
        let tail = (max - 1 - head) as nat;
        text.take(head as int) + seq!['\u{2026}'] + text.subrange(text.len() - tail, text.len() as int)
    }
}

/// Shorten a string in the middle, keeping both ends legible — how Safari
/// truncates long URLs and selectors.
pub fn elide(text: &str, max: usize) -> (r: String)
    ensures
        r@ == elided(text@, max as nat),
{
    let chars = to_chars(text);
    if chars.len() <= max || max < 4 {
        return text.to_string();
    }
    let head = (max - 1) / 2;
    let tail = max - 1 - head;
    let mut out = String::new();
    push_chars(&mut out, &chars, 0, head);
    out.push('\u{2026}');
    push_chars(&mut out, &chars, chars.len() - tail, chars.len());
    assert(out@ =~= elided(text@, max as nat));
    out
}

/// An elided text is never longer than `max` once it has been cut.
pub proof fn law_elide_fits(text: Seq<char>, max: nat)
    requires
        max >= 4,
    ensures
        elided(text, max).len() <= max,
        text.len() > max ==> elided(text, max).len() == max,
{
}

} // verus!
