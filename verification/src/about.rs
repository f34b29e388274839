//! The About card's dated line.

use vstd::prelude::*;

use crate::text::{push_chars, to_chars, trim_range, trim_ws};

verus! {

/// What kind of build this is, which decides how the dated line reads.
#[derive(Debug, Clone, Copy, PartialEq, Eq, Structural)]
pub enum BuildKind {
    /// Built from the tag matching its version. Only this may call its date
    /// a release date.
    Released,
    /// Any other build, whatever version number it carries.
    Development,
}

impl Default for BuildKind {
    fn default() -> (r: BuildKind)
        ensures
            r == BuildKind::Development,
    {
        BuildKind::Development
    }
}

/// The dated line for a build of `kind` dated `date`: a blank or `unknown`
/// date, once trimmed, reads as the build kind alone.
pub open spec fn build_line(kind: BuildKind, date: Seq<char>) -> Seq<char> {
    let d = trim_ws(date);
    let unknown = d.len() == 0 || d == "unknown"@;
    match kind {
        BuildKind::Released => if unknown {
            "Released build"@
        } else {
            "Released "@ + d
        },
        BuildKind::Development => if unknown {
            "Development build"@
        } else {
            "Development build \u{b7} "@ + d
        },
    }
}

/// Whether `chars[from..to]` reads `word`.
fn reads(chars: &Vec<char>, from: usize, to: usize, word: &Vec<char>) -> (r: bool)
    requires
        from <= to <= chars@.len(),
    ensures
        r == (chars@.subrange(from as int, to as int) == word@),
{
    if to - from != word.len() {
        assert(chars@.subrange(from as int, to as int).len() != word@.len());
        return false;
    }
    let mut i: usize = 0;
    while i < word.len()
        invariant
            from <= to <= chars@.len(),
            to - from == word@.len(),
            i <= word@.len(),
            forall|j: int| 0 <= j < i ==> chars@[from + j] == #[trigger] word@[j],
        decreases word@.len() - i,
    {
        if chars[from + i] != word[i] {
            assert(chars@.subrange(from as int, to as int)[i as int] != word@[i as int]);
            return false;
        }
        i = i + 1;
    }
    assert(chars@.subrange(from as int, to as int) =~= word@);
    true
}

impl BuildKind {
    /// The dated line for a build of this kind. Outside a git checkout there
    /// is often no date to qualify, so an unknown date reads as what the
    /// build is rather than as a date it hasn't got.
    pub fn line(self, date: &str) -> (r: String)
        ensures
            r@ == build_line(self, date@),
    {
        let chars = to_chars(date);
        let (a, b) = trim_range(&chars, 0, chars.len());
        assert(chars@.subrange(0, chars@.len() as int) =~= date@);
        let unknown_word = to_chars("unknown");
        let unknown = a == b || reads(&chars, a, b, &unknown_word);
        proof {
            reveal_strlit("unknown");
        }
        match self {
            BuildKind::Released => {
                if unknown {
                    let r = String::from_str("Released build");
                    r
                } else {
                    let mut r = String::from_str("Released ");
                    push_chars(&mut r, &chars, a, b);
                    r
                }
            },
            BuildKind::Development => {
                if unknown {
                    let r = String::from_str("Development build");
                    r
                } else {
                    let mut r = String::from_str("Development build \u{b7} ");
                    push_chars(&mut r, &chars, a, b);
                    r
                }
            },
        }
    }
}

} // verus!
