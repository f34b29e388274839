//! Naming for the Styles sidebar: a style enum's variant name, written the
//! way CSS spells its values.

use vstd::prelude::*;

use crate::text::to_chars;

verus! {

/// What `char::is_uppercase` says of `c`: whether it has the Unicode
/// `Uppercase` property.
pub uninterp spec fn uppercase(c: char) -> bool;

/// What `char::to_lowercase` yields for `c`: its Unicode lowercase mapping,
/// which may be more than one character.
pub uninterp spec fn lowercase_of(c: char) -> Seq<char>;

/// Calls `char::is_uppercase`, whose answer is named `uppercase`.
#[verifier::external_body]
fn is_uppercase(c: char) -> (r: bool)
    ensures
        r == uppercase(c),
{
    c.is_uppercase()
}

/// Calls `char::to_lowercase` and collects what it yields, which is named
/// `lowercase_of`.
#[verifier::external_body]
fn lower_chars(c: char) -> (r: Vec<char>)
    ensures
        r@ == lowercase_of(c),
{
    c.to_lowercase().collect()
}

/// `name` in kebab case, given for each character whether it is uppercase
/// and what it lowercases to: every uppercase character is lowercased, and
/// all but a leading one get a `-` before them.
pub open spec fn kebab_with(name: Seq<char>, upper: Seq<bool>, lowered: Seq<Seq<char>>) -> Seq<char>
    decreases name.len(),
{
    if name.len() == 0 {
        Seq::empty()
    } else {
        let n = name.len() - 1;
        let rest = kebab_with(name.drop_last(), upper, lowered);
        if upper[n] {
            if n > 0 {
                rest.push('-') + lowered[n]
            } else {
                rest + lowered[n]
            }
        } else {
            rest.push(name[n])
        }
    }
}

/// `name` in kebab case, by the Unicode case of its characters.
pub open spec fn kebab_of(name: Seq<char>) -> Seq<char> {
    kebab_with(
        name,
        Seq::new(name.len(), |i: int| uppercase(name[i])),
        Seq::new(name.len(), |i: int| lowercase_of(name[i])),
    )
}

proof fn lemma_kebab_prefix(name: Seq<char>, upper: Seq<bool>, lowered: Seq<Seq<char>>, u2: Seq<bool>, l2: Seq<Seq<char>>)
    requires
        upper.len() >= name.len(),
        lowered.len() >= name.len(),
        u2.len() >= name.len(),
        l2.len() >= name.len(),
        forall|i: int| 0 <= i < name.len() ==> upper[i] == u2[i] && lowered[i] == l2[i],
    ensures
        kebab_with(name, upper, lowered) == kebab_with(name, u2, l2),
    decreases name.len(),
{
    if name.len() > 0 {
        lemma_kebab_prefix(name.drop_last(), upper, lowered, u2, l2);
    }
}

/// The kebab case of `chars`, given whether each is uppercase and what each
/// lowercases to.
pub fn kebab_parts(chars: &Vec<char>, upper: &Vec<bool>, lowered: &Vec<Vec<char>>) -> (r: String)
    requires
        upper@.len() == chars@.len(),
        lowered@.len() == chars@.len(),
    ensures
        r@ == kebab_with(chars@, upper@, lowered@.map_values(|l: Vec<char>| l@)),
{
    let ghost lv = lowered@.map_values(|l: Vec<char>| l@);
    let mut out = String::new();
    let mut i: usize = 0;
    while i < chars.len()
        invariant
            i <= chars@.len(),
            upper@.len() == chars@.len(),
            lowered@.len() == chars@.len(),
            lv == lowered@.map_values(|l: Vec<char>| l@),
            out@ == kebab_with(chars@.take(i as int), upper@, lv),
        decreases chars@.len() - i,
    {
        let c = chars[i];
        proof {
            assert(chars@.take(i + 1).drop_last() =~= chars@.take(i as int));
            assert(chars@.take(i + 1)[i as int] == c);
        }
        if upper[i] {
            if i > 0 {
                out.push('-');
            }
            let ghost mid = out@;
            let lower = &lowered[i];
            let mut k: usize = 0;
            while k < lower.len()
                invariant
                    k <= lower@.len(),
                    out@ == mid + lower@.take(k as int),
                decreases lower@.len() - k,
            {
                out.push(lower[k]);
                assert(lower@.take(k + 1) =~= lower@.take(k as int).push(lower@[k as int]));
                k = k + 1;
            }
            assert(lower@.take(lower@.len() as int) =~= lower@);
            assert(lv[i as int] == lower@);
        } else {
            out.push(c);
        }
        i = i + 1;
    }
    assert(chars@.take(chars@.len() as int) =~= chars@);
    out
}

/// `SpaceBetween` -> `space-between`.
pub fn kebab(variant: &str) -> (r: String)
    ensures
        r@ == kebab_of(variant@),
{
    let chars = to_chars(variant);
    let mut upper: Vec<bool> = Vec::new();
    let mut lowered: Vec<Vec<char>> = Vec::new();
    let mut i: usize = 0;
    while i < chars.len()
        invariant
            i <= chars@.len(),
            chars@ == variant@,
            upper@.len() == i,
            lowered@.len() == i,
            forall|j: int|
                0 <= j < i ==> #[trigger] upper@[j] == uppercase(chars@[j]) && lowered@[j]@ == lowercase_of(
                    chars@[j],
                ),
        decreases chars@.len() - i,
    {
        upper.push(is_uppercase(chars[i]));
        lowered.push(lower_chars(chars[i]));
        i = i + 1;
    }
    let r = kebab_parts(&chars, &upper, &lowered);
    proof {
        let name = variant@;
        lemma_kebab_prefix(
            name,
            upper@,
            lowered@.map_values(|l: Vec<char>| l@),
            Seq::new(name.len(), |i: int| uppercase(name[i])),
            Seq::new(name.len(), |i: int| lowercase_of(name[i])),
        );
    }
    r
}

} // verus!
