//! Character-level text helpers shared by the panels: decimal rendering,
//! substring search, and the conversions between `&str` and `Vec<char>`.

use vstd::prelude::*;

verus! {

broadcast use vstd::string::group_string_axioms;

/// `String::push` appends one character.
pub assume_specification[ String::push ](s: &mut String, ch: char)
    ensures
        final(s)@ == old(s)@.push(ch),
;

/// What `str::to_lowercase` gives for `s`: the Unicode lowercase mapping,
/// character by character, which may change a text's length.
pub uninterp spec fn lowercase(s: Seq<char>) -> Seq<char>;

/// Calls `str::to_lowercase`. Its result is named `lowercase` and depends on
/// the text alone; the Unicode tables behind it are left unstated.
#[verifier::external_body]
pub(crate) fn to_lowercase(s: &str) -> (r: String)
    ensures
        r@ == lowercase(s@),
{
    s.to_lowercase()
}

/// The ASCII digit for `d`, which must be below ten.
pub open spec fn digit_char(d: nat) -> char {
    if d == 0 { '0' }
    else if d == 1 { '1' }
    else if d == 2 { '2' }
    else if d == 3 { '3' }
    else if d == 4 { '4' }
    else if d == 5 { '5' }
    else if d == 6 { '6' }
    else if d == 7 { '7' }
    else if d == 8 { '8' }
    else { '9' }
}

/// The decimal rendering of `n`, without leading zeros (`0` renders as `"0"`).
pub open spec fn decimal(n: nat) -> Seq<char>
    decreases n,
{
    if n < 10 {
        seq![digit_char(n)]
    } else {
        decimal(n / 10).push(digit_char(n % 10))
    }
}

/// `n` rendered in decimal and left-padded with zeros to at least `width`
/// characters.
pub open spec fn zero_padded(n: nat, width: nat) -> Seq<char> {
    let d = decimal(n);
    if d.len() >= width {
        d
    } else {
        Seq::new((width - d.len()) as nat, |i: int| '0') + d
    }
}

/// Whether `needle` occurs in `hay` as a contiguous run.
pub open spec fn has_substring(hay: Seq<char>, needle: Seq<char>) -> bool {
    exists|i: int| 0 <= i <= hay.len() - needle.len() && #[trigger] hay.subrange(i, i + needle.len()) == needle
}

fn digit(d: u128) -> (c: char)
    requires
        d < 10,
    ensures
        c == digit_char(d as nat),
{
    if d == 0 { '0' }
    else if d == 1 { '1' }
    else if d == 2 { '2' }
    else if d == 3 { '3' }
    else if d == 4 { '4' }
    else if d == 5 { '5' }
    else if d == 6 { '6' }
    else if d == 7 { '7' }
    else if d == 8 { '8' }
    else { '9' }
}

/// The decimal digits of `n`, most significant first.
pub fn decimal_chars(n: u128) -> (v: Vec<char>)
    ensures
        v@ == decimal(n as nat),
{
    // Collect the digits least significant first, then reverse them.
    let mut rev: Vec<char> = Vec::new();
    let mut m = n;
    while m >= 10
        invariant
            decimal(n as nat) == decimal(m as nat) + rev@.reverse(),
        decreases m,
    {
        let d = digit(m % 10);
        assert(decimal(m as nat) == decimal((m / 10) as nat).push(digit_char((m % 10) as nat)));
        let ghost old_rev = rev@;
        rev.push(d);
        assert(rev@.reverse() =~= seq![d] + old_rev.reverse());
        assert(decimal(m as nat) + old_rev.reverse() =~= decimal((m / 10) as nat) + rev@.reverse());
        m = m / 10;
    }
    let ghost old_rev = rev@;
    rev.push(digit(m));
    assert(rev@.reverse() =~= seq![digit_char(m as nat)] + old_rev.reverse());
    assert(decimal(n as nat) == rev@.reverse());
    let mut v: Vec<char> = Vec::new();
    let mut i = rev.len();
    while i > 0
        invariant
            i <= rev@.len(),
            v@ == rev@.reverse().subrange(0, (rev@.len() - i) as int),
        decreases i,
    {
        i = i - 1;
        v.push(rev[i]);
        assert(rev@.reverse().subrange(0, (rev@.len() - i) as int) =~= rev@.reverse().subrange(
            0,
            (rev@.len() - i - 1) as int,
        ).push(rev@[i as int]));
    }
    assert(rev@.reverse().subrange(0, rev@.len() as int) =~= rev@.reverse());
    v
}

/// Append the decimal rendering of `n` to `out`.
pub fn push_decimal(out: &mut String, n: u128)
    ensures
        final(out)@ == old(out)@ + decimal(n as nat),
{
    let digits = decimal_chars(n);
    push_chars(out, &digits, 0, digits.len());
    assert(digits@.subrange(0, digits@.len() as int) =~= digits@);
}

/// Append `n` in decimal, left-padded with zeros to at least `width`
/// characters.
pub fn push_zero_padded(out: &mut String, n: u128, width: usize)
    ensures
        final(out)@ == old(out)@ + zero_padded(n as nat, width as nat),
{
    let digits = decimal_chars(n);
    let ghost start = out@;
    let mut pad: usize = 0;
    if digits.len() < width {
        pad = width - digits.len();
    }
    let mut k: usize = 0;
    while k < pad
        invariant
            k <= pad,
            out@ == start + Seq::new(k as nat, |i: int| '0'),
        decreases pad - k,
    {
        out.push('0');
        assert(Seq::new((k + 1) as nat, |i: int| '0') =~= Seq::new(k as nat, |i: int| '0').push('0'));
        k = k + 1;
    }
    push_chars(out, &digits, 0, digits.len());
    assert(digits@.subrange(0, digits@.len() as int) =~= digits@);
    if digits.len() >= width {
        assert(Seq::new(0 as nat, |i: int| '0') =~= Seq::<char>::empty());
        assert(out@ =~= start + zero_padded(n as nat, width as nat));
    } else {
        assert(out@ =~= start + zero_padded(n as nat, width as nat));
    }
}

/// Ten to the power `p`.
pub open spec fn pow10(p: nat) -> nat
    decreases p,
{
    if p == 0 { 1 } else { 10 * pow10((p - 1) as nat) }
}

/// `num / den` rounded to the nearest integer, ties going to the even one —
/// how a fixed-precision decimal rendering rounds an exact value.
pub open spec fn round_half_even(num: nat, den: nat) -> nat {
    let q = num / den;
    let r = num % den;
    if 2 * r > den || (2 * r == den && q % 2 == 1) { q + 1 } else { q }
}

/// `m / 10^p` written with exactly `p` decimals.
pub open spec fn fixed_point(m: nat, p: nat) -> Seq<char> {
    if p == 0 {
        decimal(m)
    } else {
        decimal(m / pow10(p)) + seq!['.'] + zero_padded(m % pow10(p), p)
    }
}

/// `num / den` rounded to the nearest integer, ties to even.
pub fn div_round_half_even(num: u128, den: u128) -> (r: u128)
    requires
        den > 0,
        num / den < u128::MAX,
    ensures
        r == round_half_even(num as nat, den as nat),
{
    let q = num / den;
    let rem = num % den;
    // `2 * rem` is compared without forming it, so a huge `den` cannot overflow.
    let above = rem > den - rem;
    let tie = rem == den - rem;
    if above || (tie && q % 2 == 1) {
        q + 1
    } else {
        q
    }
}

/// Append `m / 10^p` with exactly `p` decimals, for up to two decimals.
pub fn push_fixed(out: &mut String, m: u128, p: u32)
    requires
        p <= 2,
    ensures
        final(out)@ == old(out)@ + fixed_point(m as nat, p as nat),
{
    if p == 0 {
        push_decimal(out, m);
        return;
    }
    let scale: u128 = if p == 1 { 10 } else { 100 };
    assert(scale == pow10(p as nat)) by {
        reveal_with_fuel(pow10, 3);
    }
    push_decimal(out, m / scale);
    out.push('.');
    push_zero_padded(out, m % scale, p as usize);
}

/// The characters of `s`, in order.
pub fn to_chars(s: &str) -> (v: Vec<char>)
    ensures
        v@ == s@,
{
    let mut v: Vec<char> = Vec::new();
    for c in it: s.chars()
        invariant
            it.seq() == s@,
            v@ == it.seq().take(it.index() as int),
    {
        v.push(c);
    }
    v
}

/// Append every character of `chars[from..to]` to `out`.
pub fn push_chars(out: &mut String, chars: &Vec<char>, from: usize, to: usize)
    requires
        from <= to <= chars@.len(),
    ensures
        final(out)@ == old(out)@ + chars@.subrange(from as int, to as int),
{
    let ghost start = out@;
    let mut i = from;
    while i < to
        invariant
            from <= i <= to <= chars@.len(),
            out@ == start + chars@.subrange(from as int, i as int),
        decreases to - i,
    {
        out.push(chars[i]);
        assert(chars@.subrange(from as int, i + 1) =~= chars@.subrange(from as int, i as int).push(
            chars@[i as int],
        ));
        i = i + 1;
    }
}

/// The string made of `chars`.
pub fn from_chars(chars: &Vec<char>) -> (s: String)
    ensures
        s@ == chars@,
{
    let mut s = String::new();
    push_chars(&mut s, chars, 0, chars.len());
    assert(chars@.subrange(0, chars@.len() as int) =~= chars@);
    s
}

/// Whether `needle` occurs in `hay` as a contiguous run.
pub fn contains_chars(hay: &Vec<char>, needle: &Vec<char>) -> (r: bool)
    ensures
        r == has_substring(hay@, needle@),
{
    if needle.len() > hay.len() {
        return false;
    }
    let last = hay.len() - needle.len();
    let mut i: usize = 0;
    loop
        invariant
            i <= last,
            needle@.len() <= hay@.len() <= usize::MAX,
            last == hay@.len() - needle@.len(),
            forall|k: int| 0 <= k < i ==> #[trigger] hay@.subrange(k, k + needle@.len()) != needle@,
        decreases last - i,
    {
        let mut j: usize = 0;
        let mut same = true;
        while j < needle.len()
            invariant
                i <= last,
                needle@.len() <= hay@.len() <= usize::MAX,
                last == hay@.len() - needle@.len(),
                j <= needle@.len(),
                same == (forall|q: int| 0 <= q < j ==> hay@[i + q] == needle@[q]),
            decreases needle@.len() - j,
        {
            if hay[i + j] != needle[j] {
                same = false;
            }
            j = j + 1;
        }
        if same {
            assert(hay@.subrange(i as int, i + needle@.len()) =~= needle@);
            return true;
        }
        assert(hay@.subrange(i as int, i + needle@.len()) != needle@) by {
            let q = choose|q: int| 0 <= q < needle@.len() && hay@[i + q] != needle@[q];
            assert(hay@.subrange(i as int, i + needle@.len())[q] == hay@[i + q]);
        }
        if i == last {
            return false;
        }
        i = i + 1;
    }
}

/// The position of the first character of `s` that is in `set`, or `s.len()`
/// when there is none.
pub open spec fn first_of(s: Seq<char>, set: Seq<char>) -> nat
    decreases s.len(),
{
    if s.len() == 0 {
        0
    } else if set.contains(s[0]) {
        0
    } else {
        1 + first_of(s.drop_first(), set)
    }
}

/// The position of the last `c` in `s`, or `-1` when there is none.
pub open spec fn last_of(s: Seq<char>, c: char) -> int
    decreases s.len(),
{
    if s.len() == 0 {
        -1
    } else if s.last() == c {
        s.len() - 1
    } else {
        last_of(s.drop_last(), c)
    }
}

/// The position of the first occurrence of `pat` in `s`, or `-1`.
pub open spec fn find_pat(s: Seq<char>, pat: Seq<char>) -> int
    decreases s.len(),
{
    if s.len() < pat.len() {
        -1
    } else if s.subrange(0, pat.len() as int) == pat {
        0
    } else if s.len() == 0 {
        -1
    } else {
        let r = find_pat(s.drop_first(), pat);
        if r < 0 { -1 } else { r + 1 }
    }
}

proof fn lemma_first_of(s: Seq<char>, set: Seq<char>, i: int)
    requires
        0 <= i <= s.len(),
        forall|j: int| 0 <= j < i ==> !set.contains(#[trigger] s[j]),
        i < s.len() ==> set.contains(s[i]),
    ensures
        first_of(s, set) == i,
    decreases i,
{
    if i > 0 {
        let t = s.drop_first();
        assert forall|j: int| 0 <= j < i - 1 implies !set.contains(#[trigger] t[j]) by {
            assert(t[j] == s[j + 1]);
        }
        assert(!set.contains(s[0]));
        lemma_first_of(t, set, i - 1);
    }
}

proof fn lemma_last_of(s: Seq<char>, c: char, i: int)
    requires
        -1 <= i < s.len(),
        forall|j: int| i < j < s.len() ==> #[trigger] s[j] != c,
        i >= 0 ==> s[i] == c,
    ensures
        last_of(s, c) == i,
    decreases s.len(),
{
    if s.len() > 0 && i < s.len() - 1 {
        let t = s.drop_last();
        assert forall|j: int| i < j < t.len() implies #[trigger] t[j] != c by {
            assert(t[j] == s[j]);
        }
        assert(s[s.len() - 1] != c);
        lemma_last_of(t, c, i);
    }
}

proof fn lemma_find_pat(s: Seq<char>, pat: Seq<char>, i: int)
    requires
        pat.len() > 0,
        0 <= i,
        i <= s.len() - pat.len() + 1 || s.len() < pat.len(),
        forall|j: int| 0 <= j < i ==> #[trigger] s.subrange(j, j + pat.len()) != pat,
        i + pat.len() <= s.len() ==> s.subrange(i, i + pat.len()) == pat,
        i + pat.len() > s.len() ==> i == s.len() - pat.len() + 1 || s.len() < pat.len(),
    ensures
        find_pat(s, pat) == if i + pat.len() <= s.len() { i } else { -1 },
    decreases s.len(),
{
    if s.len() >= pat.len() && i > 0 {
        let t = s.drop_first();
        assert(s.subrange(0int, 0int + pat.len()) != pat);
        assert(s.subrange(0, pat.len() as int) =~= s.subrange(0int, 0int + pat.len()));
        assert forall|j: int| 0 <= j < i - 1 implies #[trigger] t.subrange(j, j + pat.len()) != pat by {
            assert(t.subrange(j, j + pat.len()) =~= s.subrange(j + 1, j + 1 + pat.len()));
        }
        if i + pat.len() <= s.len() {
            assert(t.subrange(i - 1, i - 1 + pat.len()) =~= s.subrange(i, i + pat.len()));
        }
        lemma_find_pat(t, pat, i - 1);
    }
}

/// The position of the first character of `chars` that is in `set`, or its
/// length when there is none.
pub fn first_index_of(chars: &Vec<char>, set: &Vec<char>) -> (r: usize)
    ensures
        r == first_of(chars@, set@),
        r <= chars@.len(),
{
    let mut i: usize = 0;
    while i < chars.len()
        invariant
            i <= chars@.len(),
            forall|j: int| 0 <= j < i ==> !set@.contains(#[trigger] chars@[j]),
        decreases chars@.len() - i,
    {
        let mut k: usize = 0;
        let mut hit = false;
        while k < set.len()
            invariant
                i < chars@.len(),
                k <= set@.len(),
                hit == (exists|q: int| 0 <= q < k && set@[q] == chars@[i as int]),
            decreases set@.len() - k,
        {
            if set[k] == chars[i] {
                hit = true;
            }
            k = k + 1;
        }
        if hit {
            proof {
                let q = choose|q: int| 0 <= q < k && set@[q] == chars@[i as int];
                assert(set@.contains(chars@[i as int]));
                lemma_first_of(chars@, set@, i as int);
            }
            return i;
        }
        assert(!set@.contains(chars@[i as int])) by {
            if set@.contains(chars@[i as int]) {
                let q = choose|q: int| 0 <= q < set@.len() && set@[q] == chars@[i as int];
            }
        }
        i = i + 1;
    }
    proof {
        lemma_first_of(chars@, set@, i as int);
    }
    i
}

/// The position of the last `c` in `chars`, if any.
pub fn last_index_of(chars: &Vec<char>, c: char) -> (r: Option<usize>)
    ensures
        match r {
            Some(i) => i == last_of(chars@, c) && i < chars@.len() && chars@[i as int] == c,
            None => last_of(chars@, c) == -1,
        },
{
    let mut i = chars.len();
    while i > 0
        invariant
            i <= chars@.len(),
            forall|j: int| i <= j < chars@.len() ==> #[trigger] chars@[j] != c,
        decreases i,
    {
        if chars[i - 1] == c {
            proof {
                lemma_last_of(chars@, c, i - 1);
            }
            return Some(i - 1);
        }
        i = i - 1;
    }
    proof {
        lemma_last_of(chars@, c, -1);
    }
    None
}

/// The position of the first occurrence of `pat` in `chars`, if any.
pub fn find_pattern(chars: &Vec<char>, pat: &Vec<char>) -> (r: Option<usize>)
    requires
        pat@.len() > 0,
    ensures
        match r {
            Some(i) => i == find_pat(chars@, pat@) && i + pat@.len() <= chars@.len(),
            None => find_pat(chars@, pat@) == -1,
        },
{
    if pat.len() > chars.len() {
        proof {
            lemma_find_pat(chars@, pat@, 0);
        }
        return None;
    }
    let last = chars.len() - pat.len();
    let mut i: usize = 0;
    loop
        invariant
            i <= last,
            pat@.len() > 0,
            pat@.len() <= chars@.len() <= usize::MAX,
            last == chars@.len() - pat@.len(),
            forall|k: int| 0 <= k < i ==> #[trigger] chars@.subrange(k, k + pat@.len()) != pat@,
        decreases last - i,
    {
        let mut j: usize = 0;
        let mut same = true;
        while j < pat.len()
            invariant
                i <= last,
                pat@.len() <= chars@.len() <= usize::MAX,
                last == chars@.len() - pat@.len(),
                j <= pat@.len(),
                same == (forall|q: int| 0 <= q < j ==> chars@[i + q] == pat@[q]),
            decreases pat@.len() - j,
        {
            if chars[i + j] != pat[j] {
                same = false;
            }
            j = j + 1;
        }
        if same {
            assert(chars@.subrange(i as int, i + pat@.len()) =~= pat@);
            proof {
                lemma_find_pat(chars@, pat@, i as int);
            }
            return Some(i);
        }
        assert(chars@.subrange(i as int, i + pat@.len()) != pat@) by {
            let q = choose|q: int| 0 <= q < pat@.len() && chars@[i + q] != pat@[q];
            assert(chars@.subrange(i as int, i + pat@.len())[q] == chars@[i + q]);
        }
        if i == last {
            proof {
                lemma_find_pat(chars@, pat@, i + 1);
            }
            return None;
        }
        i = i + 1;
    }
}

/// Whether `c` has the Unicode `White_Space` property, which is what
/// `char::is_whitespace` and `str::trim` go by.
pub open spec fn is_ws(c: char) -> bool {
    let u = c as u32;
    ||| 0x09 <= u <= 0x0D
    ||| u == 0x20
    ||| u == 0x85
    ||| u == 0xA0
    ||| u == 0x1680
    ||| 0x2000 <= u <= 0x200A
    ||| u == 0x2028
    ||| u == 0x2029
    ||| u == 0x202F
    ||| u == 0x205F
    ||| u == 0x3000
}

/// Whether `c` is white space.
pub fn is_whitespace(c: char) -> (r: bool)
    ensures
        r == is_ws(c),
{
    let u = c as u32;
    (0x09 <= u && u <= 0x0D) || u == 0x20 || u == 0x85 || u == 0xA0 || u == 0x1680 || (0x2000 <= u && u
        <= 0x200A) || u == 0x2028 || u == 0x2029 || u == 0x202F || u == 0x205F || u == 0x3000
}

/// `s` without its leading and trailing white space.
pub open spec fn trim_ws(s: Seq<char>) -> Seq<char>
    decreases s.len(),
{
    if s.len() == 0 {
        s
    } else if is_ws(s[0]) {
        trim_ws(s.drop_first())
    } else if is_ws(s.last()) {
        trim_ws(s.drop_last())
    } else {
        s
    }
}

/// The bounds of `chars[lo..hi]` with its leading and trailing white space
/// left out.
pub fn trim_range(chars: &Vec<char>, lo: usize, hi: usize) -> (r: (usize, usize))
    requires
        lo <= hi <= chars@.len(),
    ensures
        lo <= r.0 <= r.1 <= hi,
        chars@.subrange(r.0 as int, r.1 as int) == trim_ws(chars@.subrange(lo as int, hi as int)),
{
    let mut a = lo;
    let mut b = hi;
    loop
        invariant
            lo <= a <= b <= hi <= chars@.len(),
            trim_ws(chars@.subrange(a as int, b as int)) == trim_ws(chars@.subrange(lo as int, hi as int)),
        ensures
            lo <= a <= b <= hi,
            chars@.subrange(a as int, b as int) == trim_ws(chars@.subrange(lo as int, hi as int)),
        decreases b - a,
    {
        let ghost part = chars@.subrange(a as int, b as int);
        if a < b && is_whitespace(chars[a]) {
            assert(part.drop_first() =~= chars@.subrange(a + 1, b as int));
            a = a + 1;
        } else if a < b && is_whitespace(chars[b - 1]) {
            assert(part[0] == chars@[a as int]);
            assert(part.last() == chars@[b - 1]);
            assert(part.drop_last() =~= chars@.subrange(a as int, b - 1));
            b = b - 1;
        } else {
            if a < b {
                assert(part[0] == chars@[a as int]);
                assert(part.last() == chars@[b - 1]);
            }
            break;
        }
    }
    (a, b)
}

/// The pieces of `s` between occurrences of `sep`, as `str::split` gives
/// them: one more piece than there are separators.
pub open spec fn split_on(s: Seq<char>, sep: char) -> Seq<Seq<char>>
    decreases s.len(),
{
    if s.len() == 0 {
        seq![Seq::empty()]
    } else if s.last() == sep {
        split_on(s.drop_last(), sep).push(Seq::empty())
    } else {
        let p = split_on(s.drop_last(), sep);
        p.update(p.len() - 1, p.last().push(s.last()))
    }
}

/// `split_on` always gives at least one piece.
pub proof fn lemma_split_nonempty(s: Seq<char>, sep: char)
    ensures
        split_on(s, sep).len() >= 1,
    decreases s.len(),
{
    if s.len() > 0 {
        lemma_split_nonempty(s.drop_last(), sep);
    }
}

/// Trimming twice trims no more than trimming once.
pub proof fn lemma_trim_idempotent(s: Seq<char>)
    ensures
        trim_ws(trim_ws(s)) == trim_ws(s),
    decreases s.len(),
{
    if s.len() > 0 {
        if is_ws(s[0]) {
            lemma_trim_idempotent(s.drop_first());
        } else if is_ws(s.last()) {
            lemma_trim_idempotent(s.drop_last());
        }
    }
}

/// Whether `a` sorts strictly before `b` character by character, as `str`
/// compares: by code point, a proper prefix first.
pub open spec fn text_lt(a: Seq<char>, b: Seq<char>) -> bool
    decreases a.len(),
{
    if a.len() == 0 {
        b.len() > 0
    } else if b.len() == 0 {
        false
    } else if a[0] != b[0] {
        (a[0] as int) < (b[0] as int)
    } else {
        text_lt(a.drop_first(), b.drop_first())
    }
}

/// Nothing sorts before itself.
pub proof fn lemma_text_lt_irreflexive(a: Seq<char>)
    ensures
        !text_lt(a, a),
    decreases a.len(),
{
    if a.len() > 0 {
        lemma_text_lt_irreflexive(a.drop_first());
    }
}

/// `text_lt` is a strict total order: never both ways, and one way or the
/// other between different texts.
pub proof fn lemma_text_lt_order(a: Seq<char>, b: Seq<char>)
    ensures
        !(text_lt(a, b) && text_lt(b, a)),
        a != b ==> text_lt(a, b) || text_lt(b, a),
    decreases a.len(),
{
    if a.len() == 0 && b.len() == 0 {
        assert(a =~= b);
    } else if a.len() > 0 && b.len() > 0 {
        if a[0] == b[0] {
            lemma_text_lt_order(a.drop_first(), b.drop_first());
            if a != b {
                assert(a.drop_first() != b.drop_first()) by {
                    if a.drop_first() == b.drop_first() {
                        assert(a =~= seq![a[0]] + a.drop_first());
                        assert(b =~= seq![b[0]] + b.drop_first());
                    }
                }
            }
        } else {
            assert((a[0] as int) != (b[0] as int));
        }
    }
}

/// `text_lt` is transitive.
pub proof fn lemma_text_lt_transitive(a: Seq<char>, b: Seq<char>, c: Seq<char>)
    requires
        text_lt(a, b),
        text_lt(b, c),
    ensures
        text_lt(a, c),
    decreases a.len(),
{
    if a.len() > 0 && b.len() > 0 && c.len() > 0 {
        if a[0] == b[0] && b[0] == c[0] {
            lemma_text_lt_transitive(a.drop_first(), b.drop_first(), c.drop_first());
        }
    }
}

/// Whether `a` sorts strictly before `b`, comparing the first `i`
/// characters' tails once they agree up to `i`.
proof fn lemma_text_lt_skip(a: Seq<char>, b: Seq<char>, i: int)
    requires
        0 <= i <= a.len(),
        i <= b.len(),
        a.take(i) == b.take(i),
    ensures
        text_lt(a, b) == text_lt(a.skip(i), b.skip(i)),
    decreases i,
{
    if i == 0 {
        assert(a.skip(0) =~= a);
        assert(b.skip(0) =~= b);
    } else {
        assert(a[0] == a.take(i)[0]);
        assert(b[0] == b.take(i)[0]);
        assert(a.drop_first().take(i - 1) =~= a.take(i).drop_first());
        assert(b.drop_first().take(i - 1) =~= b.take(i).drop_first());
        lemma_text_lt_skip(a.drop_first(), b.drop_first(), i - 1);
        assert(a.drop_first().skip(i - 1) =~= a.skip(i));
        assert(b.drop_first().skip(i - 1) =~= b.skip(i));
    }
}

/// Whether `a` sorts strictly before `b`.
pub fn text_less(a: &Vec<char>, b: &Vec<char>) -> (r: bool)
    ensures
        r == text_lt(a@, b@),
{
    let mut i: usize = 0;
    while i < a.len() && i < b.len() && a[i] == b[i]
        invariant
            i <= a@.len(),
            i <= b@.len(),
            a@.take(i as int) == b@.take(i as int),
        decreases a@.len() - i,
    {
        assert(a@.take(i + 1) =~= a@.take(i as int).push(a@[i as int]));
        assert(b@.take(i + 1) =~= b@.take(i as int).push(b@[i as int]));
        i = i + 1;
    }
    proof {
        lemma_text_lt_skip(a@, b@, i as int);
    }
    if i == a.len() {
        i < b.len()
    } else if i == b.len() {
        false
    } else {
        assert(a@.skip(i as int)[0] == a@[i as int]);
        assert(b@.skip(i as int)[0] == b@[i as int]);
        a[i] < b[i]
    }
}

/// Whether two character lists hold the same text.
pub fn same_chars(a: &Vec<char>, b: &Vec<char>) -> (r: bool)
    ensures
        r == (a@ == b@),
{
    if a.len() != b.len() {
        return false;
    }
    let mut i: usize = 0;
    while i < a.len()
        invariant
            a@.len() == b@.len(),
            i <= a@.len(),
            forall|j: int| 0 <= j < i ==> a@[j] == b@[j],
        decreases a@.len() - i,
    {
        if a[i] != b[i] {
            return false;
        }
        i = i + 1;
    }
    assert(a@ =~= b@);
    true
}

} // verus!
