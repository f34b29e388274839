//! The AI components' logic: a conversation transcript and the reply
//! streamed into it, the model picker's selection, token tallies that
//! saturate rather than wrap, and the short token counts a status bar has
//! room for.

pub mod chatview;
pub mod composer;
pub mod modelpicker;

use vstd::prelude::*;

use crate::devtools::state::{as_f64, f64_of};
use crate::text::{decimal, div_round_half_even, fixed_point, push_decimal, push_fixed, round_half_even};

verus! {

/// A token tally for one request or a whole session.
#[derive(Debug, Clone, Copy, PartialEq, Eq, Structural)]
pub struct AIUsage {
    pub input: u64,
    pub output: u64,
    pub cache_read: u64,
}

/// `a + b`, stuck at the ceiling rather than wrapping.
pub open spec fn sat_add(a: u64, b: u64) -> u64 {
    if a + b > u64::MAX { u64::MAX } else { (a + b) as u64 }
}

impl AIUsage {
    pub fn new(input: u64, output: u64) -> (r: AIUsage)
        ensures
            r == (AIUsage { input, output, cache_read: 0 }),
    {
        AIUsage { input, output, cache_read: 0 }
    }

    pub fn cache_read(self, tokens: u64) -> (r: AIUsage)
        ensures
            r == (AIUsage { cache_read: tokens, ..self }),
    {
        AIUsage { cache_read: tokens, ..self }
    }

    /// Every token that passed through, for a context-window meter.
    pub fn total(self) -> (r: u64)
        ensures
            r == sat_add(sat_add(self.input, self.output), self.cache_read),
    {
        self.input.saturating_add(self.output).saturating_add(self.cache_read)
    }

    /// Session totals are the sum of every request's usage, saturating so a
    /// tally never rolls over to nearly zero.
    pub fn add(self, other: AIUsage) -> (r: AIUsage)
        ensures
            r == (AIUsage {
                input: sat_add(self.input, other.input),
                output: sat_add(self.output, other.output),
                cache_read: sat_add(self.cache_read, other.cache_read),
            }),
    {
        AIUsage {
            input: self.input.saturating_add(other.input),
            output: self.output.saturating_add(other.output),
            cache_read: self.cache_read.saturating_add(other.cache_read),
        }
    }

    /// The sum of `usages`, starting from nothing.
    pub fn sum(usages: &[AIUsage]) -> (r: AIUsage)
        ensures
            r == usage_total(usages@),
    {
        let mut total = AIUsage::default();
        let mut i: usize = 0;
        while i < usages.len()
            invariant
                i <= usages@.len(),
                total == usage_total(usages@.take(i as int)),
            decreases usages@.len() - i,
        {
            assert(usages@.take(i + 1).drop_last() =~= usages@.take(i as int));
            total = total.add(usages[i]);
            i = i + 1;
        }
        assert(usages@.take(usages@.len() as int) =~= usages@);
        total
    }
}

impl Default for AIUsage {
    fn default() -> (r: AIUsage)
        ensures
            r == (AIUsage { input: 0, output: 0, cache_read: 0 }),
    {
        AIUsage { input: 0, output: 0, cache_read: 0 }
    }
}

/// The saturating sum of a list of tallies.
pub open spec fn usage_total(s: Seq<AIUsage>) -> AIUsage
    decreases s.len(),
{
    if s.len() == 0 {
        AIUsage { input: 0, output: 0, cache_read: 0 }
    } else {
        let t = usage_total(s.drop_last());
        let u = s.last();
        AIUsage {
            input: sat_add(t.input, u.input),
            output: sat_add(t.output, u.output),
            cache_read: sat_add(t.cache_read, u.cache_read),
        }
    }
}

/// The plain sum of one field over a list of tallies.
pub open spec fn field_sum(s: Seq<AIUsage>, field: spec_fn(AIUsage) -> u64) -> nat
    decreases s.len(),
{
    if s.len() == 0 {
        0
    } else {
        field_sum(s.drop_last(), field) + field(s.last()) as nat
    }
}

/// `n`, or the ceiling of a `u64` when it does not fit.
pub open spec fn capped(n: nat) -> u64 {
    if n > u64::MAX { u64::MAX } else { n as u64 }
}

/// A session's tally holds, field by field, the sum of that field over
/// every request — input, output and cache reads alike — stuck at the
/// ceiling once it would overflow.
pub proof fn law_sum_adds_every_field(s: Seq<AIUsage>)
    ensures
        usage_total(s).input == capped(field_sum(s, |u: AIUsage| u.input)),
        usage_total(s).output == capped(field_sum(s, |u: AIUsage| u.output)),
        usage_total(s).cache_read == capped(field_sum(s, |u: AIUsage| u.cache_read)),
    decreases s.len(),
{
    if s.len() > 0 {
        law_sum_adds_every_field(s.drop_last());
    }
}

/// `2^k`.
pub open spec fn two_to(k: nat) -> nat
    decreases k,
{
    if k == 0 { 1 } else { 2 * two_to((k - 1) as nat) }
}

/// The binary exponent of `num / den` for a quotient of at least one: the
/// largest `e` with `den * 2^e <= num`.
pub open spec fn exponent(num: nat, den: nat) -> nat
    decreases num - den,
    when den > 0
{
    if num >= 2 * den { 1 + exponent(num, 2 * den) } else { 0 }
}

/// The double nearest `num / den` (ties to even) as a scale `s` and a
/// mantissa `m`, the double being `m / 2^s`; for quotients in
/// `[1, 2^52)`.
pub open spec fn f64_quotient(num: nat, den: nat) -> (nat, nat) {
    let s = (52 - exponent(num, den)) as nat;
    (s, round_half_even(num * two_to(s), den))
}

/// A token count as a status bar shows it: whole below a thousand, then
/// thousands with one decimal below ten thousand and rounded above, then
/// millions with one decimal — each computed the way the double it is
/// formatted from rounds.
pub open spec fn compact_text(n: nat) -> Seq<char> {
    if n <= 999 {
        decimal(n)
    } else if n <= 999_999 {
        let (s, m) = f64_quotient(n, 1000);
        if m < 10 * two_to(s) {
            fixed_point(round_half_even(m * 10, two_to(s)), 1) + seq!['k']
        } else {
            decimal((2 * m + two_to(s)) / two_to(s + 1)) + seq!['k']
        }
    } else {
        let (s, m) = f64_quotient(as_f64(n), 1_000_000);
        fixed_point(round_half_even(m * 10, two_to(s)), 1) + seq!['M']
    }
}

proof fn lemma_two_to_monotone(a: nat, b: nat)
    requires
        a <= b,
    ensures
        1 <= two_to(a) <= two_to(b),
    decreases b,
{
    if a < b {
        lemma_two_to_monotone(a, (b - 1) as nat);
    } else if b > 0 {
        lemma_two_to_monotone(0, (b - 1) as nat);
    }
}

proof fn lemma_exponent_step(num: nat, d: nat)
    requires
        d > 0,
        num >= 2 * d,
    ensures
        exponent(num, d) == 1 + exponent(num, 2 * d),
{
}

proof fn lemma_multiple_below(num: nat, den: nat, x: nat)
    requires
        den > 0,
        x * den <= num,
    ensures
        x <= num / den,
{
    vstd::arithmetic::div_mod::lemma_div_is_ordered((x * den) as int, num as int, den as int);
    vstd::arithmetic::div_mod::lemma_div_by_multiple(x as int, den as int);
}

proof fn lemma_quotient_step(num: nat, den: nat, d: nat, e: nat)
    requires
        den > 0,
        num / den < 0x10_0000_0000_0000,
        d == den * two_to(e),
        2 * d <= num,
        exponent(num, den) == e + exponent(num, d),
    ensures
        2 * d == den * two_to(e + 1),
        exponent(num, den) == (e + 1) + exponent(num, 2 * d),
        e + 1 <= 52,
{
    lemma_two_to_monotone(0, e);
    assert(d > 0) by (nonlinear_arith)
        requires
            d == den * two_to(e),
            den > 0,
            two_to(e) >= 1,
    ;
    lemma_exponent_step(num, d);
    assert(two_to(e + 1) == 2 * two_to(e));
    assert(two_to(e + 1) * den == 2 * d) by (nonlinear_arith)
        requires
            d == den * two_to(e),
            two_to(e + 1) == 2 * two_to(e),
    ;
    lemma_multiple_below(num, den, two_to(e + 1));
    if e + 1 > 52 {
        lemma_two_to_monotone(52, e + 1);
        assert(two_to(52) == 0x10_0000_0000_0000) by {
            reveal_with_fuel(two_to, 53);
        }
    }
}

/// The scale and mantissa of the double nearest `num / den`.
fn quotient(num: u128, den: u128) -> (r: (u32, u128))
    requires
        den > 0,
        num <= 2 * two_to(64),
        num / den < two_to(52),
    ensures
        (r.0 as nat, r.1 as nat) == f64_quotient(num as nat, den as nat),
        r.0 <= 52,
{
    proof {
        assert(two_to(64) == 0x1_0000_0000_0000_0000) by {
            reveal_with_fuel(two_to, 65);
        }
        assert(two_to(52) == 0x10_0000_0000_0000) by {
            reveal_with_fuel(two_to, 53);
        }
    }
    let mut e: u32 = 0;
    let mut d: u128 = den;
    assert(two_to(0) == 1);
    while d <= num / 2
        invariant
            den > 0,
            num <= 0x2_0000_0000_0000_0000,
            num / den < 0x10_0000_0000_0000,
            d == den * two_to(e as nat),
            e <= 52,
            exponent(num as nat, den as nat) == e + exponent(num as nat, d as nat),
        decreases num - d,
    {
        proof {
            lemma_quotient_step(num as nat, den as nat, d as nat, e as nat);
        }
        d = 2 * d;
        e = e + 1;
    }
    proof {
        assert(exponent(num as nat, d as nat) == 0);
        if e == 52 {
            lemma_two_to_monotone(52, 52);
        }
    }
    assert(e < 52 || e == 52);
    let s: u32 = 52 - e;
    let p = crate::binary64::pow2(s);
    proof {
        lemma_two_to_monotone(s as nat, 52);
        assert(two_to(52) == 0x10_0000_0000_0000) by {
            reveal_with_fuel(two_to, 53);
        }
        assert(num * p <= 0x2_0000_0000_0000_0000 * 0x10_0000_0000_0000) by (nonlinear_arith)
            requires
                num <= 0x2_0000_0000_0000_0000,
                p <= 0x10_0000_0000_0000,
        ;
    }
    let scaled = num * p;
    proof {
        vstd::arithmetic::div_mod::lemma_div_is_ordered_by_denominator(scaled as int, 1, den as int);
    }
    let m = div_round_half_even(scaled, den);
    (s, m)
}

proof fn lemma_powers()
    ensures
        two_to(64) == 0x1_0000_0000_0000_0000,
        two_to(52) == 0x10_0000_0000_0000,
{
    assert(two_to(64) == 0x1_0000_0000_0000_0000) by {
        reveal_with_fuel(two_to, 65);
    }
    assert(two_to(52) == 0x10_0000_0000_0000) by {
        reveal_with_fuel(two_to, 53);
    }
}

/// Append `m / 2^s` with one decimal, ties to even.
fn push_tenths(out: &mut String, s: u32, m: u128)
    requires
        s <= 52,
        m <= 0x2_0000_0000_0000_0000 * 0x10_0000_0000_0000,
    ensures
        final(out)@ == old(out)@ + fixed_point(round_half_even(m as nat * 10, two_to(s as nat)), 1),
{
    let p = crate::binary64::pow2(s);
    proof {
        lemma_two_to_monotone(0, s as nat);
    }
    let t = div_round_half_even(m * 10, p);
    push_fixed(out, t, 1);
}

/// The count between a thousand and a million, in thousands.
fn compact_thousands(out: &mut String, n: u64)
    requires
        1000 <= n <= 999_999,
    ensures
        final(out)@ == old(out)@ + compact_text(n as nat),
{
    proof {
        lemma_powers();
    }
    let (s, m) = quotient(n as u128, 1000);
    let p = crate::binary64::pow2(s);
    proof {
        lemma_two_to_monotone(s as nat, 52);
        lemma_two_to_monotone(0, s as nat);
        assert((n as nat) * two_to(s as nat) <= 999_999 * 0x10_0000_0000_0000) by (nonlinear_arith)
            requires
                n <= 999_999,
                two_to(s as nat) <= 0x10_0000_0000_0000,
        ;
        vstd::arithmetic::div_mod::lemma_div_is_ordered_by_denominator(((n as nat) * two_to(s as nat)) as int, 1, 1000);
    }
    if m < 10 * p {
        push_tenths(out, s, m);
    } else {
        push_decimal(out, (2 * m + p) / (2 * p));
    }
    out.push('k');
}

/// The count from a million on, in millions.
fn compact_millions(out: &mut String, n: u64)
    requires
        n > 999_999,
    ensures
        final(out)@ == old(out)@ + compact_text(n as nat),
{
    proof {
        lemma_powers();
    }
    let x = f64_of(n);
    let (s, m) = quotient(x, 1_000_000);
    proof {
        lemma_two_to_monotone(s as nat, 52);
        assert((x as nat) * two_to(s as nat) <= 0x2_0000_0000_0000_0000 * 0x10_0000_0000_0000) by (nonlinear_arith)
            requires
                x <= 0x2_0000_0000_0000_0000,
                two_to(s as nat) <= 0x10_0000_0000_0000,
        ;
        vstd::arithmetic::div_mod::lemma_div_is_ordered_by_denominator(((x as nat) * two_to(s as nat)) as int, 1, 1_000_000);
    }
    push_tenths(out, s, m);
    out.push('M');
}

/// Token counts run to six digits, which is unreadable in a status bar.
pub fn compact(n: u64) -> (r: String)
    ensures
        r@ == compact_text(n as nat),
{
    let mut out = String::new();
    if n <= 999 {
        push_decimal(&mut out, n as u128);
    } else if n <= 999_999 {
        compact_thousands(&mut out, n);
    } else {
        compact_millions(&mut out, n);
    }
    out
}

} // verus!
