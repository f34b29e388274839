//! Binary64 rounding in integers: the double nearest a positive rational,
//! which is what a conversion, a quotient or a product of doubles gives. A
//! value is kept as a numerator over a power of two.

use vstd::prelude::*;

use crate::ai::{exponent, two_to};
use crate::text::{div_round_half_even, round_half_even};

verus! {

/// For `0 < p < q`: the least `k` with `p * 2^k >= q`, so that `p / q` lies
/// in `[2^-k, 2^(1-k))`.
pub open spec fn shortfall(p: nat, q: nat) -> nat
    decreases q - p,
    when p > 0
{
    if p >= q {
        0
    } else if 2 * p >= q {
        1
    } else {
        1 + shortfall(2 * p, q)
    }
}

/// The double nearest `p / q`, ties to even, as `(num, den)` with the value
/// `num / den`: the quotient's binade fixes a spacing of `2^(e - 52)`, and
/// the quotient is rounded to a multiple of it. Zero stays zero. Quotients
/// here stay within the normal range of the format.
pub open spec fn nearest(p: nat, q: nat) -> (nat, nat) {
    if p == 0 {
        (0, 1)
    } else if p >= q {
        let e = exponent(p, q);
        if e <= 52 {
            let s = (52 - e) as nat;
            (round_half_even(p * two_to(s), q), two_to(s))
        } else {
            let t = (e - 52) as nat;
            (round_half_even(p, q * two_to(t)) * two_to(t), 1)
        }
    } else {
        let s = 52 + shortfall(p, q);
        (round_half_even(p * two_to(s), q), two_to(s))
    }
}

pub(crate) proof fn lemma_two_to_add(a: nat, b: nat)
    ensures
        two_to(a + b) == two_to(a) * two_to(b),
    decreases a,
{
    if a == 0 {
        assert(two_to(0) == 1);
        assert(a + b == b);
    } else {
        let a1 = (a - 1) as nat;
        lemma_two_to_add(a1, b);
        assert(a1 + b + 1 == a + b);
        assert(two_to(a1 + b + 1) == 2 * two_to(a1 + b));
        assert(two_to(a) == 2 * two_to(a1));
        assert(two_to(a) * two_to(b) == 2 * (two_to(a1) * two_to(b))) by (nonlinear_arith)
            requires
                two_to(a) == 2 * two_to(a1),
        ;
    }
}

pub(crate) proof fn lemma_two_to_grows(a: nat, b: nat)
    requires
        a <= b,
    ensures
        1 <= two_to(a) <= two_to(b),
    decreases b,
{
    if a < b {
        lemma_two_to_grows(a, (b - 1) as nat);
    } else if b > 0 {
        lemma_two_to_grows(0, (b - 1) as nat);
    }
}

proof fn lemma_two_to_44()
    ensures
        two_to(44) == 0x1000_0000_0000,
{
    reveal_with_fuel(two_to, 45);
}

proof fn lemma_two_to_52()
    ensures
        two_to(52) == 0x10_0000_0000_0000,
{
    lemma_two_to_44();
    lemma_two_to_add(44, 8);
    assert(two_to(8) == 256) by {
        reveal_with_fuel(two_to, 9);
    }
}

proof fn lemma_two_to_63()
    ensures
        two_to(60) == 0x1000_0000_0000_0000,
        two_to(63) == 0x8000_0000_0000_0000,
{
    lemma_two_to_52();
    lemma_two_to_add(52, 8);
    lemma_two_to_add(52, 11);
    assert(two_to(8) == 256) by {
        reveal_with_fuel(two_to, 9);
    }
    assert(two_to(11) == 2048) by {
        reveal_with_fuel(two_to, 12);
    }
}

pub(crate) proof fn lemma_two_to_values()
    ensures
        two_to(0) == 1,
        two_to(44) == 0x1000_0000_0000,
        two_to(52) == 0x10_0000_0000_0000,
        two_to(53) == 0x20_0000_0000_0000,
        two_to(60) == 0x1000_0000_0000_0000,
        two_to(63) == 0x8000_0000_0000_0000,
        two_to(126) == 0x4000_0000_0000_0000_0000_0000_0000_0000,
        two_to(127) == 0x8000_0000_0000_0000_0000_0000_0000_0000,
        two_to(128) == 0x1_0000_0000_0000_0000_0000_0000_0000_0000,
{
    lemma_two_to_44();
    lemma_two_to_52();
    lemma_two_to_63();
    assert(two_to(53) == 2 * two_to(52));
    lemma_two_to_add(63, 63);
    assert(two_to(127) == 2 * two_to(126));
    assert(two_to(128) == 2 * two_to(127));
}

/// The exponent is fixed by the binade the quotient lies in.
proof fn lemma_exponent_binade(p: nat, q: nat, e: nat)
    requires
        q > 0,
        q * two_to(e) <= p,
        p < q * two_to(e + 1),
    ensures
        exponent(p, q) == e,
    decreases e,
{
    assert(two_to(e + 1) == 2 * two_to(e));
    if e == 0 {
        assert(two_to(0) == 1);
        assert(q * two_to(e + 1) == 2 * q) by (nonlinear_arith)
            requires
                two_to(e + 1) == 2 * two_to(e),
                two_to(e) == 1,
        ;
        assert(!(p >= 2 * q));
    } else {
        let e1 = (e - 1) as nat;
        assert(two_to(e) == 2 * two_to(e1));
        lemma_two_to_grows(0, e1);
        assert(q * two_to(e) == (2 * q) * two_to(e1)) by (nonlinear_arith)
            requires
                two_to(e) == 2 * two_to(e1),
        ;
        assert(q * two_to(e + 1) == (2 * q) * two_to(e1 + 1)) by (nonlinear_arith)
            requires
                two_to(e + 1) == 2 * two_to(e),
                two_to(e) == 2 * two_to(e1),
                two_to(e1 + 1) == 2 * two_to(e1),
        ;
        assert(2 * q <= q * two_to(e)) by (nonlinear_arith)
            requires
                two_to(e) == 2 * two_to(e1),
                two_to(e1) >= 1,
        ;
        lemma_exponent_binade(p, 2 * q, e1);
        assert(p >= 2 * q);
        assert(exponent(p, q) == 1 + exponent(p, 2 * q));
    }
}

/// The shortfall is fixed by the binade the quotient lies in.
proof fn lemma_shortfall_binade(p: nat, q: nat, k: nat)
    requires
        p > 0,
        k >= 1,
        p * two_to((k - 1) as nat) < q,
        q <= p * two_to(k),
    ensures
        shortfall(p, q) == k,
    decreases k,
{
    let k1 = (k - 1) as nat;
    assert(two_to(k) == 2 * two_to(k1));
    lemma_two_to_grows(0, k1);
    assert(p <= p * two_to(k1)) by (nonlinear_arith)
        requires
            two_to(k1) >= 1,
    ;
    if k == 1 {
        assert(two_to(0) == 1);
        assert(two_to(1) == 2) by {
            reveal_with_fuel(two_to, 2);
        }
        assert(p * two_to(0) == p && p * two_to(1) == 2 * p) by (nonlinear_arith)
            requires
                two_to(0) == 1,
                two_to(1) == 2,
        ;
        assert(p < q && 2 * p >= q);
    } else {
        let k2 = (k1 - 1) as nat;
        assert(two_to(k1) == 2 * two_to(k2));
        lemma_two_to_grows(0, k2);
        assert(2 * p <= p * two_to(k1)) by (nonlinear_arith)
            requires
                two_to(k1) == 2 * two_to(k2),
                two_to(k2) >= 1,
        ;
        assert(p * two_to(k1) == (2 * p) * two_to(k2)) by (nonlinear_arith)
            requires
                two_to(k1) == 2 * two_to(k2),
        ;
        assert(p * two_to(k) == (2 * p) * two_to(k1)) by (nonlinear_arith)
            requires
                two_to(k) == 2 * two_to(k1),
        ;
        lemma_shortfall_binade(2 * p, q, k1);
        assert(p < q && 2 * p < q);
        assert(shortfall(p, q) == 1 + shortfall(2 * p, q));
    }
}

/// Scaling both sides of a quotient does not change how it rounds.
proof fn lemma_round_scaled(a: nat, b: nat, c: nat)
    requires
        b > 0,
        c > 0,
    ensures
        round_half_even(a * c, b * c) == round_half_even(a, b),
{
    let q = a / b;
    let r = a % b;
    vstd::arithmetic::div_mod::lemma_fundamental_div_mod(a as int, b as int);
    assert(a * c == q * (b * c) + r * c) by (nonlinear_arith)
        requires
            a == b * q + r,
    ;
    assert(0 <= r * c < b * c) by (nonlinear_arith)
        requires
            0 <= r < b,
            c > 0,
    ;
    vstd::arithmetic::div_mod::lemma_fundamental_div_mod_converse(
        (a * c) as int,
        (b * c) as int,
        q as int,
        (r * c) as int,
    );
    assert(2 * (r * c) > b * c <==> 2 * r > b) by (nonlinear_arith)
        requires
            c > 0,
    ;
    assert(2 * (r * c) == b * c <==> 2 * r == b) by (nonlinear_arith)
        requires
            c > 0,
    ;
}

/// Adding an even multiple of the denominator adds it to the rounding: the
/// parity that breaks ties is kept.
proof fn lemma_round_shifted(x: nat, j: nat, d: nat)
    requires
        d > 0,
    ensures
        round_half_even(x + (2 * j) * d, d) == round_half_even(x, d) + 2 * j,
{
    vstd::arithmetic::div_mod::lemma_fundamental_div_mod(x as int, d as int);
    let q = x / d;
    let r = x % d;
    assert(x + (2 * j) * d == (q + 2 * j) * d + r) by (nonlinear_arith)
        requires
            x == d * q + r,
    ;
    vstd::arithmetic::div_mod::lemma_fundamental_div_mod_converse(
        (x + (2 * j) * d) as int,
        d as int,
        (q + 2 * j) as int,
        r as int,
    );
    assert((q + 2 * j) % 2 == q % 2);
}

/// A rounded quotient below `m` in value rounds to at most `m`, and one at
/// least `m` rounds to at least `m`.
pub(crate) proof fn lemma_round_bounds(x: nat, d: nat, m: nat)
    requires
        d > 0,
    ensures
        x < d * m ==> round_half_even(x, d) <= m,
        x >= d * m ==> round_half_even(x, d) >= m,
        round_half_even(x, d) <= x / d + 1,
{
    vstd::arithmetic::div_mod::lemma_fundamental_div_mod(x as int, d as int);
    if x < d * m {
        assert(x / d < m) by (nonlinear_arith)
            requires
                x < d * m,
                x == d * (x / d) + x % d,
                x % d >= 0,
                d > 0,
        ;
    }
    if x >= d * m {
        assert(x / d >= m) by (nonlinear_arith)
            requires
                x >= d * m,
                x == d * (x / d) + x % d,
                x % d < d,
                d > 0,
        ;
    }
}

/// A quotient more than half a unit below `m` rounds to below `m`.
pub(crate) proof fn lemma_round_below(x: nat, d: nat, m: nat)
    requires
        d > 0,
        m > 0,
        2 * x + d < 2 * (d * m),
    ensures
        round_half_even(x, d) < m,
{
    vstd::arithmetic::div_mod::lemma_fundamental_div_mod(x as int, d as int);
    let q = x / d;
    let r = x % d;
    assert(q < m) by (nonlinear_arith)
        requires
            x == d * q + r,
            r >= 0,
            2 * x + d < 2 * (d * m),
            d > 0,
    ;
    if q == m - 1 {
        assert(2 * r < d) by (nonlinear_arith)
            requires
                x == d * q + r,
                q == m - 1,
                2 * x + d < 2 * (d * m),
        ;
    }
}

/// `2^k` as a machine number.
pub(crate) fn pow2(k: u32) -> (r: u128)
    requires
        k <= 126,
    ensures
        r == two_to(k as nat),
{
    let mut r: u128 = 1;
    let mut i: u32 = 0;
    while i < k
        invariant
            i <= k <= 126,
            r == two_to(i as nat),
        decreases k - i,
    {
        proof {
            lemma_two_to_grows((i + 1) as nat, 126);
            lemma_two_to_values();
        }
        r = r * 2;
        i = i + 1;
    }
    r
}

/// The binade of `p / q` for `p >= q`.
fn exponent_of(p: u128, q: u128) -> (e: u32)
    requires
        0 < q <= p,
    ensures
        e == exponent(p as nat, q as nat),
        e <= 127,
        q * two_to(e as nat) <= p,
        p < q * two_to(e as nat + 1),
{
    let mut d: u128 = q;
    let mut e: u32 = 0;
    assert(two_to(0) == 1);
    while d <= p / 2
        invariant
            0 < q <= d <= p,
            d == q * two_to(e as nat),
            e <= 127,
            two_to(e as nat) <= d,
        decreases p - d,
    {
        proof {
            assert(two_to(e as nat + 1) == 2 * two_to(e as nat));
            assert(q * two_to(e as nat + 1) == 2 * d) by (nonlinear_arith)
                requires
                    d == q * two_to(e as nat),
                    two_to(e as nat + 1) == 2 * two_to(e as nat),
            ;
            lemma_two_to_values();
            if e >= 127 {
                lemma_two_to_grows(127, e as nat);
            }
        }
        d = d * 2;
        e = e + 1;
    }
    proof {
        assert(two_to(e as nat + 1) == 2 * two_to(e as nat));
        assert(q * two_to(e as nat + 1) == 2 * d) by (nonlinear_arith)
            requires
                d == q * two_to(e as nat),
                two_to(e as nat + 1) == 2 * two_to(e as nat),
        ;
        lemma_exponent_binade(p as nat, q as nat, e as nat);
    }
    e
}

/// The shortfall of `p / q` for `0 < p < q`.
fn shortfall_of(p: u128, q: u128) -> (k: u32)
    requires
        0 < p < q,
    ensures
        k == shortfall(p as nat, q as nat),
        1 <= k <= 128,
        p * two_to((k - 1) as nat) < q,
        q <= p * two_to(k as nat),
{
    let mut m: u128 = p;
    let mut k: u32 = 0;
    assert(two_to(0) == 1);
    while m < q - m
        invariant
            0 < p <= m < q,
            m == p * two_to(k as nat),
            two_to(k as nat) <= m,
            k <= 127,
        decreases q - m,
    {
        proof {
            assert(two_to(k as nat + 1) == 2 * two_to(k as nat));
            assert(p * two_to(k as nat + 1) == 2 * m) by (nonlinear_arith)
                requires
                    m == p * two_to(k as nat),
                    two_to(k as nat + 1) == 2 * two_to(k as nat),
            ;
            lemma_two_to_values();
            assert(two_to(k as nat + 1) <= 2 * m);
            if k >= 127 {
                lemma_two_to_grows(128, k as nat + 1);
            }
        }
        m = m * 2;
        k = k + 1;
    }
    proof {
        assert(two_to(k as nat + 1) == 2 * two_to(k as nat));
        assert(p * two_to(k as nat + 1) == 2 * m) by (nonlinear_arith)
            requires
                m == p * two_to(k as nat),
                two_to(k as nat + 1) == 2 * two_to(k as nat),
        ;
        lemma_shortfall_binade(p as nat, q as nat, k as nat + 1);
    }
    k + 1
}

/// `p * 2^s / q` rounded, for a quotient in `[2^52, 2^53)`: a significand.
fn significand(p: u128, q: u128, s: u32) -> (num: u128)
    requires
        q > 0,
        s <= 126,
        q * two_to(52) <= p * two_to(s as nat),
        p * two_to(s as nat) < q * two_to(53),
        p * two_to(s as nat) <= u128::MAX,
    ensures
        num == round_half_even(p as nat * two_to(s as nat), q as nat),
        two_to(52) <= num <= two_to(53),
{
    let scale = pow2(s);
    proof {
        lemma_round_bounds((p * scale) as nat, q as nat, two_to(53));
        lemma_round_bounds((p * scale) as nat, q as nat, two_to(52));
        lemma_two_to_values();
        assert(((p * scale) as u128) / q < u128::MAX) by (nonlinear_arith)
            requires
                p * scale <= u128::MAX,
                q > 0,
                p * scale < q * 0x20_0000_0000_0000,
        ;
    }
    div_round_half_even(p * scale, q)
}

/// The double nearest `p / q` for `p >= q * 2^53`: an integer that is a
/// multiple of its spacing `2^t`.
fn nearest_large(p: u128, q: u128, e: u32) -> (r: u128)
    requires
        q > 0,
        p <= 0x1_0000_0000_0000_0000_0000,
        53 <= e <= 127,
        q * two_to(e as nat) <= p,
    ensures
        r == round_half_even(p as nat, q as nat * two_to((e - 52) as nat)) * two_to((e - 52) as nat),
        r <= 2 * p,
{
    let t = e - 52;
    proof {
        lemma_two_to_add(t as nat, 52);
        lemma_two_to_grows(0, 52);
        lemma_two_to_grows(1, t as nat);
        assert(two_to(1) == 2) by {
            reveal_with_fuel(two_to, 2);
        }
        assert(q * two_to(t as nat) <= q * two_to(e as nat)) by (nonlinear_arith)
            requires
                two_to(e as nat) == two_to(t as nat) * two_to(52),
                two_to(52) >= 1,
        ;
    }
    let unit = pow2(t);
    let d = q * unit;
    proof {
        assert(d >= 2) by (nonlinear_arith)
            requires
                d == q * unit,
                q >= 1,
                unit >= 2,
        ;
        assert(p / d < u128::MAX) by (nonlinear_arith)
            requires
                d >= 2,
                p <= u128::MAX,
        ;
    }
    let rounded = div_round_half_even(p, d);
    proof {
        lemma_round_bounds(p as nat, d as nat, 0);
        vstd::arithmetic::div_mod::lemma_fundamental_div_mod(p as int, d as int);
        assert(rounded * unit <= 2 * p) by (nonlinear_arith)
            requires
                rounded <= p / d + 1,
                d <= p,
                d == q * unit,
                q >= 1,
                p == d * (p / d) + p % d,
                p % d >= 0,
        ;
    }
    rounded * unit
}

/// The double nearest `p / q`, as a numerator and the power of two it is
/// over. Normal results have 53 significant bits.
pub(crate) fn nearest_of(p: u128, q: u128) -> (r: (u128, u32))
    requires
        0 < q <= 0x1000_0000_0000_0000,
        p <= 0x1_0000_0000_0000_0000_0000,
    ensures
        nearest(p as nat, q as nat) == (r.0 as nat, two_to(r.1 as nat)),
        r.1 <= 112,
        r.1 > 0 ==> two_to(52) <= r.0 <= two_to(53),
        r.1 == 0 ==> r.0 <= 2 * p,
{
    proof {
        lemma_two_to_values();
    }
    if p == 0 {
        return (0, 0);
    }
    if p >= q {
        let e = exponent_of(p, q);
        if e <= 52 {
            let s = 52 - e;
            proof {
                lemma_two_to_add(e as nat + 1, s as nat);
                lemma_two_to_add(e as nat, s as nat);
                lemma_two_to_grows(0, s as nat);
                assert(p * two_to(s as nat) < q * two_to(53)) by (nonlinear_arith)
                    requires
                        p < q * two_to(e as nat + 1),
                        two_to(53) == two_to(e as nat + 1) * two_to(s as nat),
                        two_to(s as nat) >= 1,
                ;
                assert(p * two_to(s as nat) >= q * two_to(52)) by (nonlinear_arith)
                    requires
                        q * two_to(e as nat) <= p,
                        two_to(52) == two_to(e as nat) * two_to(s as nat),
                        two_to(s as nat) >= 1,
                ;
            }
            let num = significand(p, q, s);
            (num, s)
        } else {
            (nearest_large(p, q, e), 0)
        }
    } else {
        let k = shortfall_of(p, q);
        proof {
            assert(k <= 60) by {
                if k > 60 {
                    lemma_two_to_grows(60, (k - 1) as nat);
                    assert(p * two_to((k - 1) as nat) >= two_to((k - 1) as nat)) by (nonlinear_arith)
                        requires
                            p >= 1,
                    ;
                }
            }
            lemma_two_to_add(53, (k - 1) as nat);
            lemma_two_to_add(52, k as nat);
            assert(p * two_to(52 + k as nat) < q * two_to(53)) by (nonlinear_arith)
                requires
                    p * two_to((k - 1) as nat) < q,
                    two_to(52 + k as nat) == two_to(53) * two_to((k - 1) as nat),
                    two_to(53) > 0,
            ;
            assert(p * two_to(52 + k as nat) >= q * two_to(52)) by (nonlinear_arith)
                requires
                    q <= p * two_to(k as nat),
                    two_to(52 + k as nat) == two_to(52) * two_to(k as nat),
                    two_to(52) > 0,
            ;
        }
        let s = 52 + k;
        let num = significand(p, q, s);
        (num, s)
    }
}

/// `p * 2^s / 2^sh` rounded, for a quotient in `[2^52, 2^53)`, without
/// forming the wide product.
fn significand_pow2(p: u128, s: u32, sh: u32) -> (num: u128)
    requires
        s <= 126,
        sh <= 126,
        p <= 0x1_0000_0000_0000_0000_0000,
        two_to(sh as nat) * two_to(52) <= p * two_to(s as nat),
        p * two_to(s as nat) < two_to(sh as nat) * two_to(53),
    ensures
        num == round_half_even(p as nat * two_to(s as nat), two_to(sh as nat)),
        two_to(52) <= num <= two_to(53),
{
    proof {
        lemma_two_to_values();
        lemma_two_to_grows(0, s as nat);
        lemma_two_to_grows(0, sh as nat);
        lemma_round_bounds(p as nat * two_to(s as nat), two_to(sh as nat), two_to(53));
        lemma_round_bounds(p as nat * two_to(s as nat), two_to(sh as nat), two_to(52));
    }
    if s >= sh {
        let gap = s - sh;
        proof {
            lemma_two_to_add(gap as nat, sh as nat);
            lemma_two_to_grows(0, gap as nat);
            assert(p * two_to(s as nat) == (p * two_to(gap as nat)) * two_to(sh as nat)) by (nonlinear_arith)
                requires
                    two_to(s as nat) == two_to(gap as nat) * two_to(sh as nat),
            ;
            assert(p * two_to(gap as nat) < two_to(53)) by (nonlinear_arith)
                requires
                    (p * two_to(gap as nat)) * two_to(sh as nat) < two_to(sh as nat) * two_to(53),
                    two_to(sh as nat) > 0,
            ;
            lemma_round_scaled(p as nat * two_to(gap as nat), 1, two_to(sh as nat));
            assert(round_half_even(p as nat * two_to(gap as nat), 1) == p as nat * two_to(gap as nat));
        }
        let scale = pow2(gap);
        p * scale
    } else {
        let gap = sh - s;
        proof {
            lemma_two_to_add(gap as nat, s as nat);
            lemma_two_to_grows(0, gap as nat);
            lemma_round_scaled(p as nat, two_to(gap as nat), two_to(s as nat));
            assert(p as nat * two_to(s as nat) == p as nat * two_to(s as nat));
            assert(two_to(gap as nat) * two_to(s as nat) == two_to(sh as nat));
        }
        let den = pow2(gap);
        proof {
            assert(p / den < u128::MAX) by (nonlinear_arith)
                requires
                    den >= 1,
                    p <= 0x1_0000_0000_0000_0000_0000,
            ;
        }
        div_round_half_even(p, den)
    }
}

/// The double nearest `p / 2^sh`, as a numerator and the power of two it is
/// over.
pub(crate) fn nearest_pow2(p: u128, sh: u32) -> (r: (u128, u32))
    requires
        sh <= 112,
        p <= 0x1_0000_0000_0000_0000_0000,
        p == 0 || p * two_to(60) >= two_to(sh as nat),
    ensures
        nearest(p as nat, two_to(sh as nat)) == (r.0 as nat, two_to(r.1 as nat)),
        r.1 <= 112,
        r.1 > 0 ==> two_to(52) <= r.0 <= two_to(53),
        r.1 == 0 ==> r.0 <= 2 * p,
{
    proof {
        lemma_two_to_values();
    }
    if p == 0 {
        return (0, 0);
    }
    let q = pow2(sh);
    proof {
        lemma_two_to_grows(0, sh as nat);
    }
    if p >= q {
        let e = exponent_of(p, q);
        if e <= 52 {
            let s = 52 - e;
            proof {
                lemma_two_to_add(e as nat + 1, s as nat);
                lemma_two_to_add(e as nat, s as nat);
                lemma_two_to_grows(0, s as nat);
                assert(p * two_to(s as nat) < q * two_to(53)) by (nonlinear_arith)
                    requires
                        p < q * two_to(e as nat + 1),
                        two_to(53) == two_to(e as nat + 1) * two_to(s as nat),
                        two_to(s as nat) >= 1,
                ;
                assert(p * two_to(s as nat) >= q * two_to(52)) by (nonlinear_arith)
                    requires
                        q * two_to(e as nat) <= p,
                        two_to(52) == two_to(e as nat) * two_to(s as nat),
                        two_to(s as nat) >= 1,
                ;
            }
            let num = significand_pow2(p, s, sh);
            (num, s)
        } else {
            (nearest_large(p, q, e), 0)
        }
    } else {
        let k = shortfall_of(p, q);
        proof {
            assert(k <= 60) by {
                if k > 60 {
                    lemma_two_to_grows(60, (k - 1) as nat);
                    assert(p * two_to((k - 1) as nat) >= p * two_to(60)) by (nonlinear_arith)
                        requires
                            two_to((k - 1) as nat) >= two_to(60),
                            p >= 1,
                    ;
                }
            }
            lemma_two_to_add(53, (k - 1) as nat);
            lemma_two_to_add(52, k as nat);
            assert(p * two_to(52 + k as nat) < q * two_to(53)) by (nonlinear_arith)
                requires
                    p * two_to((k - 1) as nat) < q,
                    two_to(52 + k as nat) == two_to(53) * two_to((k - 1) as nat),
                    two_to(53) > 0,
            ;
            assert(p * two_to(52 + k as nat) >= q * two_to(52)) by (nonlinear_arith)
                requires
                    q <= p * two_to(k as nat),
                    two_to(52 + k as nat) == two_to(52) * two_to(k as nat),
                    two_to(52) > 0,
            ;
        }
        let s = 52 + k;
        let num = significand_pow2(p, s, sh);
        (num, s)
    }
}

/// The double nearest `a + num / 2^sh`, for a double `a` that is a whole
/// number and a fraction `num / 2^sh` below one: the sum the two round to.
pub(crate) fn sum_of(a: u128, num: u128, sh: u32) -> (r: (u128, u32))
    requires
        a <= 0x2_0000_0000_0000_0000,
        sh <= 112,
        num <= 0x20_0000_0000_0000,
        num < two_to(sh as nat),
        num == 0 || num * two_to(60) >= two_to(sh as nat),
    ensures
        nearest(a as nat * two_to(sh as nat) + num as nat, two_to(sh as nat)) == (r.0 as nat, two_to(r.1 as nat)),
        r.1 <= 112,
        r.1 > 0 ==> two_to(52) <= r.0 <= two_to(53),
        r.1 == 0 ==> r.0 <= 0x8_0000_0000_0000_0000,
{
    proof {
        lemma_two_to_values();
        lemma_two_to_grows(0, sh as nat);
    }
    let q = pow2(sh);
    let ghost big: nat = a as nat * two_to(sh as nat) + num as nat;
    if a == 0 {
        assert(big == num) by (nonlinear_arith)
            requires
                a == 0,
                big == a * two_to(sh as nat) + num,
        ;
        let r = nearest_pow2(num, sh);
        return r;
    }
    let e = exponent_of(a, 1);
    proof {
        assert(two_to(e as nat) <= a && a < two_to(e as nat + 1)) by (nonlinear_arith)
            requires
                1 * two_to(e as nat) <= a,
                a < 1 * two_to(e as nat + 1),
        ;
        assert(q * two_to(e as nat) <= big && big < q * two_to(e as nat + 1)) by (nonlinear_arith)
            requires
                two_to(e as nat) <= a,
                a + 1 <= two_to(e as nat + 1),
                big == a * q + num,
                num < q,
                q > 0,
        ;
        lemma_exponent_binade(big, q as nat, e as nat);
        assert(big >= q) by (nonlinear_arith)
            requires
                big == a * q + num,
                a >= 1,
        ;
        if e > 65 {
            lemma_two_to_grows(66, e as nat);
            assert(two_to(66) == 4 * two_to(64)) by {
                reveal_with_fuel(two_to, 3);
                lemma_two_to_add(2, 64);
            }
            lemma_two_to_add(1, 63);
            assert(two_to(1) == 2) by {
                reveal_with_fuel(two_to, 2);
            }
        }
    }
    if e <= 52 {
        let s = 52 - e;
        proof {
            lemma_two_to_add(e as nat + 1, s as nat);
            lemma_two_to_add(e as nat, s as nat);
            lemma_two_to_grows(0, s as nat);
            lemma_two_to_grows(s as nat, 52);
            assert(a * two_to(s as nat) < two_to(53)) by (nonlinear_arith)
                requires
                    a < two_to(e as nat + 1),
                    two_to(53) == two_to(e as nat + 1) * two_to(s as nat),
                    two_to(s as nat) >= 1,
            ;
            assert(num * two_to(s as nat) <= 0x20_0000_0000_0000 * 0x10_0000_0000_0000) by (nonlinear_arith)
                requires
                    num <= 0x20_0000_0000_0000,
                    two_to(s as nat) <= 0x10_0000_0000_0000,
            ;
            lemma_two_to_grows(sh as nat, 112);
            lemma_two_to_add(60, 52);
        }
        let scale = pow2(s);
        let k = a * scale;
        let odd = k % 2;
        proof {
            assert(odd * q <= q) by (nonlinear_arith)
                requires
                    odd <= 1,
            ;
            assert(q <= 0x1_0000_0000_0000_0000_0000_0000_0000);
        }
        let x = num * scale + odd * q;
        let j = k / 2;
        proof {
            assert(big * scale == x + (2 * j) * q) by (nonlinear_arith)
                requires
                    big == a * q + num,
                    k == a * scale,
                    k == 2 * j + odd,
                    x == num * scale + odd * q,
            ;
            lemma_round_shifted(x as nat, j as nat, q as nat);
            assert(big * scale >= q * two_to(52) && big * scale < q * two_to(53)) by (nonlinear_arith)
                requires
                    q * two_to(e as nat) <= big,
                    big < q * two_to(e as nat + 1),
                    two_to(53) == two_to(e as nat + 1) * scale,
                    two_to(52) == two_to(e as nat) * scale,
                    scale >= 1,
            ;
            lemma_round_bounds(big * scale as nat, q as nat, two_to(53));
            lemma_round_bounds(big * scale as nat, q as nat, two_to(52));
            assert(x / q < u128::MAX) by (nonlinear_arith)
                requires
                    q >= 1,
                    x <= 0x4_0000_0000_0000_0000_0000_0000_0000,
            ;
        }
        let rounded = div_round_half_even(x, q);
        (rounded + 2 * j, s)
    } else {
        let t = e - 52;
        let unit = pow2(t);
        proof {
            lemma_two_to_grows(0, t as nat);
        }
        let hi = a / unit;
        let lo = a % unit;
        let hodd = hi % 2;
        let j = hi / 2;
        proof {
            lemma_two_to_add(sh as nat, t as nat);
            lemma_two_to_grows(0, t as nat);
            assert(t <= 13);
            lemma_two_to_grows(t as nat, 13);
            assert(two_to(13) == 0x2000) by {
                reveal_with_fuel(two_to, 14);
            }
            lemma_two_to_grows((sh + t) as nat, 125);
            assert(two_to(125) == 0x2000_0000_0000_0000_0000_0000_0000_0000) by {
                assert(two_to(126) == 2 * two_to(125));
            }
        }
        let d = pow2(sh + t);
        proof {
            vstd::arithmetic::div_mod::lemma_fundamental_div_mod(a as int, unit as int);
            assert(d == q * unit);
            assert(lo * q + num < d) by (nonlinear_arith)
                requires
                    lo < unit,
                    num < q,
                    d == q * unit,
            ;
            assert(hodd * d <= d) by (nonlinear_arith)
                requires
                    hodd <= 1,
            ;
        }
        let x = lo * q + num + hodd * d;
        proof {
            vstd::arithmetic::div_mod::lemma_fundamental_div_mod(a as int, unit as int);
            assert(d == q * unit);
            assert(lo * q + num < d) by (nonlinear_arith)
                requires
                    lo < unit,
                    num < q,
                    d == q * unit,
            ;
            assert(big == x + (2 * j) * d) by (nonlinear_arith)
                requires
                    big == a * q + num,
                    a == unit * hi + lo,
                    hi == 2 * j + hodd,
                    x == lo * q + num + hodd * d,
                    d == q * unit,
            ;
            lemma_round_shifted(x as nat, j as nat, d as nat);
            lemma_round_bounds(x as nat, d as nat, 2);
            assert(x < d * 2);
            assert(x / d < u128::MAX) by (nonlinear_arith)
                requires
                    d >= 1,
                    x < 2 * d,
            ;
        }
        let rounded = div_round_half_even(x, d);
        proof {
            assert((rounded + 2 * j) * unit <= 0x8_0000_0000_0000_0000) by (nonlinear_arith)
                requires
                    rounded <= 2,
                    2 * j <= hi,
                    hi * unit <= a,
                    a <= 0x2_0000_0000_0000_0000,
                    unit <= 0x2000,
            ;
        }
        ((rounded + 2 * j) * unit, 0)
    }
}

} // verus!
