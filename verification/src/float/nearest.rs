//! Rounding picks the nearest representable magnitude.

use super::arith::{lemma_parts, round_ratio};
use super::rounding::scale_of;
use super::{quanta, scale, significand, HIDDEN_BIT, INFINITY_CODE};
use vstd::arithmetic::div_mod::{
    lemma_fundamental_div_mod, lemma_fundamental_div_mod_converse, lemma_mod_pos_bound,
};
use vstd::arithmetic::power2::{
    lemma2_to64, lemma_pow2_adds, lemma_pow2_pos, lemma_pow2_strictly_increases, lemma_pow2_unfold,
    pow2,
};
use vstd::prelude::*;

verus! {

/// How far two magnitudes are apart.
pub open spec fn distance(a: nat, b: nat) -> nat {
    if a >= b {
        (a - b) as nat
    } else {
        (b - a) as nat
    }
}

/// The magnitude `q 2^e` has the code `e 2^23 + q`, also where `q` is one more
/// than the largest significand.
pub proof fn lemma_quanta_at(e: nat, q: nat)
    requires
        q <= 0x100_0000,
        e > 0 ==> q >= 0x80_0000,
    ensures
        quanta(e * (HIDDEN_BIT as nat) + q) == q * pow2(e),
{
    let code = e * (HIDDEN_BIT as nat) + q;
    lemma2_to64();
    if q < 0x80_0000 {
    } else if q < 0x100_0000 {
        lemma_fundamental_div_mod_converse(code as int, 0x80_0000, (e + 1) as int, q - 0x80_0000);
    } else {
        lemma_fundamental_div_mod_converse(code as int, 0x80_0000, (e + 2) as int, 0);
        lemma_pow2_unfold(e + 1);
        assert(0x80_0000 * pow2(e + 1) == q * pow2(e)) by (nonlinear_arith)
            requires
                pow2(e + 1) == 2 * pow2(e),
                q == 0x100_0000,
        ;
    }
}

/// Magnitudes grow with their codes.
pub proof fn lemma_quanta_grows(a: nat, b: nat)
    requires
        a <= b < INFINITY_CODE,
    ensures
        quanta(a) <= quanta(b),
        a < b ==> quanta(a) < quanta(b),
    decreases b - a,
{
    if a < b {
        let c = (b - 1) as nat;
        lemma_quanta_grows(a, c);
        let (e, q) = (scale(c), significand(c));
        lemma_parts(c);
        assert(c == e * (HIDDEN_BIT as nat) + q) by {
            lemma_fundamental_div_mod(c as int, 0x80_0000);
        }
        lemma_quanta_at(e, q);
        lemma_quanta_at(e, q + 1);
        lemma_pow2_pos(e);
        assert((q + 1) * pow2(e) > q * pow2(e)) by (nonlinear_arith)
            requires
                pow2(e) > 0,
        ;
    }
}

proof fn lemma_scale_bounds(halves: nat)
    ensures
        halves < pow2(scale_of(halves) + 25),
        scale_of(halves) > 0 ==> halves >= pow2(scale_of(halves) + 24),
    decreases halves,
{
    lemma2_to64();
    if halves >= 0x200_0000 {
        let e = scale_of(halves / 2);
        lemma_scale_bounds(halves / 2);
        lemma_pow2_unfold(e + 26);
        lemma_pow2_unfold(e + 25);
    }
}

/// The bounds of the significand that rounding starts from.
proof fn lemma_significand_bounds(halves: nat)
    ensures
        halves / pow2(scale_of(halves) + 1) < 0x100_0000,
        scale_of(halves) > 0 ==> halves / pow2(scale_of(halves) + 1) >= 0x80_0000,
        halves == pow2(scale_of(halves) + 1) * (halves / pow2(scale_of(halves) + 1)) + halves
            % pow2(scale_of(halves) + 1),
        0 <= halves % pow2(scale_of(halves) + 1) < pow2(scale_of(halves) + 1),
{
    let h = halves;
    let e = scale_of(h);
    let unit = pow2(e + 1);
    lemma_pow2_pos(e + 1);
    lemma_scale_bounds(h);
    lemma2_to64();
    lemma_pow2_adds(24, e + 1);
    lemma_pow2_adds(23, e + 1);
    lemma_fundamental_div_mod(h as int, unit as int);
    lemma_mod_pos_bound(h as int, unit as int);
    let q = h / unit;
    let rest = h % unit;
    assert(q < 0x100_0000 && (e > 0 ==> q >= 0x80_0000)) by (nonlinear_arith)
        requires
            h == unit * q + rest,
            0 <= rest < unit,
            h < 0x100_0000 * unit,
            e > 0 ==> h >= 0x80_0000 * unit,
    ;
}

/// The representable magnitudes next to `num / den`: what rounding picks is one
/// of them, the nearer one, and at most half a unit of the significand away.
/// `below` and `above` are twice the distances to them, times `den`.
proof fn lemma_bracket(num: nat, den: nat) -> (r: (nat, nat, int, int))
    requires
        den > 0,
        round_ratio(num, den) < INFINITY_CODE,
    ensures
        ({
            let (e, low, below, above) = r;
            let code = round_ratio(num, den);
            &&& e == scale_of(2 * num / den)
            &&& code == low || code == low + 1
            &&& 2 * num == 2 * (quanta(low) * den) + below
            &&& 2 * (quanta(low + 1) * den) == 2 * num + above
            &&& 0 <= below
            &&& 0 < above
            &&& below + above == 2 * (pow2(e) * den)
            &&& code == low + 1 ==> above <= below
            &&& code == low ==> below <= above
            &&& below == above ==> code % 2 == 0
            &&& den == 1 && e == 0 ==> below == 0 && code == low
            &&& e > 0 ==> num >= 0x80_0000 * (pow2(e) * den)
        }),
{
    let h = 2 * num / den;
    let g = (2 * num) % den;
    let exact = g == 0;
    lemma_fundamental_div_mod(2 * num as int, den as int);
    lemma_mod_pos_bound(2 * num as int, den as int);
    let e = scale_of(h);
    let u = pow2(e);
    let unit = pow2(e + 1);
    lemma_pow2_pos(e);
    lemma_pow2_unfold(e + 1);
    lemma_significand_bounds(h);
    lemma2_to64();
    let q = h / unit;
    let rest = h % unit;
    let low = e * (HIDDEN_BIT as nat) + q;
    let up = rest > u || (rest == u && (!exact || q % 2 == 1));
    let r = round_ratio(num, den);
    assert(r == if up {
        low + 1
    } else {
        low
    });
    lemma_quanta_at(e, q);
    lemma_quanta_at(e, q + 1);
    let (a, b) = (quanta(low), quanta(low + 1));
    let below: int = (rest * den + g) as int;
    let above: int = unit * den - below;
    assert(2 * num == 2 * (a * den) + below) by (nonlinear_arith)
        requires
            2 * num == den * h + g,
            h == unit * q + rest,
            a == q * u,
            unit == 2 * u,
            below == rest * den + g,
    ;
    assert(2 * (b * den) == 2 * num + above) by (nonlinear_arith)
        requires
            2 * num == 2 * (a * den) + below,
            a == q * u,
            b == (q + 1) * u,
            unit == 2 * u,
            above == unit * den - below,
    ;
    assert(0 <= below && below < unit * den) by (nonlinear_arith)
        requires
            below == rest * den + g,
            0 <= rest,
            rest + 1 <= unit,
            0 <= g < den,
    ;
    assert(below + above == 2 * (u * den)) by (nonlinear_arith)
        requires
            above == unit * den - below,
            unit == 2 * u,
    ;
    assert(up ==> above <= below) by (nonlinear_arith)
        requires
            up ==> rest >= u,
            below == rest * den + g,
            above == unit * den - below,
            unit == 2 * u,
            g >= 0,
            den > 0,
    ;
    assert(!up ==> below <= above) by (nonlinear_arith)
        requires
            !up ==> rest + 1 <= u || (rest == u && g == 0),
            below == rest * den + g,
            above == unit * den - below,
            unit == 2 * u,
            g < den,
            den > 0,
    ;
    assert(below == above ==> rest == u && g == 0) by (nonlinear_arith)
        requires
            below == rest * den + g,
            above == unit * den - below,
            unit == 2 * u,
            0 <= g < den,
            den > 0,
    ;
    assert(low % 2 == q % 2) by {
        assert(e * 0x80_0000 == 2 * (e * 0x40_0000));
    }
    if den == 1 && e == 0 {
        assert(unit == 2);
        assert(h == 2 * num);
        assert(rest == 0 && g == 0);
        assert(below == 0) by (nonlinear_arith)
            requires
                below == rest * den + g,
                rest == 0,
                g == 0,
        ;
    }
    if e > 0 {
        assert(num >= 0x80_0000 * (u * den)) by (nonlinear_arith)
            requires
                2 * num == den * h + g,
                g >= 0,
                h == unit * q + rest,
                rest >= 0,
                q >= 0x80_0000,
                unit == 2 * u,
                den > 0,
                u > 0,
        ;
    }
    (e, low, below, above)
}

/// No representable magnitude is nearer to `num / den` quanta than the one that
/// rounding picks, wherever that is finite; of two equally near ones it picks
/// the one with an even code.
pub proof fn lemma_round_nearest(num: nat, den: nat, code: nat)
    requires
        den > 0,
        round_ratio(num, den) < INFINITY_CODE,
        code < INFINITY_CODE,
    ensures
        distance(quanta(round_ratio(num, den)) * den, num) <= distance(quanta(code) * den, num),
        distance(quanta(round_ratio(num, den)) * den, num) == distance(quanta(code) * den, num)
            && quanta(code) != quanta(round_ratio(num, den)) ==> round_ratio(num, den) % 2 == 0,
{
    let (e, low, below, above) = lemma_bracket(num, den);
    let (a, b) = (quanta(low), quanta(low + 1));
    let x = quanta(code);
    if code <= low {
        if low < INFINITY_CODE {
            lemma_quanta_grows(code, low);
        }
        assert(x * den <= a * den) by (nonlinear_arith)
            requires
                x <= a,
                den > 0,
        ;
        assert(x < a ==> x * den < a * den) by (nonlinear_arith)
            requires
                den > 0,
        ;
    } else {
        lemma_quanta_grows(low + 1, code);
        assert(b * den <= x * den) by (nonlinear_arith)
            requires
                b <= x,
                den > 0,
        ;
        assert(b < x ==> b * den < x * den) by (nonlinear_arith)
            requires
                den > 0,
        ;
    }
}

/// Rounding is off by at most one part in `2^24`, or by half a quantum; a whole
/// number of quanta only by the former.
pub proof fn lemma_round_error(num: nat, den: nat)
    requires
        den > 0,
        round_ratio(num, den) < INFINITY_CODE,
    ensures
        0x100_0000 * distance(quanta(round_ratio(num, den)) * den, num) <= num + 0x80_0000 * den,
        den == 1 ==> 0x100_0000 * distance(quanta(round_ratio(num, den)), num) <= num,
{
    let (e, low, below, above) = lemma_bracket(num, den);
    let r = round_ratio(num, den);
    let d = distance(quanta(r) * den, num);
    assert(2 * d <= pow2(e) * den);
    lemma2_to64();
    assert(pow2(0) * den == den) by (nonlinear_arith)
        requires
            pow2(0) == 1,
    ;
    assert(quanta(r) * 1 == quanta(r));
}

/// Rounding keeps order.
pub proof fn lemma_round_monotone(n1: nat, d1: nat, n2: nat, d2: nat)
    requires
        d1 > 0,
        d2 > 0,
        n1 * d2 <= n2 * d1,
    ensures
        round_ratio(n1, d1) <= round_ratio(n2, d2),
{
    let (h1, g1) = (2 * n1 / d1, (2 * n1) % d1);
    let (h2, g2) = (2 * n2 / d2, (2 * n2) % d2);
    lemma_fundamental_div_mod(2 * n1 as int, d1 as int);
    lemma_fundamental_div_mod(2 * n2 as int, d2 as int);
    lemma_mod_pos_bound(2 * n1 as int, d1 as int);
    lemma_mod_pos_bound(2 * n2 as int, d2 as int);
    assert(h1 <= h2) by (nonlinear_arith)
        requires
            2 * n1 == d1 * h1 + g1,
            2 * n2 == d2 * h2 + g2,
            0 <= g1,
            g2 < d2,
            n1 * d2 <= n2 * d1,
            d1 > 0,
            d2 > 0,
    ;
    assert(h1 == h2 && g2 == 0 ==> g1 == 0) by (nonlinear_arith)
        requires
            2 * n1 == d1 * h1 + g1,
            2 * n2 == d2 * h2 + g2,
            0 <= g1,
            n1 * d2 <= n2 * d1,
            d1 > 0,
            d2 > 0,
    ;
    let (e1, e2) = (scale_of(h1), scale_of(h2));
    lemma_scale_bounds(h1);
    lemma_scale_bounds(h2);
    lemma_significand_bounds(h1);
    lemma_significand_bounds(h2);
    if e1 > e2 {
        if e1 > e2 + 1 {
            lemma_pow2_strictly_increases(e2 + 25, e1 + 24);
        }
        assert(false);
    }
    lemma_pow2_pos(e1);
    let (q1, r1) = (h1 / pow2(e1 + 1), h1 % pow2(e1 + 1));
    let (q2, r2) = (h2 / pow2(e2 + 1), h2 % pow2(e2 + 1));
    if e1 == e2 {
        let u = pow2(e1 + 1);
        assert(q1 <= q2 && (q1 == q2 ==> r1 <= r2)) by (nonlinear_arith)
            requires
                h1 == u * q1 + r1,
                h2 == u * q2 + r2,
                h1 <= h2,
                0 <= r1,
                r2 < u,
        ;
        if q1 == q2 && r1 == r2 {
            assert(h1 == h2);
        }
    } else {
        assert(e1 * 0x80_0000 + 0x80_0000 <= e2 * 0x80_0000);
    }
}

} // verus!
