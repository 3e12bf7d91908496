//! What quantization loses.

use super::quantize::{
    components, dequantized, highest, lowest, quantized, value_range, MAX_CODE_BITS,
};
use super::round_trip::stored_component;
use crate::db::Encoding;
use crate::float::arith::{lemma_parts, lemma_round_representable, round_ratio, unit};
use crate::float::nearest::{
    lemma_quanta_at, lemma_quanta_grows, lemma_round_error, lemma_round_monotone,
    lemma_round_nearest,
};
use crate::float::rounding::round_halves;
use crate::float::{quanta, F32, HIDDEN_BIT, INFINITY_CODE};
use crate::record::{all_finite, RecordView};
use vstd::arithmetic::div_mod::{
    lemma_div_is_ordered, lemma_fundamental_div_mod, lemma_fundamental_div_mod_converse,
    lemma_mod_pos_bound,
};
use vstd::arithmetic::power2::{lemma2_to64, lemma_pow2_adds, lemma_pow2_strictly_increases, pow2};
use vstd::prelude::*;

verus! {

/// How far two numbers are apart.
pub open spec fn gap(a: int, b: int) -> int {
    if a >= b {
        a - b
    } else {
        b - a
    }
}

/// The magnitude code of one.
spec fn one_code() -> nat {
    0x3f80_0000
}

/// The magnitude code of 255.
spec fn max_code() -> nat {
    0x437f_0000
}

proof fn lemma_constants()
    ensures
        quanta(0) == 0,
        quanta(1) == 1,
        quanta(one_code()) == unit(),
        quanta(max_code()) == 255 * unit(),
        unit() > 0x1_0000_0000,
        round_ratio(0, 1) == 0,
{
    lemma2_to64();
    lemma_parts(0);
    lemma_pow2_adds(23, 126);
    lemma_pow2_adds(16, 133);
    lemma_pow2_strictly_increases(32, 149);
    assert(one_code() / 0x80_0000 == 127 && one_code() % 0x80_0000 == 0);
    assert(max_code() / 0x80_0000 == 134 && max_code() % 0x80_0000 == 0x7f_0000);
    assert(0xff_0000 * pow2(133) == 255 * (0x1_0000 * pow2(133))) by (nonlinear_arith);
    assert(1 * pow2(0) == 1);
    assert(round_halves(0, true) == 0);
}

/// What has no magnitude rounds to nothing.
pub(crate) proof fn lemma_round_zero(den: nat)
    requires
        den > 0,
    ensures
        round_ratio(0, den) == 0,
{
    lemma_constants();
    lemma_fundamental_div_mod_converse(0, den as int, 0, 0);
    lemma2_to64();
    assert(round_halves(0, true) == 0);
}

/// Equal ratios round alike.
proof fn lemma_round_same(n1: nat, d1: nat, n2: nat, d2: nat)
    requires
        d1 > 0,
        d2 > 0,
        n1 * d2 == n2 * d1,
    ensures
        round_ratio(n1, d1) == round_ratio(n2, d2),
{
    lemma_round_monotone(n1, d1, n2, d2);
    lemma_round_monotone(n2, d2, n1, d1);
}

/// The order of numbers is that of their values.
proof fn lemma_level_value(a: F32, b: F32)
    requires
        a.finite(),
        b.finite(),
    ensures
        a.level() <= b.level() <==> a.value() <= b.value(),
        a.level() == b.level() <==> a.value() == b.value(),
{
    lemma_constants();
    let (x, y) = (a.code(), b.code());
    lemma_quanta_grows(0, x);
    lemma_quanta_grows(0, y);
    if x <= y {
        lemma_quanta_grows(x, y);
    } else {
        lemma_quanta_grows(y, x);
    }
}

/// The difference of two numbers, the greater first.
proof fn lemma_difference(a: F32, b: F32)
    requires
        a.finite(),
        b.finite(),
        a.value() >= b.value(),
    ensures
        a.value() > b.value() ==> F32::difference(a, b) == F32::compose(
            false,
            round_ratio((a.value() - b.value()) as nat, 1),
        ),
        a.value() == b.value() ==> F32::difference(a, b).zero(),
{
    reveal(F32::sum);
    let n = b.negated();
    assert(n.code() == b.code());
    assert(n.value() == -b.value());
}

/// The span of a range that has one.
proof fn lemma_span(min: F32, max: F32)
    requires
        min.finite(),
        max.finite(),
        min.value() < max.value(),
        F32::difference(max, min).finite(),
    ensures
        ({
            let range = (max.value() - min.value()) as nat;
            let s = round_ratio(range, 1);
            &&& F32::difference(max, min) == F32::compose(false, s)
            &&& 0 < s < INFINITY_CODE
            &&& quanta(s) > 0
            &&& 0x100_0000 * gap(quanta(s) as int, range as int) <= range
        }),
{
    let range = (max.value() - min.value()) as nat;
    let s = round_ratio(range, 1);
    lemma_constants();
    lemma_difference(max, min);
    assert(s <= INFINITY_CODE);
    lemma_round_representable(1);
    lemma_round_monotone(quanta(1), 1, range, 1);
    lemma_round_error(range, 1);
    lemma_quanta_grows(0, s);
}

/// The codes on the way to a byte: the distance from the minimum, the part of
/// the span, and that part of 255.
spec fn part_code(d: nat, s: nat) -> nat {
    round_ratio(quanta(d) * unit(), quanta(s))
}

spec fn scaled_code(t: nat) -> nat {
    round_ratio(quanta(t) * quanta(max_code()), unit())
}

spec fn byte_of(u: nat) -> nat {
    (2 * quanta(u) + unit()) / (2 * unit())
}

/// The bounds of the codes on the way to a byte.
proof fn lemma_part_bounds(d: nat, s: nat)
    requires
        d <= s,
        0 < s < INFINITY_CODE,
    ensures
        quanta(d) <= quanta(s),
        quanta(s) > 0,
        part_code(d, s) <= one_code(),
        quanta(part_code(d, s)) <= unit(),
        scaled_code(part_code(d, s)) <= max_code(),
        quanta(scaled_code(part_code(d, s))) <= 255 * unit(),
        byte_of(scaled_code(part_code(d, s))) <= 255,
{
    lemma_constants();
    lemma_quanta_grows(d, s);
    lemma_quanta_grows(0, s);
    let (qd, qs, u) = (quanta(d), quanta(s), unit());
    assert(qd * u * 1 <= u * qs) by (nonlinear_arith)
        requires
            qd <= qs,
    ;
    lemma_round_monotone(qd * u, qs, u, 1);
    lemma_round_representable(one_code());
    let t = part_code(d, s);
    lemma_quanta_grows(t, one_code());
    let qt = quanta(t);
    let f = quanta(max_code());
    assert(qt * f * 1 <= f * u) by (nonlinear_arith)
        requires
            qt <= u,
    ;
    lemma_round_monotone(qt * f, u, f, 1);
    lemma_round_representable(max_code());
    let w = scaled_code(t);
    lemma_quanta_grows(w, max_code());
    lemma_fundamental_div_mod_converse((511 * u) as int, (2 * u) as int, 255, u as int);
    lemma_div_is_ordered((2 * quanta(w) + u) as int, (511 * u) as int, (2 * u) as int);
}

/// Quantizing goes by those codes.
proof fn lemma_quantized_path(v: F32, min: F32, max: F32)
    requires
        min.finite(),
        max.finite(),
        v.finite(),
        min.value() <= v.value() <= max.value(),
        min.value() < max.value(),
        F32::difference(max, min).finite(),
    ensures
        ({
            let s = round_ratio((max.value() - min.value()) as nat, 1);
            let d = round_ratio((v.value() - min.value()) as nat, 1);
            &&& d <= s
            &&& quantized(v, min, max) as nat == byte_of(scaled_code(part_code(d, s)))
        }),
{
    let range = (max.value() - min.value()) as nat;
    let far = (v.value() - min.value()) as nat;
    let s = round_ratio(range, 1);
    let d = round_ratio(far, 1);
    let span = F32::difference(max, min);
    let limit = F32 { bits: MAX_CODE_BITS };
    lemma_constants();
    lemma_span(min, max);
    lemma_difference(v, min);
    lemma_round_monotone(far, 1, range, 1);
    lemma_part_bounds(d, s);
    let (t, w) = (part_code(d, s), scaled_code(part_code(d, s)));
    assert(span.code() == s && !span.negative());
    assert(limit.code() == max_code() && !limit.negative());
    reveal(F32::quotient);
    reveal(F32::product);
    reveal(F32::nearest_byte);
    let a = F32::difference(v, min);
    let b = F32::quotient(a, span);
    let c = F32::product(b, limit);
    if far > 0 {
        lemma_round_representable(1);
        lemma_round_monotone(quanta(1), 1, far, 1);
        assert(a.code() == d && !a.negative());
        assert(b == F32::compose(false, t));
        assert(b.code() == t && !b.negative());
        assert(c == F32::compose(false, w));
        assert(c.code() == w && !c.negative());
    } else {
        assert(a.zero() && a.magnitude() == 0);
        assert(0 * unit() == 0 && 0 * quanta(max_code()) == 0);
        lemma_round_zero(quanta(s));
        lemma_round_zero(unit());
        assert(b.zero() && b.magnitude() == 0);
        assert(c.zero() && c.magnitude() == 0);
        assert(t == 0 && w == 0);
        lemma_fundamental_div_mod_converse(unit() as int, (2 * unit()) as int, 0, unit() as int);
    }
}

/// The ends of the range stand for the lowest and the highest byte, and a
/// greater component never gets a lower byte.
pub proof fn lemma_quantize_order(v: F32, w: F32, min: F32, max: F32)
    requires
        min.finite(),
        max.finite(),
        F32::difference(max, min).finite(),
        min.level() < max.level(),
        v.finite(),
        w.finite(),
        min.level() <= v.level() <= w.level() <= max.level(),
    ensures
        quantized(min, min, max) == 0,
        quantized(max, min, max) == 255,
        quantized(v, min, max) <= quantized(w, min, max),
{
    lemma_constants();
    lemma_level_value(min, max);
    lemma_level_value(min, v);
    lemma_level_value(v, w);
    lemma_level_value(w, max);
    lemma_span(min, max);
    let range = (max.value() - min.value()) as nat;
    let s = round_ratio(range, 1);
    let (u, qs) = (unit(), quanta(s));
    // The minimum.
    lemma_quantized_path(min, min, max);
    assert(0 * u == 0 && 0 * quanta(max_code()) == 0);
    lemma_round_zero(qs);
    lemma_round_zero(u);
    lemma_fundamental_div_mod_converse(u as int, (2 * u) as int, 0, u as int);
    // The maximum.
    lemma_quantized_path(max, min, max);
    assert(qs * u * 1 == u * qs) by (nonlinear_arith);
    lemma_round_same(qs * u, qs, u, 1);
    lemma_round_representable(one_code());
    let f = quanta(max_code());
    assert(u * f * 1 == f * u) by (nonlinear_arith);
    lemma_round_same(u * f, u, f, 1);
    lemma_round_representable(max_code());
    lemma_fundamental_div_mod_converse((511 * u) as int, (2 * u) as int, 255, u as int);
    // What is between.
    lemma_quantized_path(v, min, max);
    lemma_quantized_path(w, min, max);
    let (fv, fw) = ((v.value() - min.value()) as nat, (w.value() - min.value()) as nat);
    let (dv, dw) = (round_ratio(fv, 1), round_ratio(fw, 1));
    lemma_round_monotone(fv, 1, fw, 1);
    lemma_part_bounds(dv, s);
    lemma_part_bounds(dw, s);
    lemma_quanta_grows(dv, dw);
    let (tv, tw) = (part_code(dv, s), part_code(dw, s));
    assert(quanta(dv) * u * qs <= quanta(dw) * u * qs) by (nonlinear_arith)
        requires
            quanta(dv) <= quanta(dw),
    ;
    lemma_round_monotone(quanta(dv) * u, qs, quanta(dw) * u, qs);
    lemma_quanta_grows(tv, tw);
    assert(quanta(tv) * f * u <= quanta(tw) * f * u) by (nonlinear_arith)
        requires
            quanta(tv) <= quanta(tw),
    ;
    lemma_round_monotone(quanta(tv) * f, u, quanta(tw) * f, u);
    let (av, aw) = (scaled_code(tv), scaled_code(tw));
    lemma_quanta_grows(av, aw);
    lemma_div_is_ordered(
        (2 * quanta(av) + u) as int,
        (2 * quanta(aw) + u) as int,
        (2 * u) as int,
    );
}

/// A whole number of that many bits is representable.
proof fn lemma_whole_bits(c: nat, size: nat, bits: nat)
    requires
        1 <= bits <= 8,
        size == pow2((24 - bits) as nat),
        0x80_0000 <= c * size < 0x100_0000,
    ensures
        quanta(round_ratio(c * unit(), 1)) == c * unit(),
        round_ratio(c * unit(), 1) < INFINITY_CODE,
{
    let e = (125 + bits) as nat;
    let q = c * size;
    lemma_pow2_adds((24 - bits) as nat, e);
    lemma_quanta_at(e, q);
    let code = e * (HIDDEN_BIT as nat) + q;
    assert(q * pow2(e) == c * unit()) by (nonlinear_arith)
        requires
            q == c * size,
            unit() == size * pow2(e),
    ;
    lemma_round_representable(code);
}

/// Every byte is representable.
proof fn lemma_whole(c: nat)
    requires
        c <= 255,
    ensures
        quanta(round_ratio(c * unit(), 1)) == c * unit(),
        round_ratio(c * unit(), 1) < INFINITY_CODE,
        F32::whole(c) == F32::compose(false, round_ratio(c * unit(), 1)),
{
    reveal(F32::whole);
    lemma2_to64();
    lemma_constants();
    if c == 0 {
        assert(0 * unit() == 0);
    } else if c < 2 {
        lemma_whole_bits(c, 0x80_0000, 1);
    } else if c < 4 {
        lemma_whole_bits(c, 0x40_0000, 2);
    } else if c < 8 {
        lemma_whole_bits(c, 0x20_0000, 3);
    } else if c < 16 {
        lemma_whole_bits(c, 0x10_0000, 4);
    } else if c < 32 {
        lemma_whole_bits(c, 0x8_0000, 5);
    } else if c < 64 {
        lemma_whole_bits(c, 0x4_0000, 6);
    } else if c < 128 {
        lemma_whole_bits(c, 0x2_0000, 7);
    } else {
        lemma_whole_bits(c, 0x1_0000, 8);
    }
}

/// The codes on the way back: the part of 255 that a byte is, and that part of
/// the span.
spec fn ratio_code(c: nat) -> nat {
    round_ratio(c * unit() * unit(), quanta(max_code()))
}

spec fn offset_code(c: nat, s: nat) -> nat {
    round_ratio(quanta(ratio_code(c)) * quanta(s), unit())
}

/// Dequantizing goes by those codes.
proof fn lemma_dequantized_path(c: u8, min: F32, max: F32)
    requires
        min.finite(),
        max.finite(),
        min.value() < max.value(),
        F32::difference(max, min).finite(),
    ensures
        ({
            let s = round_ratio((max.value() - min.value()) as nat, 1);
            let p = ratio_code(c as nat);
            let w = offset_code(c as nat, s);
            &&& dequantized(c, min, max) == F32::sum(min, F32::compose(false, w))
            &&& p < INFINITY_CODE
            &&& quanta(p) <= unit()
            &&& w <= s
        }),
{
    let s = round_ratio((max.value() - min.value()) as nat, 1);
    let span = F32::difference(max, min);
    let limit = F32 { bits: MAX_CODE_BITS };
    let (n, u, f, qs) = (c as nat, unit(), quanta(max_code()), quanta(s));
    lemma_constants();
    lemma_span(min, max);
    lemma_whole(n);
    let p = ratio_code(n);
    assert(n * u * u * 1 <= u * f) by (nonlinear_arith)
        requires
            n <= 255,
            f == 255 * u,
    ;
    lemma_round_monotone(n * u * u, f, u, 1);
    lemma_round_representable(one_code());
    lemma_quanta_grows(p, one_code());
    let w = offset_code(n, s);
    assert(quanta(p) * qs * 1 <= qs * u) by (nonlinear_arith)
        requires
            quanta(p) <= u,
    ;
    lemma_round_monotone(quanta(p) * qs, u, qs, 1);
    lemma_round_representable(s);
    reveal(F32::quotient);
    reveal(F32::product);
    let a = F32::whole(n);
    assert(a.code() == round_ratio(n * u, 1) && !a.negative());
    assert(limit.code() == max_code() && !limit.negative());
    assert(span.code() == s && !span.negative());
    let b = F32::quotient(a, limit);
    assert(b == F32::compose(false, p));
    assert(b.code() == p && !b.negative());
    assert(F32::product(b, span) == F32::compose(false, w));
}

/// The bounds of the steps, added up.
proof fn lemma_add_up(
    wu: int,
    ps: int,
    cus: int,
    az: int,
    ts: int,
    du: int,
    fu: int,
    us: int,
    ru: int,
    u: int,
    s: int,
)
    requires
        ps <= us,
        ts <= us,
        du <= us,
        fu <= ru,
        cus <= 255 * us,
        -(ps + 0x80_0000 * u) <= 0x100_0000 * (wu - ps) <= ps + 0x80_0000 * u,
        -(cus + 0x7f80_0000 * s) <= 0x100_0000 * (255 * ps - cus) <= cus + 0x7f80_0000 * s,
        -us <= 2 * (cus - az) <= us,
        -(255 * ts + 0x80_0000 * s) <= 0x100_0000 * (az - 255 * ts) <= 255 * ts + 0x80_0000 * s,
        -(du + 0x80_0000 * s) <= 0x100_0000 * (ts - du) <= du + 0x80_0000 * s,
        -fu <= 0x100_0000 * (du - fu) <= fu,
        0xff80_0000 * s <= us,
    ensures
        0xff00_0000 * (wu - fu) <= 0x80_03fd * us + 255 * ru + 0x7f80_0000 * u,
        0xff00_0000 * (fu - wu) <= 0x80_03fd * us + 255 * ru + 0x7f80_0000 * u,
{
    let a = 0x100_0000 * (wu - ps);
    let b = 0x100_0000 * (255 * ps - cus);
    let c = 0x100_0000 * (cus - az);
    let d = 0x100_0000 * (az - 255 * ts);
    let e = 0x100_0000 * (ts - du);
    let f = 0x100_0000 * (du - fu);
    assert(0xff00_0000 * (wu - fu) == 255 * a + b + c + d + 255 * e + 255 * f);
    assert(-(0x80_0000 * us) <= c <= 0x80_0000 * us);
}

/// The steps of the way there and back, each off by one part in `2^24` or half a
/// quantum, add up to little more than half a step of the range.
proof fn lemma_chain(
    u: int,
    range: int,
    s: int,
    far: int,
    d: int,
    t: int,
    a: int,
    c: int,
    p: int,
    w: int,
)
    requires
        u > 0x1_0000_0000,
        0 <= far <= range,
        0 <= d <= s,
        0 <= t <= u,
        0 <= c <= 255,
        0 <= p <= u,
        0x100_0000 * gap(s, range) <= range,
        0x100_0000 * gap(d, far) <= far,
        0x100_0000 * gap(t * s, d * u) <= d * u + 0x80_0000 * s,
        0x100_0000 * gap(a, 255 * t) <= 255 * t + 0x80_0000,
        2 * gap(c * u, a) <= u,
        0x100_0000 * gap(255 * p, c * u) <= c * u + 0x7f80_0000,
        0x100_0000 * gap(w * u, p * s) <= p * s + 0x80_0000 * u,
    ensures
        0x1_fe00_0000 * gap(w, far) <= 0x100_11f3 * range + 0xff00_0000,
{
    let (wu, ps, cu, ts, du, us) = (w * u, p * s, c * u, t * s, d * u, u * s);
    let (cus, az, fu, ru) = (cu * s, a * s, far * u, range * u);
    assert(s >= 0 && ps <= us && ts <= us && du <= us && fu <= ru && cus <= 255 * us && us >= 0)
        by (nonlinear_arith)
        requires
            0 <= d <= s,
            0 <= t <= u,
            0 <= p <= u,
            0 <= c <= 255,
            0 <= far <= range,
            u > 0,
            ps == p * s,
            ts == t * s,
            du == d * u,
            us == u * s,
            cu == c * u,
            cus == cu * s,
            fu == far * u,
            ru == range * u,
    ;
    // Each step, brought to the same scale.
    assert(-(cus + 0x7f80_0000 * s) <= 0x100_0000 * (255 * ps - cus) <= cus + 0x7f80_0000 * s)
        by (nonlinear_arith)
        requires
            -(cu + 0x7f80_0000) <= 0x100_0000 * (255 * p - cu) <= cu + 0x7f80_0000,
            s >= 0,
            ps == p * s,
            cus == cu * s,
    ;
    assert(-us <= 2 * (cus - az) <= us) by (nonlinear_arith)
        requires
            -u <= 2 * (cu - a) <= u,
            s >= 0,
            cus == cu * s,
            az == a * s,
            us == u * s,
    ;
    assert(-(255 * ts + 0x80_0000 * s) <= 0x100_0000 * (az - 255 * ts) <= 255 * ts + 0x80_0000 * s)
        by (nonlinear_arith)
        requires
            -(255 * t + 0x80_0000) <= 0x100_0000 * (a - 255 * t) <= 255 * t + 0x80_0000,
            s >= 0,
            az == a * s,
            ts == t * s,
    ;
    assert(-fu <= 0x100_0000 * (du - fu) <= fu) by (nonlinear_arith)
        requires
            -far <= 0x100_0000 * (d - far) <= far,
            u > 0,
            du == d * u,
            fu == far * u,
    ;
    assert(0xff80_0000 * s <= us) by (nonlinear_arith)
        requires
            u > 0x1_0000_0000,
            s >= 0,
            us == u * s,
    ;
    lemma_add_up(wu, ps, cus, az, ts, du, fu, us, ru, u, s);
    let small = 0x80_03fd * s + 255 * range + 0x7f80_0000;
    let bound = 0x80_03fd * us + 255 * ru + 0x7f80_0000 * u;
    assert(bound == small * u) by (nonlinear_arith)
        requires
            bound == 0x80_03fd * us + 255 * ru + 0x7f80_0000 * u,
            small == 0x80_03fd * s + 255 * range + 0x7f80_0000,
            us == u * s,
            ru == range * u,
    ;
    assert(-small <= 0xff00_0000 * (w - far) <= small) by (nonlinear_arith)
        requires
            -bound <= 0xff00_0000 * (wu - fu) <= bound,
            bound == small * u,
            wu == w * u,
            fu == far * u,
            u > 0,
    ;
    lemma_finish(gap(w, far), s, range);
}

/// The span is as good as the range.
proof fn lemma_finish(g: int, s: int, range: int)
    requires
        0xff00_0000 * g <= 0x80_03fd * s + 255 * range + 0x7f80_0000,
        0x100_0000 * (s - range) <= range,
        0 <= range,
    ensures
        0x1_fe00_0000 * g <= 0x100_11f3 * range + 0xff00_0000,
{
    assert(0x100_0000 * s <= 0x100_0001 * range);
    assert(s <= 2 * range);
}

/// A sum is the nearest number to the exact one: no number is nearer.
proof fn lemma_sum_nearest(a: F32, b: F32, v: F32)
    requires
        a.finite(),
        b.finite(),
        v.finite(),
        F32::sum(a, b).finite(),
    ensures
        gap(F32::sum(a, b).value(), a.value() + b.value()) <= gap(
            v.value(),
            a.value() + b.value(),
        ),
{
    reveal(F32::sum);
    lemma_constants();
    let y = a.value() + b.value();
    let r = F32::sum(a, b);
    let code = v.code();
    if y != 0 {
        let m: nat = if y > 0 {
            y as nat
        } else {
            (-y) as nat
        };
        let c = round_ratio(m, 1);
        assert(c <= INFINITY_CODE);
        assert(r.code() == c && r.negative() == (y < 0));
        lemma_round_nearest(m, 1, code);
        lemma_round_nearest(m, 1, 0);
        assert(quanta(c) * 1 == quanta(c) && quanta(code) * 1 == quanta(code) && quanta(0) * 1
            == 0);
    } else {
        assert(r.zero());
    }
}

/// How far off the steps to a byte are.
proof fn lemma_quantize_errors(d: nat, s: nat)
    requires
        d <= s,
        0 < s < INFINITY_CODE,
    ensures
        ({
            let u = unit() as int;
            let (qs, qd) = (quanta(s) as int, quanta(d) as int);
            let t = quanta(part_code(d, s)) as int;
            let a = quanta(scaled_code(part_code(d, s))) as int;
            let c = byte_of(scaled_code(part_code(d, s))) as int;
            &&& 0x100_0000 * gap(t * qs, qd * u) <= qd * u + 0x80_0000 * qs
            &&& 0x100_0000 * gap(a, 255 * t) <= 255 * t + 0x80_0000
            &&& 2 * gap(c * u, a) <= u
        }),
{
    lemma_constants();
    lemma_part_bounds(d, s);
    let u = unit() as int;
    let f = quanta(max_code());
    let t = part_code(d, s);
    let (qt, qa) = (quanta(t) as int, quanta(scaled_code(t)) as int);
    lemma_round_error(quanta(d) * unit(), quanta(s));
    lemma_round_error(quanta(t) * f, unit());
    let (x, y) = (qa * u, qt * f);
    assert(y == 255 * qt * u && (255 * qt + 0x80_0000) * u == y + 0x80_0000 * u)
        by (nonlinear_arith)
        requires
            y == qt * f,
            f == 255 * u,
    ;
    lemma_cancel(qa, 255 * qt, u, 255 * qt + 0x80_0000, x, y);
    let c = byte_of(scaled_code(t)) as int;
    lemma_fundamental_div_mod(2 * qa + u, 2 * u);
    lemma_mod_pos_bound(2 * qa + u, 2 * u);
    let cu = c * u;
    assert((2 * u) * c == 2 * cu) by (nonlinear_arith)
        requires
            cu == c * u,
    ;
}

/// How far off the steps back are.
proof fn lemma_dequantize_errors(c: nat, s: nat)
    requires
        c <= 255,
        0 < s < INFINITY_CODE,
        ratio_code(c) < INFINITY_CODE,
        offset_code(c, s) <= s,
    ensures
        ({
            let u = unit() as int;
            let qs = quanta(s) as int;
            let p = quanta(ratio_code(c)) as int;
            let w = quanta(offset_code(c, s)) as int;
            &&& 0x100_0000 * gap(255 * p, c * u) <= c * u + 0x7f80_0000
            &&& 0x100_0000 * gap(w * u, p * qs) <= p * qs + 0x80_0000 * u
        }),
{
    lemma_constants();
    let u = unit() as int;
    let ci = c as int;
    let f = quanta(max_code());
    let p = ratio_code(c);
    let qp = quanta(p) as int;
    lemma_round_error(c * unit() * unit(), f);
    lemma_round_error(quanta(p) * quanta(s), unit());
    let (x, y) = (qp * f, ci * u * u);
    assert(x == 255 * qp * u && (ci * u + 0x7f80_0000) * u == y + 0x80_0000 * f)
        by (nonlinear_arith)
        requires
            x == qp * f,
            y == ci * u * u,
            f == 255 * u,
    ;
    lemma_cancel(255 * qp, ci * u, u, ci * u + 0x7f80_0000, x, y);
}

/// Writing a component as a byte and reading it back loses little more than half a
/// step of the range: its 510th part, one part in 2048 of that for the rounding on
/// the way, one part in `2^24` of the component itself for the last rounding, and one
/// quantum. However large the component is against the range, it loses at most twice
/// as much of the range, and no part of itself.
pub proof fn lemma_quantization_loss(v: F32, min: F32, max: F32)
    requires
        min.finite(),
        max.finite(),
        F32::difference(max, min).finite(),
        v.finite(),
        min.level() <= v.level() <= max.level(),
        dequantized(quantized(v, min, max), min, max).finite(),
    ensures
        255 * gap(dequantized(quantized(v, min, max), min, max).value(), v.value()) <= (max.value()
            - min.value()) + (max.value() - min.value()) / 2048 + 255,
        0x1_fe00_0000 * gap(dequantized(quantized(v, min, max), min, max).value(), v.value())
            <= 0x100_2000 * (max.value() - min.value()) + 0x1fe * v.magnitude() + 0x1_0000_0000,
{
    lemma_level_value(min, v);
    lemma_level_value(v, max);
    let byte = quantized(v, min, max);
    let back = dequantized(byte, min, max);
    if min.value() == max.value() {
        lemma_flat_range(min, max);
        assert(byte == 0);
    } else {
        let range = (max.value() - min.value()) as nat;
        let far = (v.value() - min.value()) as nat;
        let s = round_ratio(range, 1);
        let d = round_ratio(far, 1);
        let c = byte as nat;
        lemma_constants();
        lemma_span(min, max);
        lemma_quantized_path(v, min, max);
        lemma_part_bounds(d, s);
        lemma_dequantized_path(byte, min, max);
        let w = offset_code(c, s);
        let g = gap(quanta(w) as int, far as int);
        lemma_round_error(far, 1);
        lemma_quantize_errors(d, s);
        lemma_dequantize_errors(c, s);
        lemma_chain(
            unit() as int,
            range as int,
            quanta(s) as int,
            far as int,
            quanta(d) as int,
            quanta(part_code(d, s)) as int,
            quanta(scaled_code(part_code(d, s))) as int,
            c as int,
            quanta(ratio_code(c)) as int,
            quanta(w) as int,
        );
        // The last sum is the nearest number, and the component is a number.
        let b = F32::compose(false, w);
        assert(b.code() == w && !b.negative());
        lemma_sum_nearest(min, b, v);
        lemma_last_step(gap(back.value(), v.value()), g, range as int);
        lemma_sum_off(min, b);
        let e = gap(back.value(), min.value() + b.value());
        lemma_half_step(
            gap(back.value(), v.value()),
            g,
            e,
            range as int,
            v.magnitude() as int,
        );
    }
}

/// A sum is off by at most one part in `2^24` of the exact one.
proof fn lemma_sum_off(a: F32, b: F32)
    requires
        a.finite(),
        b.finite(),
        F32::sum(a, b).finite(),
    ensures
        0x100_0000 * gap(F32::sum(a, b).value(), a.value() + b.value()) <= gap(
            a.value() + b.value(),
            0,
        ),
{
    reveal(F32::sum);
    lemma_constants();
    let y = a.value() + b.value();
    let r = F32::sum(a, b);
    if y != 0 {
        let m: nat = if y > 0 {
            y as nat
        } else {
            (-y) as nat
        };
        let c = round_ratio(m, 1);
        assert(c <= INFINITY_CODE);
        assert(r.code() == c && r.negative() == (y < 0));
        lemma_round_error(m, 1);
    } else {
        assert(r.zero());
    }
}

/// What is off before the last sum, and by the last sum itself.
proof fn lemma_half_step(loss: int, g: int, e: int, range: int, size: int)
    requires
        loss <= g + e,
        0x100_0000 * e <= size + g,
        0x1_fe00_0000 * g <= 0x100_11f3 * range + 0xff00_0000,
        0 <= range,
        0 <= g,
    ensures
        0x1_fe00_0000 * loss <= 0x100_2000 * range + 0x1fe * size + 0x1_0000_0000,
{
    assert(0x1_fe00_0000 * e <= 0x1fe * size + 0x1fe * g);
    assert(0x1fe * g <= 2 * range + 0x100);
}

proof fn lemma_last_step(loss: int, g: int, range: int)
    requires
        loss <= 2 * g,
        0x1_fe00_0000 * g <= 0x100_11f3 * range + 0xff00_0000,
        0 <= range,
    ensures
        255 * loss <= range + range / 2048 + 255,
{
    assert(522240 * loss <= 2049 * range + 522240);
}

/// A bound on a difference, with a common factor taken out.
proof fn lemma_cancel(a: int, b: int, u: int, bound: int, x: int, y: int)
    requires
        u > 0,
        x == a * u,
        y == b * u,
        0x100_0000 * gap(x, y) <= bound * u,
    ensures
        0x100_0000 * gap(a, b) <= bound,
{
    let k: int = 0x100_0000;
    assert(-bound <= k * (a - b) <= bound) by (nonlinear_arith)
        requires
            -(bound * u) <= k * (x - y) <= bound * u,
            x == a * u,
            y == b * u,
            u > 0,
    ;
}

/// Where the range has no width, every component comes back as it was.
proof fn lemma_flat_range(min: F32, max: F32)
    requires
        min.finite(),
        max.finite(),
        min.value() == max.value(),
    ensures
        forall|v: F32| #[trigger] quantized(v, min, max) == 0,
        dequantized(0, min, max).finite(),
        dequantized(0, min, max).value() == min.value(),
{
    let span = F32::difference(max, min);
    let limit = F32 { bits: MAX_CODE_BITS };
    lemma_constants();
    lemma_difference(max, min);
    lemma_whole(0);
    reveal(F32::quotient);
    reveal(F32::product);
    reveal(F32::sum);
    assert(0 * unit() == 0);
    lemma_round_zero(quanta(max_code()));
    lemma_round_zero(unit());
    let a = F32::whole(0);
    assert(a.zero() && a.magnitude() == 0 && !a.negative());
    assert(limit.code() == max_code() && !limit.negative());
    let b = F32::quotient(a, limit);
    assert(b.zero() && b.magnitude() == 0);
    assert(span.magnitude() == 0);
    assert(0 * span.magnitude() == 0);
    let c = F32::product(b, span);
    assert(c.zero() && c.magnitude() == 0);
    lemma_round_representable(min.code());
}

/// The range of finite values covers each of them.
proof fn lemma_extremes(values: Seq<F32>)
    requires
        all_finite(values),
    ensures
        !lowest(values).nan() && !highest(values).nan(),
        values.len() > 0 ==> lowest(values).finite() && highest(values).finite(),
        values.len() > 0 ==> values.contains(lowest(values)) && values.contains(highest(values)),
        forall|i: int|
            0 <= i < values.len() ==> lowest(values).level() <= (#[trigger] values[i]).level()
                <= highest(values).level(),
    decreases values.len(),
{
    if values.len() > 0 {
        let front = values.drop_last();
        assert forall|i: int| 0 <= i < front.len() implies (#[trigger] front[i]).finite() by {
            assert(front[i] == values[i]);
        }
        lemma_extremes(front);
        assert(values.last() == values[values.len() - 1]);
        assert forall|i: int| 0 <= i < values.len() implies lowest(values).level() <= (
        #[trigger] values[i]).level() <= highest(values).level() by {
            if i < front.len() {
                assert(front[i] == values[i]);
            }
        }
        if front.len() == 0 {
            assert(front =~= Seq::empty());
        } else {
            let i = choose|i: int| 0 <= i < front.len() && front[i] == lowest(front);
            let j = choose|j: int| 0 <= j < front.len() && front[j] == highest(front);
            assert(values[i] == lowest(front) && values[j] == highest(front));
        }
    }
}

/// The range that components are quantized against is the smallest that covers
/// them: each of them is within it, and both its ends are among them.
pub proof fn lemma_range_tight(records: Seq<RecordView>)
    requires
        all_finite(components(records)),
        components(records).len() > 0,
    ensures
        ({
            let (min, max) = value_range(records);
            &&& components(records).contains(min)
            &&& components(records).contains(max)
            &&& forall|i: int|
                0 <= i < components(records).len() ==> min.value() <= (#[trigger] components(
                    records,
                )[i]).value() <= max.value()
        }),
{
    reveal(value_range);
    let values = components(records);
    let (min, max) = value_range(records);
    lemma_extremes(values);
    assert forall|i: int| 0 <= i < values.len() implies min.value() <= (
    #[trigger] values[i]).value() <= max.value() by {
        lemma_level_value(min, values[i]);
        lemma_level_value(values[i], max);
    }
}

/// The byte of a number is the nearest: no byte is nearer, and of two equally near
/// ones it is the greater.
pub proof fn lemma_byte_nearest(a: F32, c: u8)
    requires
        a.finite(),
    ensures
        ({
            let n = F32::nearest_byte(a);
            let far = gap(c * (unit() as int), a.value());
            &&& gap(n * (unit() as int), a.value()) <= far
            &&& gap(n * (unit() as int), a.value()) == far ==> c <= n || a.negative()
        }),
{
    reveal(F32::nearest_byte);
    lemma_constants();
    let u = unit() as int;
    let n = F32::nearest_byte(a) as int;
    let m = a.magnitude() as int;
    let k = c as int;
    let d = n - k;
    assert(n * u - k * u == d * u) by (nonlinear_arith)
        requires
            d == n - k,
    ;
    assert(d >= 1 ==> d * u >= u) by (nonlinear_arith)
        requires
            u > 0,
    ;
    assert(d <= -1 ==> d * u <= -u) by (nonlinear_arith)
        requires
            u > 0,
    ;
    assert(k * u >= 0) by (nonlinear_arith)
        requires
            k >= 0,
            u > 0,
    ;
    if a.negative() {
        assert(n == 0);
    } else {
        let q = (2 * m + u) / (2 * u);
        lemma_fundamental_div_mod(2 * m + u, 2 * u);
        lemma_mod_pos_bound(2 * m + u, 2 * u);
        let rest = (2 * m + u) % (2 * u);
        assert(2 * u * q == 2 * (q * u)) by (nonlinear_arith);
        if q > 255 {
            assert(n == 255);
            assert(q * u >= 256 * u) by (nonlinear_arith)
                requires
                    q >= 256,
                    u > 0,
            ;
        } else {
            assert(n == q);
        }
    }
}

/// A quantized file keeps every component of finite vectors to within little more
/// than half a step of the range of all of them (and one step, however large the
/// component), where that range can be measured
/// and what is read back is finite.
pub proof fn lemma_stored_loss(records: Seq<RecordView>, x: F32)
    requires
        all_finite(components(records)),
        components(records).contains(x),
        ({
            let range = value_range(records);
            &&& F32::difference(range.1, range.0).finite()
            &&& stored_component(Encoding::ScalarU8, range, x).finite()
        }),
    ensures
        ({
            let range = value_range(records);
            let width = range.1.value() - range.0.value();
            let loss = gap(stored_component(Encoding::ScalarU8, range, x).value(), x.value());
            &&& 255 * loss <= width + width / 2048 + 255
            &&& 0x1_fe00_0000 * loss <= 0x100_2000 * width + 0x1fe * x.magnitude() + 0x1_0000_0000
        }),
{
    reveal(value_range);
    let values = components(records);
    lemma_extremes(values);
    let i = choose|i: int| 0 <= i < values.len() && values[i] == x;
    assert(values[i].finite());
    let range = value_range(records);
    lemma_quantization_loss(x, range.0, range.1);
}

} // verus!
