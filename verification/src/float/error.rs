//! How far the results of arithmetic are from the exact ones.

use super::arith::{lemma_parts, lemma_root, lemma_round_representable, root, round_ratio, unit};
use super::nearest::{distance, lemma_quanta_grows, lemma_round_error, lemma_round_monotone};
use super::rounding::round_halves;
use super::{quanta, F32, INFINITY_CODE};
use vstd::arithmetic::power2::{
    lemma2_to64, lemma2_to64_rest, lemma_pow2_adds, pow2,
};
use vstd::prelude::*;

verus! {

/// The number that a finite bit pattern stands for.
pub open spec fn number(x: F32) -> real {
    (x.value() as real) / (unit() as real)
}

/// The size of a number.
pub open spec fn size(x: real) -> real {
    if x < 0real {
        0real - x
    } else {
        x
    }
}

/// One part in `2^24`.
pub open spec fn part() -> real {
    1real / 16777216real
}

/// Half a quantum.
pub open spec fn tiny() -> real {
    1real / (2real * (unit() as real))
}

pub(crate) proof fn lemma_cast(x: int, y: int)
    ensures
        (x * y) as real == (x as real) * (y as real),
{
    assert((x * y) as real == (x as real) * (y as real)) by (nonlinear_arith);
}

pub(crate) proof fn lemma_unit()
    ensures
        unit() as real > 0real,
        unit() as real == 713623846352979940529142984724747568191373312real,
        tiny() == 1real / 1427247692705959881058285969449495136382746624real,
{
    lemma2_to64();
    lemma2_to64_rest();
    lemma_pow2_adds(50, 50);
    lemma_pow2_adds(100, 49);
    assert(pow2(50) == 1125899906842624);
    assert(pow2(49) == 562949953421312);
    assert(pow2(100) == 1267650600228229401496703205376);
}

/// A number is its value in quanta, counted in units.
pub(crate) proof fn lemma_number(x: F32)
    ensures
        number(x) * (unit() as real) == x.value() as real,
{
    lemma_unit();
    let (v, u) = (x.value() as real, unit() as real);
    assert((v / u) * u == v) by (nonlinear_arith)
        requires
            u > 0real,
    ;
}

/// A large power of two is representable.
pub(crate) proof fn lemma_large()
    ensures
        quanta(0x7b80_0000) == pow2(269),
        0x7b80_0000 < INFINITY_CODE,
        pow2(269) as real == (unit() as real) * 1329227995784915872903807060280344576real,
{
    lemma2_to64();
    lemma2_to64_rest();
    lemma_pow2_adds(23, 246);
    assert(0x7b80_0000nat / 0x80_0000 == 247 && 0x7b80_0000nat % 0x80_0000 == 0);
    lemma_pow2_adds(60, 60);
    lemma_pow2_adds(149, 120);
    lemma_cast(pow2(149) as int, pow2(120) as int);
    assert(pow2(60) == 1152921504606846976);
    assert(pow2(120) == 1329227995784915872903807060280344576);
}

/// The size of the error of rounding, where the result is not too large.
pub(crate) proof fn lemma_rounded(num: nat, den: nat)
    requires
        den > 0,
        num <= pow2(269) * den,
    ensures
        round_ratio(num, den) < INFINITY_CODE,
        size((quanta(round_ratio(num, den)) as real) * (den as real) - (num as real)) <= part() * (
        num as real) + (den as real) / 2real,
        den == 1 ==> size((quanta(round_ratio(num, den)) as real) - (num as real)) <= part() * (
        num as real),
{
    lemma_large();
    lemma_round_representable(0x7b80_0000);
    assert(num * 1 <= pow2(269) * den);
    lemma_round_monotone(num, den, pow2(269), 1);
    lemma_round_error(num, den);
    let q = quanta(round_ratio(num, den));
    lemma_cast(q as int, den as int);
    let d = distance(q * den, num);
    assert(q * 1 == q);
    let x = size((q as real) * (den as real) - (num as real));
    assert(x == d as real);
    assert(16777216real * x <= (num as real) + 8388608real * (den as real));
    assert(x <= part() * (num as real) + (den as real) / 2real) by (nonlinear_arith)
        requires
            16777216real * x <= (num as real) + 8388608real * (den as real),
            part() == 1real / 16777216real,
    ;
    if den == 1 {
        assert((q as real) * (den as real) == q as real);
        assert(16777216real * x <= num as real);
        assert(x <= part() * (num as real)) by (nonlinear_arith)
            requires
                16777216real * x <= num as real,
                part() == 1real / 16777216real,
        ;
    }
}

/// A product is off by at most one part in `2^24`, or by half a quantum.
pub proof fn lemma_product_error(a: F32, b: F32)
    requires
        a.finite(),
        b.finite(),
        size(number(a) * number(b)) <= 1329227995784915872903807060280344576real,
    ensures
        F32::product(a, b).finite(),
        size(number(F32::product(a, b)) - number(a) * number(b)) <= part() * size(
            number(a) * number(b),
        ) + tiny(),
{
    reveal(F32::product);
    lemma_unit();
    lemma_large();
    lemma_number(a);
    lemma_number(b);
    let u = unit() as real;
    let (x, y) = (a.value(), b.value());
    let (ra, rb) = (number(a), number(b));
    let num = a.magnitude() * b.magnitude();
    let p = F32::product(a, b);
    lemma_cast(a.magnitude() as int, b.magnitude() as int);
    let (ma, mb) = (a.magnitude() as real, b.magnitude() as real);
    let t = ra * rb;
    let sign = if a.negative() != b.negative() {
        0real - 1real
    } else {
        1real
    };
    assert(ra * u == ma || ra * u == 0real - ma);
    assert(rb * u == mb || rb * u == 0real - mb);
    assert(num as real == sign * (t * (u * u))) by (nonlinear_arith)
        requires
            num as real == ma * mb,
            ra * u == if a.negative() {
                0real - ma
            } else {
                ma
            },
            rb * u == if b.negative() {
                0real - mb
            } else {
                mb
            },
            t == ra * rb,
            sign == if a.negative() != b.negative() {
                0real - 1real
            } else {
                1real
            },
    ;
    assert(num as real >= 0real);
    let large = 1329227995784915872903807060280344576real;
    assert(sign * (t * (u * u)) == size(t) * (u * u)) by (nonlinear_arith)
        requires
            sign * (t * (u * u)) >= 0real,
            sign == 1real || sign == 0real - 1real,
            u > 0real,
            size(t) == if t < 0real {
                0real - t
            } else {
                t
            },
    ;
    assert(size(t) * (u * u) <= (u * large) * u) by (nonlinear_arith)
        requires
            size(t) <= large,
            u > 0real,
    ;
    lemma_cast(pow2(269) as int, unit() as int);
    assert(num <= pow2(269) * unit());
    lemma_rounded(num, unit());
    let code = round_ratio(num, unit());
    let q = quanta(code) as real;
    assert(p.code() == code && p.negative() == (a.negative() != b.negative()));
    lemma_number(p);
    let rp = number(p);
    assert(rp * u == sign * q);
    assert(size(rp - t) <= part() * size(t) + tiny()) by (nonlinear_arith)
        requires
            rp * u == sign * q,
            sign == 1real || sign == 0real - 1real,
            num as real == sign * (t * (u * u)),
            num as real == size(t) * (u * u),
            size(q * u - (num as real)) <= part() * (num as real) + u / 2real,
            u > 0real,
            tiny() == 1real / (2real * u),
            size(q * u - (num as real)) == if q * u - (num as real) < 0real {
                0real - (q * u - (num as real))
            } else {
                q * u - (num as real)
            },
            size(rp - t) == if rp - t < 0real {
                0real - (rp - t)
            } else {
                rp - t
            },
    ;
}

pub(crate) proof fn lemma_cancel(x: real, y: real, w: real)
    requires
        w > 0real,
        x * w <= y * w,
    ensures
        x <= y,
{
    assert(x <= y) by (nonlinear_arith)
        requires
            w > 0real,
            x * w <= y * w,
    ;
}

pub(crate) proof fn lemma_size_scaled(x: real, w: real)
    requires
        w > 0real,
    ensures
        size(x * w) == size(x) * w,
        size(x) >= 0real,
{
    assert(x < 0real ==> x * w < 0real) by (nonlinear_arith)
        requires
            w > 0real,
    ;
    assert(x >= 0real ==> x * w >= 0real) by (nonlinear_arith)
        requires
            w > 0real,
    ;
    assert((0real - x) * w == 0real - x * w) by (nonlinear_arith);
}

pub(crate) proof fn lemma_ring(x: real, y: real, w: real)
    ensures
        (x + y) * w == x * w + y * w,
        (x - y) * w == x * w - y * w,
        (x * y) * w == x * (y * w),
        (x * y) * (w * w) == (x * w) * (y * w),
        x * (w * w) == (x * w) * w,
{
    assert((x + y) * w == x * w + y * w) by (nonlinear_arith);
    assert((x - y) * w == x * w - y * w) by (nonlinear_arith);
    assert((x * y) * w == x * (y * w)) by (nonlinear_arith);
    assert((x * y) * (w * w) == (x * w) * (y * w)) by (nonlinear_arith);
    assert(x * (w * w) == (x * w) * w) by (nonlinear_arith);
}

pub(crate) proof fn lemma_more(x: real, y: real, w: real)
    requires
        w >= 0real,
        x <= y,
    ensures
        x * w <= y * w,
        w * x <= w * y,
{
    assert(x * w <= y * w && w * x <= w * y) by (nonlinear_arith)
        requires
            w >= 0real,
            x <= y,
    ;
}

/// A sum is off by at most one part in `2^24`.
pub proof fn lemma_sum_error(a: F32, b: F32)
    requires
        a.finite(),
        b.finite(),
        size(number(a) + number(b)) <= 1329227995784915872903807060280344576real,
    ensures
        F32::sum(a, b).finite(),
        size(number(F32::sum(a, b)) - (number(a) + number(b))) <= part() * size(
            number(a) + number(b),
        ),
{
    reveal(F32::sum);
    lemma_unit();
    lemma_large();
    lemma_number(a);
    lemma_number(b);
    lemma_parts(0);
    let u = unit() as real;
    let t = number(a) + number(b);
    let v = a.value() + b.value();
    let r = F32::sum(a, b);
    let large = 1329227995784915872903807060280344576real;
    lemma_number(r);
    lemma_ring(number(a), number(b), u);
    assert(t * u == v as real);
    let num: nat = if v >= 0 {
        v as nat
    } else {
        (-v) as nat
    };
    lemma_size_scaled(t, u);
    assert(num as real == size(t) * u);
    lemma_more(size(t), large, u);
    assert(num as real <= pow2(269) as real);
    assert(num <= pow2(269) * 1);
    lemma_rounded(num, 1);
    let q = quanta(round_ratio(num, 1)) as real;
    let rr = number(r);
    lemma_ring(rr, t, u);
    lemma_size_scaled(rr - t, u);
    lemma_ring(part(), size(t), u);
    if v == 0 {
        assert(r.code() == 0);
        assert(rr * u == 0real);
    } else {
        assert(r.code() == round_ratio(num, 1) && r.negative() == (v < 0));
        if v > 0 {
            assert(rr * u == q);
        } else {
            assert(rr * u == 0real - q);
        }
        assert(size(rr * u - t * u) == size(q - (num as real)));
    }
    assert(size(rr - t) * u <= part() * (num as real)) by {
        if v == 0 {
            assert(num as real == 0real);
            assert(part() * (num as real) == 0real) by (nonlinear_arith)
                requires
                    num as real == 0real,
            ;
        }
    }
    assert(size(rr - t) * u <= (part() * size(t)) * u);
    lemma_cancel(size(rr - t), part() * size(t), u);
}

/// A quotient, times the divisor, is off by at most one part in `2^24`, or by half
/// a quantum of the divisor.
pub proof fn lemma_quotient_error(a: F32, b: F32)
    requires
        a.finite(),
        b.finite(),
        !b.negative(),
        number(b) > 0real,
        size(number(a)) <= number(b) * 1329227995784915872903807060280344576real,
    ensures
        F32::quotient(a, b).finite(),
        size(number(F32::quotient(a, b)) * number(b) - number(a)) <= part() * size(number(a))
            + tiny() * number(b),
{
    reveal(F32::quotient);
    lemma_unit();
    lemma_large();
    lemma_number(a);
    lemma_number(b);
    lemma_parts(0);
    let u = unit() as real;
    let (ra, rb) = (number(a), number(b));
    let large = 1329227995784915872903807060280344576real;
    let den = b.magnitude();
    let num = a.magnitude() * unit();
    lemma_cast(a.magnitude() as int, unit() as int);
    let r = F32::quotient(a, b);
    lemma_parts(b.code());
    assert(rb * u == den as real);
    lemma_size_scaled(rb, u);
    if den == 0 {
        lemma_cancel(rb, 0real, u);
    }
    assert(!b.zero());
    let ma = a.magnitude() as real;
    let d = den as real;
    lemma_size_scaled(ra, u);
    assert(ma == size(ra) * u);
    // The quotient is not too large.
    lemma_more(size(ra), rb * large, u);
    assert((rb * large) * u == (rb * u) * large) by (nonlinear_arith);
    lemma_more(ma, d * large, u);
    assert((d * large) * u == (u * large) * d) by (nonlinear_arith);
    lemma_cast(pow2(269) as int, den as int);
    assert(num as real <= (pow2(269) * den) as real);
    assert(num <= pow2(269) * den);
    lemma_rounded(num, den);
    let q = quanta(round_ratio(num, den)) as real;
    assert(r.code() == round_ratio(num, den) && r.negative() == a.negative());
    lemma_number(r);
    let rr = number(r);
    let x = rr * rb - ra;
    lemma_ring(rr, rb, u);
    lemma_ring(rr * rb, ra, u * u);
    lemma_ring(ra, ra, u);
    let uu = u * u;
    assert(uu > 0real) by (nonlinear_arith)
        requires
            u > 0real,
            uu == u * u,
    ;
    assert(x * uu == (rr * u) * d - (ra * u) * u);
    if a.negative() {
        assert((0real - q) * d == 0real - q * d) by (nonlinear_arith);
        assert((0real - ma) * u == 0real - ma * u) by (nonlinear_arith);
        assert(x * uu == 0real - (q * d - ma * u));
    } else {
        assert(x * uu == q * d - ma * u);
    }
    lemma_size_scaled(x, uu);
    assert(size(x) * uu == size(q * d - (num as real)));
    // The same in quanta.
    lemma_ring(part(), size(ra), uu);
    lemma_ring(size(ra), u, u);
    assert(size(ra) * uu == num as real);
    assert((tiny() * rb) * uu == (tiny() * u) * (rb * u)) by (nonlinear_arith)
        requires
            uu == u * u,
    ;
    assert(tiny() * u == 1real / 2real) by (nonlinear_arith)
        requires
            tiny() == 1real / (2real * u),
            u > 0real,
    ;
    lemma_ring(part() * size(ra), tiny() * rb, uu);
    lemma_cancel(size(x), part() * size(ra) + tiny() * rb, uu);
}

/// What is close to a root has a square close to the number.
pub(crate) proof fn lemma_square_close(k: real, q: real, w: real)
    requires
        k >= 1073741824real,
        k * k <= w,
        w <= k * k + k + 1real / 4real,
        k - part() * k - 1real <= q,
        q <= k + part() * k + 1real,
    ensures
        size(q * q - w) <= 3real * part() * w,
{
    let kk = k * k;
    let b = 65real / 1073741824real;
    let y = q - k;
    lemma_more(1073741824real, k, k);
    assert(kk >= 1073741824real * k);
    assert(part() * k == k / 16777216real) by (nonlinear_arith)
        requires
            part() == 1real / 16777216real,
    ;
    assert(b * k >= part() * k + 1real);
    assert(size(y) <= b * k);
    assert(q * q == kk + 2real * (k * y) + y * y) by (nonlinear_arith)
        requires
            y == q - k,
            kk == k * k,
    ;
    let s = size(y);
    lemma_more(s, b * k, k);
    assert(k * (b * k) == b * kk) by (nonlinear_arith)
        requires
            kk == k * k,
    ;
    assert(size(k * y) <= b * kk) by {
        lemma_size_scaled(y, k);
        assert(y * k == k * y) by (nonlinear_arith);
        assert(s * k == k * s) by (nonlinear_arith);
    }
    lemma_more(s, b * k, s);
    lemma_more(s, b * k, b * k);
    assert(y * y == s * s) by (nonlinear_arith)
        requires
            s == y || s == 0real - y,
    ;
    assert((b * k) * (b * k) == (b * b) * kk) by (nonlinear_arith)
        requires
            kk == k * k,
    ;
    assert(s * (b * k) == (b * k) * s) by (nonlinear_arith);
    assert(0real <= y * y) by (nonlinear_arith);
    assert(y * y <= (b * b) * kk);
    assert(b * b <= part() / 64real);
    lemma_more(b * b, part() / 64real, kk);
    assert(w - kk <= kk / 536870912real);
    assert(3real * part() * w == 3real * w / 16777216real) by (nonlinear_arith)
        requires
            part() == 1real / 16777216real,
    ;
    assert((part() / 64real) * kk == kk / 1073741824real) by (nonlinear_arith)
        requires
            part() == 1real / 16777216real,
    ;
    assert(b * kk == 65real * kk / 1073741824real) by (nonlinear_arith)
        requires
            b == 65real / 1073741824real,
    ;
}

/// The code of a root is that of the number next to it.
pub(crate) proof fn lemma_root_code(h: nat, exact: bool)
    ensures
        exact ==> round_halves(h, exact) == round_ratio(h, 2),
        !exact ==> round_halves(h, exact) == round_ratio(2 * h + 1, 4),
{
    assert(2 * h / 2 == h && (2 * h) % 2 == 0);
    assert(2 * (2 * h + 1) / 4 == h && (2 * (2 * h + 1)) % 4 == 2);
}

/// A root lies between two numbers whose squares enclose the number.
pub(crate) proof fn lemma_root_size(w: nat, u: nat)
    requires
        u as real == 713623846352979940529142984724747568191373312real,
        w >= 4 * u,
        w as real <= 4real * (u as real) * (u as real) * 1329227995784915872903807060280344576real,
    ensures
        ({
            let h = root(w) as real;
            &&& h >= 2147483648real
            &&& h <= (u as real) * 1329227995784915872903807060280344576real
            &&& h * h <= w as real
            &&& w as real <= h * h + 2real * h + 1real
        }),
{
    lemma_root(w);
    let r = root(w);
    let h = r as real;
    lemma_cast(r as int, r as int);
    lemma_cast((r + 1) as int, (r + 1) as int);
    assert((h + 1real) * (h + 1real) == h * h + 2real * h + 1real) by (nonlinear_arith);
    let low = 2147483648real;
    if h < low {
        lemma_more(h, low, h);
        lemma_more(h, low, low);
        assert(h * low == low * h) by (nonlinear_arith);
        assert(false);
    }
    let big = (u as real) * 1329227995784915872903807060280344576real;
    if h > big {
        lemma_more(big, h, big);
        lemma_more(big, h, h);
        assert(big * h == h * big) by (nonlinear_arith);
        assert(big * big <= h * h);
        assert(false);
    }
}

/// A square root is close to the root: its square is off by three parts in `2^24`.
pub proof fn lemma_root_error(a: F32)
    requires
        a.finite(),
        !a.negative(),
        number(a) > 0real,
        number(a) <= 1329227995784915872903807060280344576real,
    ensures
        F32::square_root(a).finite(),
        !F32::square_root(a).negative(),
        size(number(F32::square_root(a)) * number(F32::square_root(a)) - number(a)) <= 3real
            * part() * number(a),
{
    reveal(F32::square_root);
    lemma_unit();
    lemma_large();
    lemma_number(a);
    lemma_parts(0);
    let u = unit() as real;
    let ra = number(a);
    let large = 1329227995784915872903807060280344576real;
    let m = a.magnitude();
    let ma = m as real;
    assert(ra * u == ma);
    lemma_size_scaled(ra, u);
    if m == 0 {
        lemma_cancel(ra, 0real, u);
    }
    assert(!a.zero());
    let w = 4 * (m * unit());
    lemma_cast(m as int, unit() as int);
    lemma_more(1real, ma, u);
    assert(w as real == 4real * (ma * u));
    assert(w >= 4 * unit());
    lemma_more(ra, large, u);
    lemma_more(ma, large * u, u);
    assert((large * u) * u == u * u * large) by (nonlinear_arith);
    assert(4real * u * u * large == 4real * (u * u * large)) by (nonlinear_arith);
    lemma_root_size(w, unit());
    let h = root(w);
    let exact = h * h == w;
    lemma_root_code(h, exact);
    let (num, den): (nat, nat) = if exact {
        (h, 2)
    } else {
        (2 * h + 1, 4)
    };
    let top = pow2(269);
    assert(h as real <= top as real);
    assert(h <= top && top >= 1);
    assert(top * 2 == 2 * top && top * 4 == 4 * top);
    assert(num <= top * den) by {
        if exact {
            assert(top * den == 2 * top);
        } else {
            assert(top * den == 4 * top);
        }
    }
    lemma_rounded(num, den);
    let r = F32::square_root(a);
    let q = quanta(round_ratio(num, den)) as real;
    assert(r.code() == round_ratio(num, den) && !r.negative());
    lemma_number(r);
    let rr = number(r);
    assert(rr * u == q);
    // Near half of the root.
    let k = (h as real) / 2real;
    let (n, d) = (num as real, den as real);
    assert(part() * n == n / 16777216real) by (nonlinear_arith)
        requires
            part() == 1real / 16777216real,
    ;
    assert(part() * k == k / 16777216real) by (nonlinear_arith)
        requires
            part() == 1real / 16777216real,
    ;
    assert(q * 2real == 2real * q && q * 4real == 4real * q);
    assert(k - part() * k - 1real <= q && q <= k + part() * k + 1real) by {
        if exact {
            assert(q * d == 2real * q);
        } else {
            assert(q * d == 4real * q);
        }
    }
    assert(k * k == (h as real) * (h as real) / 4real) by (nonlinear_arith)
        requires
            k == (h as real) / 2real,
    ;
    let area = ma * u;
    lemma_square_close(k, q, area);
    // And so in units.
    let uu = u * u;
    assert(uu > 0real) by (nonlinear_arith)
        requires
            u > 0real,
            uu == u * u,
    ;
    let x = rr * rr - ra;
    lemma_ring(rr, rr, u);
    lemma_ring(rr * rr, ra, uu);
    lemma_ring(ra, ra, u);
    assert(x * uu == q * q - area);
    lemma_size_scaled(x, uu);
    lemma_ring(3real * part(), ra, uu);
    lemma_ring(ra, u, u);
    assert(ra * uu == area);
    lemma_cancel(size(x), 3real * part() * ra, uu);
}

/// The order of scores is that of the numbers they stand for.
pub proof fn lemma_order(a: F32, b: F32)
    requires
        a.finite(),
        b.finite(),
    ensures
        number(a) < number(b) <==> F32::less(a, b),
        number(a) == number(b) <==> F32::same_number(a, b),
        number(a) < number(b) ==> a.total_rank() < b.total_rank(),
{
    lemma_unit();
    lemma_number(a);
    lemma_number(b);
    lemma_parts(0);
    let u = unit() as real;
    let (x, y) = (a.code(), b.code());
    lemma_quanta_grows(0, x);
    lemma_quanta_grows(0, y);
    if x <= y {
        lemma_quanta_grows(x, y);
    } else {
        lemma_quanta_grows(y, x);
    }
    if number(a) <= number(b) {
        lemma_more(number(a), number(b), u);
    } else {
        lemma_more(number(b), number(a), u);
    }
    if a.value() <= b.value() {
        lemma_cancel(number(a), number(b), u);
    }
    if b.value() <= a.value() {
        lemma_cancel(number(b), number(a), u);
    }
}

} // verus!
