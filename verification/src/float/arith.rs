//! Correctly rounded arithmetic.

use super::rounding::{lemma_scale_of, round_halves, round_scaled, scaled_halves};
use super::{quanta, scale, significand, F32, HIDDEN_BIT, INFINITY_CODE, NAN_BITS, SIGN_BIT};
use vstd::arithmetic::div_mod::{
    lemma_fundamental_div_mod, lemma_fundamental_div_mod_converse, lemma_mod_pos_bound,
};
use vstd::arithmetic::power2::{
    lemma2_to64, lemma2_to64_rest, lemma_pow2_adds, lemma_pow2_pos, lemma_pow2_strictly_increases,
    lemma_pow2_unfold, pow2,
};
use vstd::bits::{lemma_u64_shl_is_mul, lemma_u64_shr_is_div};
use vstd::prelude::*;

verus! {

/// One, in quanta.
pub open spec fn unit() -> nat {
    pow2(149)
}

/// The code of the magnitude nearest to `num / den` quanta.
pub open spec fn round_ratio(num: nat, den: nat) -> nat {
    round_halves(2 * num / den, (2 * num) % den == 0)
}

/// The integer part of the square root of `n`.
pub open spec fn root(n: nat) -> nat
    decreases n,
{
    if n == 0 {
        0
    } else {
        let r = root((n - 1) as nat);
        if (r + 1) * (r + 1) <= n {
            r + 1
        } else {
            r
        }
    }
}

impl F32 {
    pub open spec fn undefined() -> F32 {
        F32 { bits: NAN_BITS }
    }

    pub open spec fn negated(self) -> F32 {
        F32::compose(!self.negative(), self.code())
    }

    /// `a + b`. A sum that is exactly zero is `-0` where both terms are
    /// negative, and `+0` otherwise.
    #[verifier::opaque]
    pub open spec fn sum(a: F32, b: F32) -> F32 {
        if a.nan() || b.nan() {
            F32::undefined()
        } else if a.infinite() {
            if b.infinite() && a.negative() != b.negative() {
                F32::undefined()
            } else {
                a
            }
        } else if b.infinite() {
            b
        } else {
            let v = a.value() + b.value();
            if v > 0 {
                F32::compose(false, round_ratio(v as nat, 1))
            } else if v < 0 {
                F32::compose(true, round_ratio((-v) as nat, 1))
            } else {
                F32::compose(a.negative() && b.negative(), 0)
            }
        }
    }

    /// `a - b`.
    pub open spec fn difference(a: F32, b: F32) -> F32 {
        F32::sum(a, b.negated())
    }

    /// `a * b`.
    #[verifier::opaque]
    pub open spec fn product(a: F32, b: F32) -> F32 {
        if a.nan() || b.nan() || (a.infinite() && b.zero()) || (a.zero() && b.infinite()) {
            F32::undefined()
        } else if a.infinite() || b.infinite() {
            F32::compose(a.negative() != b.negative(), INFINITY_CODE as nat)
        } else {
            F32::compose(
                a.negative() != b.negative(),
                round_ratio(a.magnitude() * b.magnitude(), unit()),
            )
        }
    }

    /// `a / b`.
    #[verifier::opaque]
    pub open spec fn quotient(a: F32, b: F32) -> F32 {
        if a.nan() || b.nan() || (a.infinite() && b.infinite()) || (a.zero() && b.zero()) {
            F32::undefined()
        } else if a.infinite() || b.zero() {
            F32::compose(a.negative() != b.negative(), INFINITY_CODE as nat)
        } else if b.infinite() {
            F32::compose(a.negative() != b.negative(), 0)
        } else {
            F32::compose(
                a.negative() != b.negative(),
                round_ratio(a.magnitude() * unit(), b.magnitude()),
            )
        }
    }

    /// The square root of `a`. In quanta it is the root of `magnitude * unit`,
    /// so twice that root is the root of four times as much.
    #[verifier::opaque]
    pub open spec fn square_root(a: F32) -> F32 {
        if a.zero() {
            a
        } else if a.nan() || a.negative() {
            F32::undefined()
        } else if a.infinite() {
            a
        } else {
            let w = 4 * (a.magnitude() * unit());
            F32::compose(false, round_halves(root(w), root(w) * root(w) == w))
        }
    }

    /// The whole number `n`.
    #[verifier::opaque]
    pub open spec fn whole(n: nat) -> F32 {
        F32::compose(false, round_ratio(n * unit(), 1))
    }

    /// The byte nearest to `a`, halves rounded up; numbers beyond the range of
    /// a byte are clamped into it, and a NaN gives zero.
    #[verifier::opaque]
    pub open spec fn nearest_byte(a: F32) -> u8 {
        if a.nan() || a.negative() {
            0
        } else if a.infinite() {
            255
        } else {
            let n = (2 * a.magnitude() + unit()) / (2 * unit());
            if n > 255 {
                255
            } else {
                n as u8
            }
        }
    }
}

/// The bounds of a finite code's significand and scale.
pub(crate) proof fn lemma_parts(code: nat)
    requires
        code < INFINITY_CODE,
    ensures
        significand(code) < 0x100_0000,
        scale(code) <= 253,
        scale(code) > 0 ==> significand(code) >= 0x80_0000,
        significand(code) == 0 <==> code == 0,
        quanta(code) == 0 <==> code == 0,
{
    lemma_pow2_pos(scale(code));
    let m = significand(code);
    let u = pow2(scale(code));
    assert(m * u == 0 <==> m == 0) by (nonlinear_arith)
        requires
            u > 0,
    ;
}

/// Where `num / den` is `(p + r / m) 2^(v - u)`, `p` and whether `r` is zero
/// are all that rounding needs of it.
proof fn lemma_scaled_ratio(
    num: nat,
    den: nat,
    p: nat,
    m: nat,
    r: nat,
    u: nat,
    v: nat,
)
    requires
        den > 0,
        r < m,
        num * pow2(u) * m == (p * m + r) * pow2(v) * den,
    ensures
        scaled_halves(p, v - u - 1, r > 0, num / den, num % den == 0),
{
    lemma_fundamental_div_mod(num as int, den as int);
    lemma_mod_pos_bound(num as int, den as int);
    let f = num / den;
    let g = num % den;
    let a = p * m + r;
    let pu = pow2(u);
    let pv = pow2(v);
    lemma_pow2_pos(u);
    lemma_pow2_pos(v);
    assert(num == f * den + g) by (nonlinear_arith)
        requires
            num == den * f + g,
    ;
    if v >= u + 1 {
        let s = pow2((v - u) as nat);
        lemma_pow2_pos((v - u) as nat);
        lemma_pow2_adds((v - u) as nat, u);
        assert(num * m == a * s * den) by (nonlinear_arith)
            requires
                num * pu * m == a * pv * den,
                pv == s * pu,
                pu > 0,
        ;
        assert(num * m == (p * s * den) * m + r * s * den) by (nonlinear_arith)
            requires
                num * m == (p * m + r) * s * den,
        ;
        let low = p * s * den;
        let sd = s * den;
        assert(sd > 0) by (nonlinear_arith)
            requires
                sd == s * den,
                s > 0,
                den > 0,
        ;
        assert(r * s * den == r * sd) by (nonlinear_arith)
            requires
                sd == s * den,
        ;
        assert(num >= low) by (nonlinear_arith)
            requires
                num * m == low * m + r * sd,
                r * sd >= 0,
                m > 0,
        ;
        assert(r * sd >= 0) by (nonlinear_arith)
            requires
                r >= 0,
                sd > 0,
        ;
        assert(num < low + sd) by (nonlinear_arith)
            requires
                num * m == low * m + r * sd,
                r < m,
                sd > 0,
        ;
        assert(r == 0 ==> num == low) by (nonlinear_arith)
            requires
                num * m == low * m + r * sd,
                m > 0,
        ;
        assert(r > 0 ==> num > low) by (nonlinear_arith)
            requires
                num * m == low * m + r * sd,
                m > 0,
                sd > 0,
        ;
        let ps = p * s;
        assert(f >= ps) by (nonlinear_arith)
            requires
                f * den + g >= ps * den,
                g < den,
        ;
        assert(f < ps + s) by (nonlinear_arith)
            requires
                f * den + g < ps * den + s * den,
                g >= 0,
                den > 0,
        ;
        assert((p + 1) * s == ps + s) by (nonlinear_arith)
            requires
                ps == p * s,
        ;
        if r == 0 {
            assert(f == ps && g == 0) by (nonlinear_arith)
                requires
                    f * den + g == ps * den,
                    g < den,
                    g >= 0,
            ;
        } else if f == ps {
            assert(g > 0);
        }
    } else {
        let t = (u - v) as nat;
        let tt = pow2(t);
        lemma_pow2_pos(t);
        lemma_pow2_adds(t, v);
        let mm = tt * m;
        assert(num * mm == a * den) by (nonlinear_arith)
            requires
                num * pu * m == a * pv * den,
                pu == tt * pv,
                pv > 0,
                mm == tt * m,
        ;
        lemma_fundamental_div_mod(p as int, tt as int);
        lemma_mod_pos_bound(p as int, tt as int);
        let f2 = p / tt;
        let h = p % tt;
        let w = h * m + r;
        assert(a == f2 * mm + w) by (nonlinear_arith)
            requires
                a == p * m + r,
                p == tt * f2 + h,
                mm == tt * m,
                w == h * m + r,
        ;
        assert(w < mm) by (nonlinear_arith)
            requires
                w == h * m + r,
                h + 1 <= tt,
                r < m,
                mm == tt * m,
        ;
        assert(w >= 0 && (w == 0 <==> h == 0 && r == 0)) by (nonlinear_arith)
            requires
                w == h * m + r,
                h >= 0,
                r >= 0,
                m > 0,
        ;
        let base = f2 * den;
        assert(num * mm == base * mm + w * den) by (nonlinear_arith)
            requires
                num * mm == a * den,
                a == f2 * mm + w,
                base == f2 * den,
        ;
        assert(num >= base) by (nonlinear_arith)
            requires
                num * mm == base * mm + w * den,
                w >= 0,
                den > 0,
                mm > 0,
        ;
        assert(num < base + den) by (nonlinear_arith)
            requires
                num * mm == base * mm + w * den,
                w < mm,
                den > 0,
        ;
        lemma_fundamental_div_mod_converse(num as int, den as int, f2 as int, num - base);
        assert(g == 0 <==> w == 0) by (nonlinear_arith)
            requires
                num * mm == base * mm + w * den,
                num == base + g,
                mm > 0,
                den > 0,
        ;
        assert(tt == pow2((-(v - u - 1) - 1) as nat));
    }
}

/// `root` is the integer part of the square root.
pub(crate) proof fn lemma_root(n: nat)
    ensures
        root(n) * root(n) <= n < (root(n) + 1) * (root(n) + 1),
    decreases n,
{
    if n > 0 {
        lemma_root((n - 1) as nat);
        let r = root((n - 1) as nat);
        let t = r + 1;
        assert(t * t < (t + 1) * (t + 1)) by (nonlinear_arith)
            requires
                t >= 0,
        ;
        let f = root(n);
        if t * t <= n {
            assert(f * f <= n < (f + 1) * (f + 1)) by (nonlinear_arith)
                requires
                    f == t,
                    t * t <= n,
                    n <= t * t,
                    t * t < (t + 1) * (t + 1),
            ;
        } else {
            assert(f * f <= n < (f + 1) * (f + 1)) by (nonlinear_arith)
                requires
                    f == r,
                    t == r + 1,
                    r * r <= n,
                    n < t * t,
            ;
        }
    } else {
        let f = root(0);
        assert(f * f <= 0 < (f + 1) * (f + 1)) by (nonlinear_arith)
            requires
                f == 0,
        ;
    }
}

proof fn lemma_square_order(a: nat, b: nat)
    requires
        a * a < b * b,
    ensures
        a < b,
{
    assert(a < b) by (nonlinear_arith)
        requires
            a * a < b * b,
            a >= 0,
            b >= 0,
    ;
}

/// Where `n` is `m 4^h` and `p` is the integer part of the root of `m`, the
/// root of `n` is `p 2^h` and a fraction of `2^h`.
proof fn lemma_scaled_root(n: nat, m: nat, h: nat, p: nat)
    requires
        h > 0,
        n == m * (pow2(h) * pow2(h)),
        p * p <= m < (p + 1) * (p + 1),
    ensures
        scaled_halves(p, h - 1, p * p != m, root(n), root(n) * root(n) == n),
{
    let s = pow2(h);
    lemma_pow2_pos(h);
    lemma_root(n);
    let f = root(n);
    let ps = p * s;
    assert(ps * ps == (p * p) * (s * s)) by (nonlinear_arith)
        requires
            ps == p * s,
    ;
    assert((p * p) * (s * s) <= n) by (nonlinear_arith)
        requires
            n == m * (s * s),
            p * p <= m,
    ;
    let qs = (p + 1) * s;
    assert(qs * qs == ((p + 1) * (p + 1)) * (s * s)) by (nonlinear_arith)
        requires
            qs == (p + 1) * s,
    ;
    assert(n < ((p + 1) * (p + 1)) * (s * s)) by (nonlinear_arith)
        requires
            n == m * (s * s),
            m < (p + 1) * (p + 1),
            s > 0,
    ;
    lemma_square_order(ps, f + 1);
    lemma_square_order(f, qs);
    if p * p == m {
        assert(ps * ps == n);
        if f > ps {
            assert(f * f > ps * ps) by (nonlinear_arith)
                requires
                    f > ps,
                    ps >= 0,
            ;
        }
    } else if f == ps {
        assert((p * p) * (s * s) < n) by (nonlinear_arith)
            requires
                n == m * (s * s),
                p * p < m,
                s > 0,
        ;
    }
}

/// The integer part of the square root.
fn integer_root(n: u64) -> (r: u64)
    ensures
        r < 0x1_0000_0000,
        r * r <= n < (r + 1) * (r + 1),
{
    let mut r: u64 = 0;
    let mut step: u64 = 0x1_0000_0000;
    let ghost mut left: nat = 32;
    proof {
        lemma2_to64();
        lemma2_to64_rest();
    }
    while step > 1
        invariant
            step as nat == pow2(left),
            left <= 32,
            0 < step <= 0x1_0000_0000,
            r + step <= 0x1_0000_0000,
            r * r <= n < (r + step) * (r + step),
        decreases step,
    {
        proof {
            if left == 0 {
                lemma2_to64();
                assert(false);
            }
            lemma_pow2_unfold(left);
            left = (left - 1) as nat;
            lemma_pow2_pos(left);
        }
        step = step / 2;
        let next: u64 = r + step;
        assert(next * next <= u64::MAX) by (nonlinear_arith)
            requires
                0 <= next <= 0xffff_ffff,
        ;
        if next * next <= n {
            r = next;
        }
    }
    r
}

/// The parts of a finite number.
fn unpack(x: F32) -> (r: (u64, i32))
    requires
        x.finite(),
    ensures
        r.0 == significand(x.code()),
        r.1 == scale(x.code()),
        r.0 < 0x100_0000,
        0 <= r.1 <= 253,
        r.1 > 0 ==> r.0 >= 0x80_0000,
        r.0 == 0 <==> x.zero(),
        x.magnitude() == r.0 * pow2(r.1 as nat),
        x.magnitude() == 0 <==> r.0 == 0,
{
    let code: u32 = x.bits % SIGN_BIT;
    proof {
        lemma_parts(code as nat);
    }
    if code < HIDDEN_BIT {
        (code as u64, 0)
    } else {
        ((HIDDEN_BIT + code % HIDDEN_BIT) as u64, (code / HIDDEN_BIT) as i32 - 1)
    }
}

/// Shifts a positive significand up until its leading bit is the hidden bit.
fn normalize(m: u64) -> (r: (u64, i32))
    requires
        0 < m < 0x100_0000,
    ensures
        0x80_0000 <= r.0 < 0x100_0000,
        0 <= r.1 <= 23,
        r.0 == m * pow2(r.1 as nat),
{
    let mut n: u64 = m;
    let mut z: i32 = 0;
    proof {
        lemma2_to64();
        assert(m * 1 == m);
    }
    while n < 0x80_0000
        invariant
            0 < m,
            0 < n < 0x100_0000,
            0 <= z <= 23,
            n == m * pow2(z as nat),
        decreases 0x100_0000 - n,
    {
        proof {
            lemma_pow2_unfold((z + 1) as nat);
            assert(m * pow2((z + 1) as nat) == 2 * n) by (nonlinear_arith)
                requires
                    n == m * pow2(z as nat),
                    pow2((z + 1) as nat) == 2 * pow2(z as nat),
            ;
            lemma2_to64();
            assert(n >= pow2(z as nat)) by (nonlinear_arith)
                requires
                    n == m * pow2(z as nat),
                    m >= 1,
            ;
            assert(z < 23);
        }
        n = n * 2;
        z = z + 1;
    }
    (n, z)
}

/// The number with the given sign and magnitude code.
fn pack(negative: bool, code: u32) -> (r: F32)
    requires
        code < SIGN_BIT,
    ensures
        r == F32::compose(negative, code as nat),
{
    if negative {
        F32 { bits: SIGN_BIT + code }
    } else {
        F32 { bits: code }
    }
}

/// `m << d`, where it fits.
fn shift_up(m: u64, d: u64) -> (r: u64)
    requires
        d < 64,
        m * pow2(d as nat) <= u64::MAX,
    ensures
        r == m * pow2(d as nat),
{
    proof {
        lemma_u64_shl_is_mul(m, d);
    }
    m << d
}

/// The code nearest to `p 2^n / den` for `den = 2^d`.
fn round_product(p: u64, n: i32, d: i32) -> (code: u32)
    requires
        0 <= n <= 506,
        0 <= d <= 149,
        n - d <= 400,
    ensures
        code as nat == round_ratio(p as nat * pow2(n as nat), pow2(d as nat)),
        code <= INFINITY_CODE,
{
    let ghost num = p as nat * pow2(n as nat);
    let ghost den = pow2(d as nat);
    proof {
        lemma_pow2_pos(d as nat);
        lemma_pow2_unfold((n + 1) as nat);
    }
    if p == 0 {
        proof {
            lemma_fundamental_div_mod_converse(0, den as int, 0, 0);
            lemma_pow2_pos(1);
            lemma2_to64();
            assert(num == 0);
            assert(round_halves(0, true) == 0);
        }
        return 0;
    }
    proof {
        assert((2 * num) * pow2(d as nat) * 1 == (p * 1 + 0) * pow2((n + 1) as nat) * den)
            by (nonlinear_arith)
            requires
                num == p * pow2(n as nat),
                pow2((n + 1) as nat) == 2 * pow2(n as nat),
                den == pow2(d as nat),
        ;
        lemma_scaled_ratio(2 * num, den, p as nat, 1, 0, d as nat, (n + 1) as nat);
    }
    round_scaled(p, n - d, false, Ghost(2 * num / den), Ghost((2 * num) % den == 0))
}

/// The sum of two finite numbers, the first with the larger scale.
fn add_finite(a: F32, b: F32) -> (r: F32)
    requires
        a.finite(),
        b.finite(),
        scale(a.code()) >= scale(b.code()),
    ensures
        r == F32::sum(a, b),
{
    proof {
        reveal(F32::sum);
    }
    let (ma, sa) = unpack(a);
    let (mb, sb) = unpack(b);
    let neg_a: bool = a.bits >= SIGN_BIT;
    let neg_b: bool = b.bits >= SIGN_BIT;
    let gap: i32 = sa - sb;
    proof {
        lemma2_to64();
        assert(pow2(0) == 1);
    }
    if gap <= 39 {
        proof {
            if gap < 39 {
                lemma_pow2_strictly_increases(gap as nat, 39);
            }
            lemma2_to64_rest();
            lemma_pow2_pos(gap as nat);
            assert(ma * pow2(gap as nat) < 0x100_0000 * pow2(39)) by (nonlinear_arith)
                requires
                    0 <= ma < 0x100_0000,
                    0 < pow2(gap as nat) <= pow2(39),
            ;
        }
        let top: u64 = shift_up(ma, gap as u64);
        proof {
            lemma_pow2_adds(gap as nat, sb as nat);
            let u = pow2(sb as nat);
            lemma_pow2_pos(sb as nat);
            assert(a.magnitude() == top * u) by (nonlinear_arith)
                requires
                    a.magnitude() == ma * pow2(sa as nat),
                    top == ma * pow2(gap as nat),
                    pow2(sa as nat) == pow2(gap as nat) * u,
            ;
            assert((top + mb) * u == top * u + mb * u) by (nonlinear_arith);
            assert((top - mb) * u == top * u - mb * u) by (nonlinear_arith);
            assert((mb - top) * u == mb * u - top * u) by (nonlinear_arith);
            assert(top > mb ==> (top - mb) * u > 0) by (nonlinear_arith)
                requires
                    u > 0,
            ;
            assert(mb > top ==> (mb - top) * u > 0) by (nonlinear_arith)
                requires
                    u > 0,
            ;
        }
        if neg_a == neg_b {
            let code: u32 = round_product(top + mb, sb, 0);
            proof {
                if a.value() + b.value() == 0 {
                    assert(a.magnitude() == 0 && b.magnitude() == 0);
                    assert(round_halves(0, true) == 0);
                }
            }
            pack(neg_a, code)
        } else if top > mb {
            let code: u32 = round_product(top - mb, sb, 0);
            pack(neg_a, code)
        } else if top < mb {
            let code: u32 = round_product(mb - top, sb, 0);
            pack(neg_b, code)
        } else {
            pack(false, 0)
        }
    } else if mb == 0 {
        proof {
            assert(ma * pow2(sa as nat) > 0) by {
                lemma_parts(a.code());
            }
        }
        let code: u32 = round_product(ma, sa, 0);
        pack(neg_a, code)
    } else {
        let ghost u = pow2((sa - 16) as nat);
        let ghost ub = pow2(sb as nat);
        let ghost bm = (mb * ub) as nat;
        proof {
            lemma_pow2_pos((sa - 16) as nat);
            lemma_pow2_pos(sb as nat);
            lemma_pow2_adds(24, sb as nat);
            if sb + 24 < sa - 16 {
                lemma_pow2_strictly_increases((sb + 24) as nat, (sa - 16) as nat);
            }
            assert(mb * ub < 0x100_0000 * ub) by (nonlinear_arith)
                requires
                    mb < 0x100_0000,
                    ub > 0,
            ;
            assert(0 < bm < u);
            lemma_pow2_adds(16, (sa - 16) as nat);
            assert(a.magnitude() == (ma * 0x1_0000) * u) by (nonlinear_arith)
                requires
                    a.magnitude() == ma * pow2(sa as nat),
                    pow2(sa as nat) == 0x1_0000 * u,
            ;
            lemma_pow2_unfold((sa - 15) as nat);
        }
        let p: u64 = if neg_a == neg_b {
            ma * 0x1_0000
        } else {
            ma * 0x1_0000 - 1
        };
        let ghost r: nat = if neg_a == neg_b {
            bm
        } else {
            (u - bm) as nat
        };
        let ghost v: nat = (p * u + r) as nat;
        proof {
            assert(p == ma * 0x1_0000 - 1 ==> p * u == (ma * 0x1_0000) * u - u)
                by (nonlinear_arith);
            assert(p * u > 0) by (nonlinear_arith)
                requires
                    p > 0,
                    u > 0,
            ;
            assert((2 * v) * pow2(0) * u == (p * u + r) * pow2((sa - 15) as nat) * 1)
                by (nonlinear_arith)
                requires
                    v == p * u + r,
                    pow2(0) == 1,
                    pow2((sa - 15) as nat) == 2 * u,
            ;
            lemma_scaled_ratio(2 * v, 1, p as nat, u, r, 0, (sa - 15) as nat);
            assert(neg_a == neg_b ==> v == a.magnitude() + b.magnitude());
            assert(neg_a != neg_b ==> v == a.magnitude() - b.magnitude());
        }
        let code: u32 = round_scaled(
            p,
            sa - 16,
            true,
            Ghost(2 * v / 1),
            Ghost((2 * v) % 1 == 0),
        );
        pack(neg_a, code)
    }
}

impl F32 {
    /// This number with the other sign.
    pub fn negate(self) -> (r: F32)
        ensures
            r == self.negated(),
    {
        let code: u32 = self.bits % SIGN_BIT;
        pack(self.bits < SIGN_BIT, code)
    }

    /// The sum of two numbers.
    pub fn plus(self, other: F32) -> (r: F32)
        ensures
            r == F32::sum(self, other),
    {
        proof {
            reveal(F32::sum);
        }
        if self.is_nan() || other.is_nan() {
            return F32 { bits: NAN_BITS };
        }
        if !self.is_finite() {
            if !other.is_finite() && (self.bits >= SIGN_BIT) != (other.bits >= SIGN_BIT) {
                return F32 { bits: NAN_BITS };
            }
            return self;
        }
        if !other.is_finite() {
            return other;
        }
        let (_, sa) = unpack(self);
        let (_, sb) = unpack(other);
        if sa >= sb {
            add_finite(self, other)
        } else {
            add_finite(other, self)
        }
    }

    /// The difference of two numbers.
    pub fn minus(self, other: F32) -> (r: F32)
        ensures
            r == F32::difference(self, other),
    {
        self.plus(other.negate())
    }

    /// The product of two numbers.
    pub fn times(self, other: F32) -> (r: F32)
        ensures
            r == F32::product(self, other),
    {
        proof {
            reveal(F32::product);
        }
        let a: u32 = self.bits % SIGN_BIT;
        let b: u32 = other.bits % SIGN_BIT;
        let negative: bool = (self.bits >= SIGN_BIT) != (other.bits >= SIGN_BIT);
        if self.is_nan() || other.is_nan() || (a == INFINITY_CODE && b == 0) || (a == 0 && b
            == INFINITY_CODE) {
            return F32 { bits: NAN_BITS };
        }
        if a == INFINITY_CODE || b == INFINITY_CODE {
            return pack(negative, INFINITY_CODE);
        }
        let (ma, sa) = unpack(self);
        let (mb, sb) = unpack(other);
        proof {
            assert(ma * mb < 0x1_0000_0000_0000) by (nonlinear_arith)
                requires
                    0 <= ma < 0x100_0000,
                    0 <= mb < 0x100_0000,
            ;
            lemma_pow2_adds(sa as nat, sb as nat);
            assert(self.magnitude() * other.magnitude() == (ma * mb) * pow2((sa + sb) as nat))
                by (nonlinear_arith)
                requires
                    self.magnitude() == ma * pow2(sa as nat),
                    other.magnitude() == mb * pow2(sb as nat),
                    pow2((sa + sb) as nat) == pow2(sa as nat) * pow2(sb as nat),
            ;
        }
        let code: u32 = round_product(ma * mb, sa + sb, 149);
        pack(negative, code)
    }

    /// The quotient of two numbers.
    pub fn over(self, other: F32) -> (r: F32)
        ensures
            r == F32::quotient(self, other),
    {
        proof {
            reveal(F32::quotient);
        }
        let a: u32 = self.bits % SIGN_BIT;
        let b: u32 = other.bits % SIGN_BIT;
        let negative: bool = (self.bits >= SIGN_BIT) != (other.bits >= SIGN_BIT);
        if self.is_nan() || other.is_nan() || (a == INFINITY_CODE && b == INFINITY_CODE) || (a == 0
            && b == 0) {
            return F32 { bits: NAN_BITS };
        }
        if a == INFINITY_CODE || b == 0 {
            return pack(negative, INFINITY_CODE);
        }
        if b == INFINITY_CODE {
            return pack(negative, 0);
        }
        let (m, sa) = unpack(self);
        let (mb, sb) = unpack(other);
        let ghost num = self.magnitude() * unit();
        let ghost den = other.magnitude();
        if m == 0 {
            proof {
                assert(num == 0) by (nonlinear_arith)
                    requires
                        num == self.magnitude() * unit(),
                        self.magnitude() == 0,
                ;
                lemma_fundamental_div_mod_converse(0, den as int, 0, 0);
                lemma2_to64();
                assert(round_halves(0, true) == 0);
            }
            return pack(negative, 0);
        }
        let (ma, z) = normalize(m);
        proof {
            lemma2_to64_rest();
        }
        let wide: u64 = shift_up(ma, 40);
        let p: u64 = wide / mb;
        let rest: u64 = wide % mb;
        proof {
            lemma_fundamental_div_mod(wide as int, mb as int);
            assert(p >= 0x200_0000) by (nonlinear_arith)
                requires
                    wide == mb * p + rest,
                    rest < mb,
                    wide >= 0x8000_0000_0000_0000,
                    0 < mb < 0x100_0000,
            ;
            let u = (z + 40 + sb) as nat;
            let v = (sa + 150) as nat;
            let (p1, p2, pz, pf, ps) = (
                pow2(sa as nat),
                pow2(149),
                pow2(z as nat),
                pow2(40),
                pow2(sb as nat),
            );
            lemma_pow2_adds(z as nat, 40);
            lemma_pow2_adds((z + 40) as nat, sb as nat);
            lemma_pow2_adds(sa as nat, 149);
            lemma_pow2_unfold(v);
            assert(p * mb + rest == m * pz * pf) by (nonlinear_arith)
                requires
                    wide == mb * p + rest,
                    wide == ma * pf,
                    ma == m * pz,
            ;
            let x = (m * p1 * p2 * pz * pf * mb * ps) as nat;
            assert((2 * num) * pow2(u) * mb == 2 * x) by (nonlinear_arith)
                requires
                    num == (m * p1) * p2,
                    pow2(u) == (pz * pf) * ps,
                    x == m * p1 * p2 * pz * pf * mb * ps,
            ;
            assert((m * pz * pf) * pow2(v) * den == 2 * x) by (nonlinear_arith)
                requires
                    pow2(v) == 2 * (p1 * p2),
                    den == mb * ps,
                    x == m * p1 * p2 * pz * pf * mb * ps,
            ;
            lemma_scaled_ratio(2 * num, den, p as nat, mb as nat, rest as nat, u, v);
        }
        let code: u32 = round_scaled(
            p,
            sa + 109 - z - sb,
            rest > 0,
            Ghost(2 * num / den),
            Ghost((2 * num) % den == 0),
        );
        pack(negative, code)
    }

    /// The square root of a number.
    pub fn sqrt(self) -> (r: F32)
        ensures
            r == F32::square_root(self),
    {
        proof {
            reveal(F32::square_root);
        }
        let a: u32 = self.bits % SIGN_BIT;
        if a == 0 {
            return self;
        }
        if self.is_nan() || self.bits >= SIGN_BIT {
            return F32 { bits: NAN_BITS };
        }
        if a == INFINITY_CODE {
            return self;
        }
        let (m, s) = unpack(self);
        let (n, z) = normalize(m);
        let e: i32 = s - z + 151;
        let shift: i32 = if e % 2 == 0 {
            38
        } else {
            39
        };
        let h: i32 = (e - shift) / 2;
        proof {
            lemma2_to64_rest();
        }
        let wide: u64 = shift_up(n, shift as u64);
        let p: u64 = integer_root(wide);
        let ghost w = 4 * (self.magnitude() * unit());
        proof {
            assert(wide >= 0x2000_0000_0000_0000);
            lemma_square_order(0x4000_0000, (p + 1) as nat);
            let ph = pow2(h as nat);
            lemma2_to64();
            lemma_pow2_adds(h as nat, h as nat);
            lemma_pow2_adds(shift as nat, (h + h) as nat);
            lemma_pow2_adds(z as nat, (shift + h + h) as nat);
            lemma_pow2_adds(s as nat, 149);
            lemma_pow2_adds((s + 149) as nat, 2);
            assert(z + shift + h + h == s + 149 + 2);
            assert(w == wide * (ph * ph)) by (nonlinear_arith)
                requires
                    w == 4 * ((m * pow2(s as nat)) * pow2(149)),
                    wide == n * pow2(shift as nat),
                    n == m * pow2(z as nat),
                    pow2((s + 149) as nat) == pow2(s as nat) * pow2(149),
                    pow2((s + 149 + 2) as nat) == pow2((s + 149) as nat) * 4,
                    pow2((s + 149 + 2) as nat) == pow2(z as nat) * (pow2(shift as nat) * (ph * ph)),
            ;
            lemma_scaled_root(w, wide as nat, h as nat, p as nat);
            assert(p * p <= u64::MAX);
        }
        let code: u32 = round_scaled(
            p,
            h - 1,
            p * p != wide,
            Ghost(root(w)),
            Ghost(root(w) * root(w) == w),
        );
        pack(false, code)
    }

    /// The number equal to the byte `n`.
    pub fn from_u8(n: u8) -> (r: F32)
        ensures
            r == F32::whole(n as nat),
    {
        proof {
            reveal(F32::whole);
        }
        proof {
            lemma2_to64();
        }
        let code: u32 = round_product(n as u64, 149, 0);
        pack(false, code)
    }

    /// The byte nearest to this number.
    pub fn to_u8(self) -> (r: u8)
        ensures
            r == F32::nearest_byte(self),
    {
        proof {
            reveal(F32::nearest_byte);
        }
        if self.is_nan() || self.bits >= SIGN_BIT {
            return 0;
        }
        if !self.is_finite() {
            return 255;
        }
        let (m, s) = unpack(self);
        let ghost big = 2 * self.magnitude() + unit();
        let ghost q = big / (2 * unit());
        proof {
            lemma_pow2_pos(149);
            lemma_pow2_pos(s as nat);
            lemma_pow2_unfold(150);
        }
        if s >= 149 {
            proof {
                lemma2_to64();
                if s > 149 {
                    lemma_pow2_strictly_increases(149, s as nat);
                }
                assert(big >= 256 * (2 * unit())) by (nonlinear_arith)
                    requires
                        big >= 2 * (m * pow2(s as nat)),
                        m >= 0x80_0000,
                        pow2(s as nat) >= unit(),
                ;
                lemma_fundamental_div_mod(big as int, 2 * unit() as int);
                lemma_mod_pos_bound(big as int, 2 * unit() as int);
                let (double, rest) = (2 * unit(), big % (2 * unit()));
                assert(q >= 256) by (nonlinear_arith)
                    requires
                        big >= 256 * double,
                        big == double * q + rest,
                        rest < double,
                        double > 0,
                ;
            }
            return 255;
        }
        let t: i32 = 149 - s;
        let ghost half = pow2((t - 1) as nat);
        let ghost full = pow2(t as nat);
        proof {
            lemma_pow2_pos((t - 1) as nat);
            lemma_pow2_unfold(t as nat);
            lemma_pow2_adds(t as nat, s as nat);
            let ps = pow2(s as nat);
            assert(unit() == full * ps);
            let n = (m + half) as nat;
            assert(big == n * (2 * ps)) by (nonlinear_arith)
                requires
                    big == 2 * (m * ps) + full * ps,
                    full == 2 * half,
                    n == m + half,
            ;
            assert(2 * unit() == full * (2 * ps)) by (nonlinear_arith)
                requires
                    unit() == full * ps,
            ;
            lemma_fundamental_div_mod(n as int, full as int);
            lemma_mod_pos_bound(n as int, full as int);
            let (qn, rn) = (n / full, n % full);
            assert(big == qn * (2 * unit()) + rn * (2 * ps)) by (nonlinear_arith)
                requires
                    big == n * (2 * ps),
                    n == full * qn + rn,
                    2 * unit() == full * (2 * ps),
            ;
            assert(0 <= rn * (2 * ps) < 2 * unit()) by (nonlinear_arith)
                requires
                    0 <= rn < full,
                    ps > 0,
                    2 * unit() == full * (2 * ps),
            ;
            lemma_fundamental_div_mod_converse(
                big as int,
                (2 * unit()) as int,
                qn as int,
                (rn * (2 * ps)) as int,
            );
            assert(q == qn);
        }
        if t > 32 {
            proof {
                lemma2_to64();
                if t > 33 {
                    lemma_pow2_strictly_increases(32, (t - 1) as nat);
                }
                lemma_fundamental_div_mod_converse((m + half) as int, full as int, 0, m + half);
            }
            return 0;
        }
        proof {
            lemma2_to64();
            if t < 33 {
                lemma_pow2_strictly_increases((t - 1) as nat, 32);
            }
            lemma_u64_shl_is_mul(1u64, (t - 1) as u64);
        }
        let sum: u64 = m + (1u64 << ((t - 1) as u64));
        proof {
            lemma_u64_shr_is_div(sum, t as u64);
        }
        let n: u64 = sum >> (t as u64);
        if n > 255 {
            255
        } else {
            n as u8
        }
    }
}

/// A representable magnitude is its own rounding, so an operation whose exact
/// result is representable returns exactly that result.
pub proof fn lemma_round_representable(code: nat)
    requires
        code < INFINITY_CODE,
    ensures
        round_ratio(quanta(code), 1) == code,
{
    lemma_parts(code);
    let m = significand(code);
    let s = scale(code);
    let halves = 2 * quanta(code);
    lemma2_to64();
    lemma_pow2_unfold(s + 1);
    lemma_pow2_pos(s);
    lemma_pow2_adds(24, s + 1);
    lemma_pow2_adds(23, s + 1);
    assert(halves == m * pow2(s + 1)) by (nonlinear_arith)
        requires
            halves == 2 * (m * pow2(s)),
            pow2(s + 1) == 2 * pow2(s),
    ;
    assert(halves < 0x100_0000 * pow2(s + 1)) by (nonlinear_arith)
        requires
            halves == m * pow2(s + 1),
            m < 0x100_0000,
            pow2(s + 1) > 0,
    ;
    if s > 0 {
        assert(halves >= 0x80_0000 * pow2(s + 1)) by (nonlinear_arith)
            requires
                halves == m * pow2(s + 1),
                m >= 0x80_0000,
                pow2(s + 1) > 0,
        ;
    }
    lemma_scale_of(halves, s);
    lemma_fundamental_div_mod_converse(halves as int, pow2(s + 1) as int, m as int, 0);
    assert(halves / 1 == halves && halves % 1 == 0);
}

/// Addition and multiplication do not depend on the order of their operands.
pub proof fn lemma_commutative(a: F32, b: F32)
    ensures
        F32::sum(a, b) == F32::sum(b, a),
        F32::product(a, b) == F32::product(b, a),
{
    reveal(F32::sum);
    reveal(F32::product);
    assert(a.magnitude() * b.magnitude() == b.magnitude() * a.magnitude()) by (nonlinear_arith);
}

} // verus!
