//! Rounding an exact result to the nearest representable magnitude.

use super::{HIDDEN_BIT, INFINITY_CODE};
use vstd::arithmetic::div_mod::{
    lemma_div_denominator, lemma_fundamental_div_mod, lemma_fundamental_div_mod_converse,
    lemma_mod_pos_bound,
};
use vstd::arithmetic::power2::{
    lemma2_to64, lemma2_to64_rest, lemma_pow2_adds, lemma_pow2_pos, lemma_pow2_strictly_increases,
    lemma_pow2_unfold, pow2,
};
use vstd::bits::{lemma_u64_shl_is_mul, lemma_u64_shr_is_div};
use vstd::prelude::*;

verus! {

/// The scale of the magnitudes around `halves` half quanta: the smallest `e`
/// for which `halves / 2` is below `2^(24 + e)`.
pub open spec fn scale_of(halves: nat) -> nat
    decreases halves,
{
    if halves < 0x200_0000 {
        0
    } else {
        1 + scale_of(halves / 2)
    }
}

/// The magnitude code nearest to an exact magnitude `x`, given in half quanta:
/// `halves` is the integer part of `2 x`, and `exact` says whether `2 x` has no
/// fractional part. A tie goes to the even significand, and what rounds beyond
/// the largest finite magnitude is infinite.
pub open spec fn round_halves(halves: nat, exact: bool) -> nat {
    let e = scale_of(halves);
    let significand = halves / pow2(e + 1);
    let rest = halves % pow2(e + 1);
    let up = rest > pow2(e) || (rest == pow2(e) && (!exact || significand % 2 == 1));
    let code = e * (HIDDEN_BIT as nat) + significand + (if up {
        1nat
    } else {
        0
    });
    if code >= INFINITY_CODE {
        INFINITY_CODE as nat
    } else {
        code
    }
}

/// `halves` and `exact` describe `2 x` for `x = (p + t) 2^k` with `0 <= t < 1`,
/// where `sticky` says that `t` is not zero.
pub open spec fn scaled_halves(p: nat, k: int, sticky: bool, halves: nat, exact: bool) -> bool {
    if k >= 0 {
        let unit = pow2((k + 1) as nat);
        &&& p * unit <= halves < (p + 1) * unit
        &&& !sticky ==> halves == p * unit && exact
        &&& sticky ==> halves > p * unit || !exact
    } else {
        let unit = pow2((-k - 1) as nat);
        &&& halves == p / unit
        &&& exact == (!sticky && p % unit == 0)
    }
}

pub(crate) proof fn lemma_scale_of(halves: nat, e: nat)
    requires
        halves < pow2(e + 25),
        e > 0 ==> halves >= pow2(e + 24),
    ensures
        scale_of(halves) == e,
    decreases e,
{
    lemma2_to64();
    if e == 0 {
    } else {
        lemma_pow2_unfold(e + 25);
        lemma_pow2_unfold(e + 24);
        if e > 1 {
            lemma_pow2_strictly_increases(25, e + 24);
        }
        lemma_scale_of(halves / 2, (e - 1) as nat);
    }
}

/// Comparing `rest * unit + low` with `half * unit` is comparing `rest` with
/// `half`, and then `low` with zero.
proof fn lemma_compare_scaled(rest: nat, half: nat, low: nat, unit: nat)
    requires
        low < unit,
    ensures
        rest * unit + low > half * unit <==> rest > half || (rest == half && low > 0),
        rest * unit + low == half * unit <==> rest == half && low == 0,
{
    if rest > half {
        assert(rest * unit >= half * unit + unit) by (nonlinear_arith)
            requires
                rest >= half + 1,
        ;
    } else if rest < half {
        assert(half * unit >= rest * unit + unit) by (nonlinear_arith)
            requires
                half >= rest + 1,
        ;
    }
}

/// A number is below `2^len` and at least `2^(len - 1)`.
pub open spec fn has_bit_length(p: nat, len: nat) -> bool {
    0 < len && pow2((len - 1) as nat) <= p < pow2(len)
}

proof fn lemma_scale_of_scaled(
    p: nat,
    len: nat,
    k: int,
    sticky: bool,
    halves: nat,
    exact: bool,
    e: nat,
)
    requires
        has_bit_length(p, len),
        scaled_halves(p, k, sticky, halves, exact),
        e as int == if len + k > 24 {
            len + k - 24
        } else {
            0
        },
    ensures
        scale_of(halves) == e,
        halves / pow2(e + 1) < 0x100_0000,
{
    if k >= 0 {
        let s = (k + 1) as nat;
        lemma_pow2_pos(s);
        lemma_pow2_adds(len, s);
        lemma_pow2_adds((len - 1) as nat, s);
        assert((p + 1) * pow2(s) <= pow2(len) * pow2(s)) by (nonlinear_arith)
            requires
                p + 1 <= pow2(len),
        ;
        assert(pow2((len - 1) as nat) * pow2(s) <= p * pow2(s)) by (nonlinear_arith)
            requires
                pow2((len - 1) as nat) <= p,
        ;
        if len + s < e + 25 {
            lemma_pow2_strictly_increases(len + s, e + 25);
        }
        assert(len + s == e + 25 ==> (len - 1) as nat + s == e + 24);
    } else {
        let t = (-k - 1) as nat;
        let unit = pow2(t);
        lemma_pow2_pos(t);
        lemma_fundamental_div_mod(p as int, unit as int);
        lemma_mod_pos_bound(p as int, unit as int);
        lemma_pow2_adds(e + 25, t);
        lemma_pow2_adds(e + 24, t);
        if len < e + 25 + t {
            lemma_pow2_strictly_increases(len, e + 25 + t);
        }
        assert(halves < pow2(e + 25)) by (nonlinear_arith)
            requires
                unit * halves <= p,
                p < pow2(e + 25) * unit,
                unit > 0,
        ;
        if e > 0 {
            assert(len - 1 == e + 24 + t);
            assert(halves >= pow2(e + 24)) by (nonlinear_arith)
                requires
                    p < unit * halves + unit,
                    p >= pow2(e + 24) * unit,
                    unit > 0,
            ;
        }
    }
    lemma_scale_of(halves, e);
    lemma_pow2_adds(24, e + 1);
    lemma_pow2_pos(e + 1);
    lemma2_to64();
    lemma_fundamental_div_mod(halves as int, pow2(e + 1) as int);
    let q = halves / pow2(e + 1);
    assert(q < 0x100_0000) by (nonlinear_arith)
        requires
            pow2(e + 1) * q <= halves,
            halves < 0x100_0000 * pow2(e + 1),
            pow2(e + 1) > 0,
    ;
}

/// Splitting off the low `d` bits of `p`, where `2^d` is one unit of the
/// significand, gives the significand and decides the direction.
proof fn lemma_round_split(
    p: nat,
    k: int,
    sticky: bool,
    halves: nat,
    exact: bool,
    e: nat,
    d: nat,
    q: nat,
    rem: nat,
)
    requires
        scaled_halves(p, k, sticky, halves, exact),
        d > 0,
        d == e - k,
        p == q * pow2(d) + rem,
        rem < pow2(d),
    ensures
        halves / pow2(e + 1) == q,
        ({
            let rest = halves % pow2(e + 1);
            let half = pow2((d - 1) as nat);
            (rest > pow2(e) || (rest == pow2(e) && (!exact || q % 2 == 1))) <==> (rem > half || (rem
                == half && (sticky || q % 2 == 1)))
        }),
{
    lemma_pow2_pos(e + 1);
    if k >= 0 {
        let s = (k + 1) as nat;
        let unit = pow2(s);
        let low = (halves - p * unit) as nat;
        lemma_pow2_pos(s);
        lemma_pow2_adds(d, s);
        lemma_pow2_adds((d - 1) as nat, s);
        assert(d + s == e + 1);
        assert(p * unit == q * pow2(e + 1) + rem * unit) by (nonlinear_arith)
            requires
                p == q * pow2(d) + rem,
                pow2(e + 1) == pow2(d) * unit,
        ;
        assert((p + 1) * unit == p * unit + unit) by (nonlinear_arith);
        assert(low < unit);
        let rest = rem * unit + low;
        assert(rest < pow2(e + 1)) by (nonlinear_arith)
            requires
                rest == rem * unit + low,
                low < unit,
                rem + 1 <= pow2(d),
                pow2(e + 1) == pow2(d) * unit,
        ;
        assert(halves == q * pow2(e + 1) + rest);
        lemma_fundamental_div_mod_converse(
            halves as int,
            pow2(e + 1) as int,
            q as int,
            rest as int,
        );
        lemma_compare_scaled(rem, pow2((d - 1) as nat), low, unit);
    } else {
        let t = (-k - 1) as nat;
        let unit = pow2(t);
        let low = p % unit;
        lemma_pow2_pos(t);
        lemma_fundamental_div_mod(p as int, unit as int);
        lemma_mod_pos_bound(p as int, unit as int);
        lemma_pow2_adds(t, e + 1);
        lemma_pow2_adds(t, e);
        assert(d == t + (e + 1));
        let h = pow2(e + 1);
        lemma_fundamental_div_mod(halves as int, h as int);
        lemma_mod_pos_bound(halves as int, h as int);
        let rest = halves % h;
        let q2 = halves / h;
        assert(p == q2 * pow2(d) + (rest * unit + low)) by (nonlinear_arith)
            requires
                p == unit * halves + low,
                halves == h * q2 + rest,
                pow2(d) == unit * h,
        ;
        assert(rest * unit + low < pow2(d)) by (nonlinear_arith)
            requires
                low < unit,
                rest + 1 <= h,
                pow2(d) == unit * h,
        ;
        lemma_pow2_pos(d);
        lemma_fundamental_div_mod_converse(p as int, pow2(d) as int, q as int, rem as int);
        lemma_fundamental_div_mod_converse(
            p as int,
            pow2(d) as int,
            q2 as int,
            (rest * unit + low) as int,
        );
        assert(pow2(e) * unit == pow2((d - 1) as nat)) by {
            assert((d - 1) as nat == t + e);
            assert(unit * pow2(e) == pow2(e) * unit) by (nonlinear_arith);
        }
        lemma_compare_scaled(rest, pow2(e), low, unit);
    }
}

/// The number of bits of a positive number.
fn bit_length(p: u64) -> (len: u32)
    requires
        p > 0,
    ensures
        len <= 64,
        has_bit_length(p as nat, len as nat),
{
    let mut len: u32 = 1;
    let mut rest: u64 = p / 2;
    proof {
        lemma2_to64();
    }
    while rest > 0
        invariant
            1 <= len <= 64,
            rest as nat == p as nat / pow2(len as nat),
            pow2((len - 1) as nat) <= p,
        decreases rest,
    {
        proof {
            let l = len as nat;
            lemma_pow2_pos(l);
            lemma_pow2_unfold(l + 1);
            lemma_fundamental_div_mod(p as int, pow2(l) as int);
            lemma_mod_pos_bound(p as int, pow2(l) as int);
            assert(pow2(l) <= p) by (nonlinear_arith)
                requires
                    p as int == pow2(l) as int * rest as int + p as int % pow2(l) as int,
                    p as int % pow2(l) as int >= 0,
                    rest > 0,
                    pow2(l) > 0,
            ;
            lemma2_to64_rest();
            if l >= 64 {
                assert(l == 64);
                assert(false);
            }
            lemma_div_denominator(p as int, pow2(l) as int, 2);
            assert(pow2(l) * 2 == pow2(l + 1));
        }
        len = len + 1;
        rest = rest / 2;
    }
    proof {
        let l = len as nat;
        lemma_pow2_pos(l);
        lemma_fundamental_div_mod(p as int, pow2(l) as int);
        lemma_mod_pos_bound(p as int, pow2(l) as int);
        assert(pow2(l) as int * 0 == 0);
    }
    len
}

/// The code of the magnitude nearest to `(p + t) 2^k` quanta, where `t` is a
/// fraction that is not zero exactly where `sticky` is set.
pub(crate) fn round_scaled(
    p: u64,
    k: i32,
    sticky: bool,
    Ghost(halves): Ghost<nat>,
    Ghost(exact): Ghost<bool>,
) -> (code: u32)
    requires
        p > 0,
        -500 <= k <= 400,
        sticky ==> p >= 0x200_0000,
        scaled_halves(p as nat, k as int, sticky, halves, exact),
    ensures
        code as nat == round_halves(halves, exact),
        code <= INFINITY_CODE,
{
    let len: u32 = bit_length(p);
    let top: i32 = len as i32 + k - 24;
    let e: i32 = if top > 0 {
        top
    } else {
        0
    };
    proof {
        lemma_scale_of_scaled(p as nat, len as nat, k as int, sticky, halves, exact, e as nat);
        if sticky {
            lemma2_to64();
            if len < 26 {
                if len < 25 {
                    lemma_pow2_strictly_increases(len as nat, 25);
                }
                assert(false);
            }
        }
    }
    let q: u64;
    let up: bool;
    if k >= e {
        let shift: u64 = (k - e) as u64;
        proof {
            let s = shift as nat;
            lemma2_to64();
            lemma_pow2_pos(s);
            lemma_pow2_adds(len as nat, s);
            if len + s < 24 {
                lemma_pow2_strictly_increases(len as nat + s, 24);
            }
            assert(p * pow2(s) < 0x100_0000) by (nonlinear_arith)
                requires
                    p < pow2(len as nat),
                    pow2(len as nat) * pow2(s) <= 0x100_0000,
                    pow2(s) > 0,
            ;
            lemma_u64_shl_is_mul(p, shift);
            let u = pow2((e + 1) as nat);
            lemma_pow2_pos((e + 1) as nat);
            lemma_pow2_pos(e as nat);
            lemma_pow2_adds(s, (e + 1) as nat);
            assert(halves == (p * pow2(s)) * u) by (nonlinear_arith)
                requires
                    halves == p * pow2((k + 1) as nat),
                    pow2((k + 1) as nat) == pow2(s) * u,
            ;
            lemma_fundamental_div_mod_converse(halves as int, u as int, p * pow2(s), 0);
        }
        q = p << shift;
        up = false;
    } else {
        let d: u64 = (e - k) as u64;
        if d > 64 {
            q = 0;
            up = false;
            proof {
                lemma2_to64_rest();
                lemma_pow2_strictly_increases(64, d as nat);
                if d > 65 {
                    lemma_pow2_strictly_increases(64, (d - 1) as nat);
                }
                lemma_round_split(
                    p as nat,
                    k as int,
                    sticky,
                    halves,
                    exact,
                    e as nat,
                    d as nat,
                    0,
                    p as nat,
                );
            }
        } else {
            let rem: u64;
            if d == 64 {
                q = 0;
                rem = p;
                proof {
                    lemma2_to64_rest();
                }
            } else {
                proof {
                    lemma_u64_shr_is_div(p, d);
                    lemma_pow2_pos(d as nat);
                    lemma_fundamental_div_mod(p as int, pow2(d as nat) as int);
                    lemma_mod_pos_bound(p as int, pow2(d as nat) as int);
                    let qq = p as int / pow2(d as nat) as int;
                    assert(qq * pow2(d as nat) == pow2(d as nat) * qq) by (nonlinear_arith);
                    assert(qq >= 0) by (nonlinear_arith)
                        requires
                            p as int == pow2(d as nat) * qq + p as int % pow2(d as nat) as int,
                            (p as int % pow2(d as nat) as int) < pow2(d as nat),
                            p >= 0,
                    ;
                    assert(qq * pow2(d as nat) >= 0) by (nonlinear_arith)
                        requires
                            qq >= 0,
                            pow2(d as nat) > 0,
                    ;
                    lemma_u64_shl_is_mul((p >> d), d);
                }
                q = p >> d;
                rem = p - (q << d);
            }
            proof {
                lemma2_to64();
                lemma2_to64_rest();
                if d < 64 {
                    lemma_pow2_strictly_increases((d - 1) as nat, 63);
                }
                lemma_u64_shl_is_mul(1u64, (d - 1) as u64);
                lemma_round_split(
                    p as nat,
                    k as int,
                    sticky,
                    halves,
                    exact,
                    e as nat,
                    d as nat,
                    q as nat,
                    rem as nat,
                );
            }
            let half: u64 = 1u64 << (d - 1);
            up = rem > half || (rem == half && (sticky || q % 2 == 1));
        }
    }
    let bump: u64 = if up {
        1
    } else {
        0
    };
    assert(0 <= e <= 440);
    assert(q < 0x100_0000);
    let base: u64 = e as u64 * 0x80_0000;
    let code: u64 = base + q + bump;
    if code >= INFINITY_CODE as u64 {
        INFINITY_CODE
    } else {
        code as u32
    }
}

} // verus!
