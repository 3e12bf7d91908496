//! How close scores are to the cosines of the angles between vectors.

use crate::distance::{common, norm, products, running_sum, similarity};
use crate::float::arith::{lemma_parts, unit};
use crate::float::error::{
    lemma_cancel, lemma_more, lemma_number, lemma_product_error, lemma_quotient_error, lemma_ring,
    lemma_root_error, lemma_size_scaled, lemma_sum_error, lemma_unit, number, part, size, tiny,
};
use crate::float::F32;
use crate::record::all_finite;
use crate::storage::loss::lemma_round_zero;
use vstd::prelude::*;

verus! {

/// The inner product of two vectors of the same dimension.
pub open spec fn inner(a: Seq<F32>, b: Seq<F32>) -> real
    decreases a.len(),
{
    if a.len() == 0 {
        0real
    } else {
        inner(a.drop_last(), b.drop_last()) + number(a.last()) * number(b.last())
    }
}

/// The sum of the sizes of the products.
spec fn inner_size(a: Seq<F32>, b: Seq<F32>) -> real
    decreases a.len(),
{
    if a.len() == 0 {
        0real
    } else {
        inner_size(a.drop_last(), b.drop_last()) + size(number(a.last()) * number(b.last()))
    }
}

proof fn lemma_inner_size(a: Seq<F32>, b: Seq<F32>)
    ensures
        size(inner(a, b)) <= inner_size(a, b),
        inner_size(a, b) >= 0real,
    decreases a.len(),
{
    if a.len() > 0 {
        lemma_inner_size(a.drop_last(), b.drop_last());
    }
}

proof fn lemma_squares(g: real, h: real)
    ensures
        2real * (g * h) <= g * g + h * h,
        0real - 2real * (g * h) <= g * g + h * h,
{
    let (v, w) = (g - h, g + h);
    assert((g - h) * (g - h) == g * g + h * h - 2real * (g * h)) by (nonlinear_arith);
    assert((g + h) * (g + h) == g * g + h * h + 2real * (g * h)) by (nonlinear_arith);
    assert(v * v >= 0real) by (nonlinear_arith);
    assert(w * w >= 0real) by (nonlinear_arith);
}

proof fn lemma_signed(c: real, z: real)
    ensures
        c * size(z) == c * z || c * size(z) == 0real - c * z,
{
    assert(c * (0real - z) == 0real - c * z) by (nonlinear_arith);
}

/// Twice a product is at most the sum of the squares.
proof fn lemma_mean(la: real, lb: real, x: real, y: real)
    ensures
        2real * (la * lb) * size(x * y) <= (lb * lb) * (x * x) + (la * la) * (y * y),
{
    lemma_squares(lb * x, la * y);
    assert((lb * x) * (lb * x) == (lb * lb) * (x * x)) by (nonlinear_arith);
    assert((la * y) * (la * y) == (la * la) * (y * y)) by (nonlinear_arith);
    assert(2real * (la * lb) * (x * y) == 2real * ((lb * x) * (la * y))) by (nonlinear_arith);
    lemma_signed(2real * (la * lb), x * y);
}

/// The inner product of two vectors is at most the product of their lengths.
proof fn lemma_cauchy(a: Seq<F32>, b: Seq<F32>, la: real, lb: real)
    requires
        a.len() == b.len(),
    ensures
        2real * (la * lb) * inner_size(a, b) <= (lb * lb) * inner(a, a) + (la * la) * inner(b, b),
    decreases a.len(),
{
    let (ab, aa, bb) = (la * lb, la * la, lb * lb);
    if a.len() == 0 {
        let (iq, ip, ir) = (inner_size(a, b), inner(a, a), inner(b, b));
        assert(2real * ab * iq == 0real && bb * ip == 0real && aa * ir == 0real)
            by (nonlinear_arith)
            requires
                iq == 0real,
                ip == 0real,
                ir == 0real,
        ;
    } else {
        let (a0, b0) = (a.drop_last(), b.drop_last());
        lemma_cauchy(a0, b0, la, lb);
        let (x, y) = (number(a.last()), number(b.last()));
        let z = size(x * y);
        let (q, p, r) = (inner_size(a0, b0), inner(a0, a0), inner(b0, b0));
        lemma_mean(la, lb, x, y);
        let (iq, ip, ir) = (inner_size(a, b), inner(a, a), inner(b, b));
        assert(2real * ab * iq == 2real * ab * q + 2real * ab * z) by (nonlinear_arith)
            requires
                iq == q + z,
        ;
        assert(bb * ip == bb * p + bb * (x * x)) by (nonlinear_arith)
            requires
                ip == p + x * x,
        ;
        assert(aa * ir == aa * r + aa * (y * y)) by (nonlinear_arith)
            requires
                ir == r + y * y,
        ;
    }
}

proof fn lemma_inner_self(a: Seq<F32>)
    ensures
        inner_size(a, a) == inner(a, a),
    decreases a.len(),
{
    if a.len() > 0 {
        lemma_inner_self(a.drop_last());
        let x = number(a.last());
        assert(x * x >= 0real) by (nonlinear_arith);
    }
}

/// One step of a running sum: `e` bounds the error so far, `q` the size of what
/// was summed, `x` is the exact product, `p` its rounding, `t` the next sum.
proof fn lemma_sum_step(
    n: real,
    s: real,
    d: real,
    q: real,
    x: real,
    p: real,
    t: real,
    e: real,
    small: real,
)
    requires
        1real <= n,
        n <= 1048576real,
        small >= 0real,
        q >= 0real,
        size(d) <= q,
        e == (2real * n - 1real) * part() * q + 3real * (n - 1real) * small,
        size(s - d) <= e,
        size(p - x) <= part() * size(x) + small,
        size(t - (s + p)) <= part() * size(s + p),
    ensures
        size(t - (d + x)) <= (2real * n + 1real) * part() * (q + size(x)) + 3real * n * small,
{
    let (c, z) = (part(), size(x));
    assert(c == 1real / 16777216real);
    let y = s + p;
    assert(c * z == z / 16777216real) by (nonlinear_arith)
        requires
            c == 1real / 16777216real,
    ;
    assert(c * size(y) == size(y) / 16777216real) by (nonlinear_arith)
        requires
            c == 1real / 16777216real,
    ;
    let nq = n * q;
    let nz = n * z;
    let ns = n * small;
    assert((2real * n - 1real) * c * q == (2real * nq - q) / 16777216real) by (nonlinear_arith)
        requires
            c == 1real / 16777216real,
            nq == n * q,
    ;
    assert((2real * n + 1real) * c * (q + z) == (2real * nq + 2real * nz + q + z)
        / 16777216real) by (nonlinear_arith)
        requires
            c == 1real / 16777216real,
            nq == n * q,
            nz == n * z,
    ;
    assert(3real * (n - 1real) * small == 3real * ns - 3real * small) by (nonlinear_arith)
        requires
            ns == n * small,
    ;
    assert(3real * n * small == 3real * ns) by (nonlinear_arith)
        requires
            ns == n * small,
    ;
    lemma_more(n, 1048576real, q);
    lemma_more(n, 1048576real, small);
    lemma_more(1real, n, z);
    lemma_more(1real, n, q);
    lemma_more(1real, n, small);
    assert(nq <= 1048576real * q && ns <= 1048576real * small && nz >= z && nq >= q && ns >= small);
    assert(z >= 0real);
}

/// What the bounds on errors come to.
proof fn lemma_bound_size(n: real, q: real)
    requires
        0real <= n,
        n <= 1048576real,
        q >= 0real,
    ensures
        (2real * n + 1real) * part() * q <= q / 4real,
        3real * n * tiny() <= 1real,
        0real <= tiny(),
        tiny() <= 1real / 1267650600228229401496703205376real,
{
    lemma_unit();
    let u = unit() as real;
    let nq = n * q;
    assert((2real * n + 1real) * part() * q == (2real * nq + q) / 16777216real) by (nonlinear_arith)
        requires
            part() == 1real / 16777216real,
            nq == n * q,
    ;
    lemma_more(n, 1048576real, q);
    lemma_more(n, 1048576real, tiny());
    assert(3real * n * tiny() == 3real * (n * tiny())) by (nonlinear_arith);
}

/// A dot product is close to the inner product: the error is about two parts in
/// `2^24` for each component, of the size of what was summed.
proof fn lemma_dot_error(a: Seq<F32>, b: Seq<F32>)
    requires
        a.len() == b.len(),
        a.len() <= 1048576,
        all_finite(a),
        all_finite(b),
        inner_size(a, b) <= 332306998946228968225951765070086144real,
    ensures
        running_sum(products(a, b)).finite(),
        size(number(running_sum(products(a, b))) - inner(a, b)) <= (2real * (a.len() as real)
            + 1real) * part() * inner_size(a, b) + 3real * (a.len() as real) * tiny(),
    decreases a.len(),
{
    let n = a.len() as real;
    lemma_unit();
    lemma_inner_size(a, b);
    lemma_bound_size(n, inner_size(a, b));
    if a.len() == 0 {
        let zero = running_sum(products(a, b));
        lemma_parts(0);
        lemma_number(zero);
        lemma_cancel(number(zero), 0real, unit() as real);
        lemma_cancel(0real, number(zero), unit() as real);
        assert((2real * n + 1real) * part() * inner_size(a, b) == 0real) by (nonlinear_arith)
            requires
                inner_size(a, b) == 0real,
        ;
        assert(3real * n * tiny() == 0real) by (nonlinear_arith)
            requires
                n == 0real,
        ;
    } else {
        let (a0, b0) = (a.drop_last(), b.drop_last());
        let (x, y) = (a.last(), b.last());
        assert forall|i: int| 0 <= i < a0.len() implies (#[trigger] a0[i]).finite() by {
            assert(a0[i] == a[i]);
        }
        assert forall|i: int| 0 <= i < b0.len() implies (#[trigger] b0[i]).finite() by {
            assert(b0[i] == b[i]);
        }
        lemma_inner_size(a0, b0);
        lemma_dot_error(a0, b0);
        assert(products(a, b).drop_last() =~= products(a0, b0));
        assert(a[a.len() - 1].finite() && b[b.len() - 1].finite());
        let s = running_sum(products(a0, b0));
        let p = F32::product(x, y);
        assert(products(a, b).last() == p);
        let t = F32::sum(s, p);
        let xy = number(x) * number(y);
        let (d, q) = (inner(a0, b0), inner_size(a0, b0));
        lemma_product_error(x, y);
        assert(part() * size(xy) <= size(xy)) by (nonlinear_arith)
            requires
                part() == 1real / 16777216real,
                size(xy) >= 0real,
        ;
        lemma_bound_size(n - 1real, q);
        let e = (2real * (n - 1real) + 1real) * part() * q + 3real * (n - 1real) * tiny();
        assert(2real * (n - 1real) + 1real == 2real * n - 1real);
        assert(size(number(s) - d) <= e);
        lemma_sum_error(s, p);
        lemma_sum_step(n, number(s), d, q, xy, number(p), number(t), e, tiny());
    }
}

proof fn lemma_size_product(x: real, y: real)
    ensures
        size(x * y) == size(x) * size(y),
{
    assert(x * y >= 0real || x * y < 0real);
    assert(x >= 0real && y >= 0real ==> x * y >= 0real) by (nonlinear_arith);
    assert(x < 0real && y < 0real ==> x * y >= 0real) by (nonlinear_arith);
    assert(x >= 0real && y < 0real ==> x * y <= 0real) by (nonlinear_arith);
    assert(x < 0real && y >= 0real ==> x * y <= 0real) by (nonlinear_arith);
    assert((0real - x) * y == 0real - x * y) by (nonlinear_arith);
    assert(x * (0real - y) == 0real - x * y) by (nonlinear_arith);
    assert((0real - x) * (0real - y) == x * y) by (nonlinear_arith);
}

/// What has a square close to that of a length is close to the length.
proof fn lemma_root_close(k: real, l: real, r: real)
    requires
        0real <= k,
        k <= 1real / 7real,
        l > 0real,
        r >= 0real,
        size(r * r - l * l) <= k * (l * l),
    ensures
        3real * size(r - l) <= 2real * (k * l),
{
    let d = size(r - l);
    let w = r + l;
    assert((r - l) * (r + l) == r * r - l * l) by (nonlinear_arith);
    lemma_size_scaled(r - l, w);
    assert(d * w <= k * (l * l));
    lemma_more(l, w, d);
    lemma_ring(k, l, l);
    lemma_cancel(d, k * l, l);
    lemma_more(k, 1real / 7real, l);
    let v = 3real * l / 2real;
    assert(v <= w);
    lemma_more(v, w, d);
    assert(d * v == (3real * d / 2real) * l) by (nonlinear_arith)
        requires
            v == 3real * l / 2real,
    ;
    lemma_cancel(3real * d / 2real, k * l, l);
}

/// The product of what is close to two lengths is close to their product.
proof fn lemma_product_close(h: real, la: real, lb: real, x: real, y: real)
    requires
        0real <= h,
        h <= 1real / 10real,
        la > 0real,
        lb > 0real,
        size(x - la) <= h * la,
        size(y - lb) <= h * lb,
    ensures
        10real * size(x * y - la * lb) <= 21real * (h * (la * lb)),
{
    lemma_more(h, 1real / 10real, lb);
    assert(y > 0real && y <= 11real * lb / 10real);
    let (d, e) = (x - la, y - lb);
    assert(x * y - la * lb == (x - la) * y + la * (y - lb)) by (nonlinear_arith);
    lemma_size_scaled(d, y);
    lemma_more(size(d), h * la, y);
    let hl = h * la;
    assert(hl >= 0real) by (nonlinear_arith)
        requires
            hl == h * la,
            h >= 0real,
            la > 0real,
    ;
    lemma_more(y, 11real * lb / 10real, hl);
    assert(hl * (11real * lb / 10real) == 11real * (h * (la * lb)) / 10real) by (nonlinear_arith)
        requires
            hl == h * la,
    ;
    lemma_size_scaled(e, la);
    assert(e * la == la * e) by (nonlinear_arith);
    lemma_more(size(e), h * lb, la);
    assert((h * lb) * la == h * (la * lb)) by (nonlinear_arith);
}

/// What a score comes to: `p` is the product of the lengths and `m` what was
/// computed for it, `d` is the inner product and `s` what was computed for it, and
/// `t` is the quotient.
proof fn lemma_score_close(g: real, e: real, p: real, d: real, s: real, m: real, t: real)
    requires
        p > 0real,
        0real <= g,
        g <= 1real / 5real,
        0real <= e,
        e <= 1real / 7real,
        size(m - p) <= g * p,
        size(d) <= p,
        size(s - d) <= e * p,
        size(t * m - s) <= part() * size(s) + tiny() * m,
    ensures
        size(t * p - d) <= 3real * (g * p) / 2real + 2real * (part() * p) + e * p,
{
    lemma_unit();
    lemma_more(g, 1real / 5real, p);
    lemma_more(e, 1real / 7real, p);
    assert(m > 0real && 5real * m >= 4real * p && 5real * m <= 6real * p);
    assert(size(s) <= 8real * p / 7real);
    assert(part() * size(s) == size(s) / 16777216real) by (nonlinear_arith)
        requires
            part() == 1real / 16777216real,
    ;
    assert(part() * p == p / 16777216real) by (nonlinear_arith)
        requires
            part() == 1real / 16777216real,
    ;
    assert(tiny() * m <= p / 1267650600228229401496703205376real) by {
        lemma_more(m, 6real * p / 5real, tiny());
        assert(tiny() * (6real * p / 5real) <= p / 1267650600228229401496703205376real)
            by (nonlinear_arith)
            requires
                tiny() == 1real / 1427247692705959881058285969449495136382746624real,
                p > 0real,
        ;
    }
    let z = size(t);
    lemma_size_scaled(t, m);
    if z > 3real / 2real {
        lemma_more(3real / 2real, z, m);
        assert(false);
    }
    let f = p - m;
    assert(t * p - d == t * (p - m) + (t * m - s) + (s - d)) by (nonlinear_arith);
    lemma_size_product(t, f);
    lemma_more(z, 3real / 2real, size(f));
    assert(size(f) == size(m - p));
}

/// A length of a vector of `n` components that arithmetic can work with: its square
/// is neither so small that squares of components vanish, nor so large that their
/// sum is infinite. It lies between `n 2^-124` and `2^118`.
pub open spec fn moderate(l: real, n: real) -> bool {
    &&& l > 0real
    &&& n / 21267647932558653966460912964485513216real <= l * l
    &&& l * l <= 332306998946228968225951765070086144real
}

/// The relative error of a dot product, where what is summed is not tiny.
proof fn lemma_relative(n: real, q: real, p: real)
    requires
        1real <= n,
        n <= 1048576real,
        q <= p,
        p >= n / 21267647932558653966460912964485513216real,
    ensures
        (2real * n + 1real) * part() * q + 3real * n * tiny() <= (2real * n + 2real) * part() * p,
{
    lemma_unit();
    let c = (2real * n + 1real) * part();
    assert(c >= 0real) by (nonlinear_arith)
        requires
            c == (2real * n + 1real) * part(),
            part() == 1real / 16777216real,
            n >= 1real,
    ;
    lemma_more(q, p, c);
    assert((2real * n + 2real) * part() * p == c * p + p / 16777216real) by (nonlinear_arith)
        requires
            c == (2real * n + 1real) * part(),
            part() == 1real / 16777216real,
    ;
    let small = tiny();
    assert(3real * n * small <= 4real * n / 1427247692705959881058285969449495136382746624real)
        by (nonlinear_arith)
        requires
            small == 1real / 1427247692705959881058285969449495136382746624real,
            n >= 1real,
    ;
}

proof fn lemma_root_order(x: real, y: real)
    requires
        0real <= x,
        0real <= y,
        x * x <= y * y,
    ensures
        x <= y,
{
    if y < x {
        assert(y * y < x * x) by (nonlinear_arith)
            requires
                0real <= y,
                y < x,
        ;
    }
}

/// The product of two lengths within bounds is within the same bounds.
proof fn lemma_moderate(la: real, lb: real, n: real)
    requires
        moderate(la, n),
        moderate(lb, n),
        n >= 1real,
    ensures
        la * lb >= n / 21267647932558653966460912964485513216real,
        la * lb <= 332306998946228968225951765070086144real,
        la * lb > 0real,
{
    let (low, high) = (
        n / 21267647932558653966460912964485513216real,
        332306998946228968225951765070086144real,
    );
    let (x, y) = (la * la, lb * lb);
    let p = la * lb;
    assert((la * lb) * (la * lb) == (la * la) * (lb * lb)) by (nonlinear_arith);
    assert(p > 0real) by (nonlinear_arith)
        requires
            p == la * lb,
            la > 0real,
            lb > 0real,
    ;
    lemma_more(low, x, low);
    lemma_more(low, y, x);
    assert(x * low == low * x) by (nonlinear_arith);
    assert(low * low <= x * y);
    lemma_more(x, high, y);
    lemma_more(y, high, high);
    assert(high * y == y * high) by (nonlinear_arith);
    lemma_root_order(low, p);
    lemma_root_order(p, high);
}

/// The computed length of a vector is close to its length.
proof fn lemma_length_close(a: Seq<F32>, la: real)
    requires
        0 < a.len() <= 1048576,
        all_finite(a),
        moderate(la, a.len() as real),
        la * la == inner(a, a),
    ensures
        norm(a).finite(),
        !norm(a).negative(),
        3real * size(number(norm(a)) - la) <= (4real * (a.len() as real) + 12real) * part() * la,
{
    let n = a.len() as real;
    let m = la * la;
    lemma_moderate(la, la, n);
    lemma_inner_self(a);
    lemma_dot_error(a, a);
    lemma_relative(n, m, m);
    let s = running_sum(products(a, a));
    let rs = number(s);
    let k1 = (2real * n + 2real) * part();
    assert(size(rs - m) <= k1 * m);
    assert(0real <= k1 && k1 <= 1real / 7real) by (nonlinear_arith)
        requires
            k1 == (2real * n + 2real) * part(),
            part() == 1real / 16777216real,
            1real <= n,
            n <= 1048576real,
    ;
    lemma_more(k1, 1real / 7real, m);
    assert(rs > 0real && rs <= 8real * m / 7real);
    lemma_number(s);
    lemma_unit();
    assert(!s.negative()) by {
        if s.negative() {
            assert(rs * (unit() as real) <= 0real);
            lemma_cancel(rs, 0real, unit() as real);
        }
    }
    lemma_root_error(s);
    let r = norm(a);
    let rr = number(r);
    lemma_number(r);
    assert(rr >= 0real) by {
        lemma_cancel(0real, rr, unit() as real);
    }
    let k = (2real * n + 6real) * part();
    assert(3real * part() * rs <= 4real * (part() * m)) by (nonlinear_arith)
        requires
            part() == 1real / 16777216real,
            rs <= 8real * m / 7real,
            m >= 0real,
    ;
    assert(k * m == k1 * m + 4real * (part() * m)) by (nonlinear_arith)
        requires
            k == (2real * n + 6real) * part(),
            k1 == (2real * n + 2real) * part(),
    ;
    assert(0real <= k && k <= 1real / 7real) by (nonlinear_arith)
        requires
            k == (2real * n + 6real) * part(),
            part() == 1real / 16777216real,
            1real <= n,
            n <= 1048576real,
    ;
    assert(size(rr * rr - m) <= k * m);
    lemma_root_close(k, la, rr);
    assert(2real * (k * la) == (4real * n + 12real) * part() * la) by (nonlinear_arith)
        requires
            k == (2real * n + 6real) * part(),
    ;
}

/// A score is the cosine of the angle between the vectors, but for rounding. Let
/// the vectors have the same number `n` of finite components, up to `2^20`, and let
/// `la` and `lb` be their lengths, neither so small nor so large that arithmetic
/// fails. The score is the inner product divided by the product of the lengths, to within
/// `7 n + 20` parts in `2^24`.
pub proof fn lemma_cosine(a: Seq<F32>, b: Seq<F32>, la: real, lb: real)
    requires
        a.len() == b.len(),
        0 < a.len() <= 1048576,
        all_finite(a),
        all_finite(b),
        moderate(la, a.len() as real),
        moderate(lb, a.len() as real),
        la * la == inner(a, a),
        lb * lb == inner(b, b),
    ensures
        similarity(a, b).finite(),
        size(number(similarity(a, b)) * (la * lb) - inner(a, b)) <= (7real * (a.len() as real)
            + 20real) * part() * (la * lb),
{
    reveal(similarity);
    let n = a.len() as real;
    let p = la * lb;
    assert(a.take(a.len() as int) =~= a && b.take(b.len() as int) =~= b);
    lemma_unit();
    lemma_moderate(la, lb, a.len() as real);
    lemma_length_close(a, la);
    lemma_length_close(b, lb);
    // The inner product.
    let (d, q) = (inner(a, b), inner_size(a, b));
    lemma_cauchy(a, b, la, lb);
    assert((lb * lb) * (la * la) == p * p) by (nonlinear_arith)
        requires
            p == la * lb,
    ;
    assert((la * la) * (lb * lb) == p * p) by (nonlinear_arith)
        requires
            p == la * lb,
    ;
    assert(q * p <= p * p) by (nonlinear_arith)
        requires
            2real * p * q <= p * p + p * p,
    ;
    lemma_cancel(q, p, p);
    lemma_inner_size(a, b);
    lemma_dot_error(a, b);
    lemma_relative(n, q, p);
    let s = running_sum(products(a, b));
    let e = (2real * n + 2real) * part();
    // The product of the lengths.
    let (na, nb) = (norm(a), norm(b));
    let (x, y) = (number(na), number(nb));
    let h = (4real * n + 12real) * part() / 3real;
    assert(0real <= h && h <= 1real / 10real && 0real <= e && e <= 1real / 7real)
        by (nonlinear_arith)
        requires
            h == (4real * n + 12real) * part() / 3real,
            e == (2real * n + 2real) * part(),
            part() == 1real / 16777216real,
            1real <= n,
            n <= 1048576real,
    ;
    assert(h * la == (4real * n + 12real) * part() * la / 3real) by (nonlinear_arith)
        requires
            h == (4real * n + 12real) * part() / 3real,
    ;
    assert(h * lb == (4real * n + 12real) * part() * lb / 3real) by (nonlinear_arith)
        requires
            h == (4real * n + 12real) * part() / 3real,
    ;
    lemma_product_close(h, la, lb, x, y);
    lemma_more(h, 1real / 10real, p);
    lemma_more(h, 1real / 10real, la);
    lemma_more(h, 1real / 10real, lb);
    let xy = x * y;
    assert(xy > 0real && 100real * xy <= 121real * p);
    lemma_product_error(na, nb);
    let mf = F32::product(na, nb);
    let m = number(mf);
    let g = 21real * h / 10real + 3real * part() / 2real;
    lemma_divisor(h, p, xy, m, g);
    assert(0real <= g && g <= 1real / 5real) by (nonlinear_arith)
        requires
            g == 21real * h / 10real + 3real * part() / 2real,
            h == (4real * n + 12real) * part() / 3real,
            part() == 1real / 16777216real,
            1real <= n,
            n <= 1048576real,
    ;
    lemma_more(g, 1real / 5real, p);
    assert(m > 0real);
    lemma_positive(mf);
    lemma_not_zero(na);
    lemma_not_zero(nb);
    // The quotient.
    lemma_more(e, 1real / 7real, p);
    assert(size(number(s)) <= 8real * p / 7real);
    assert(size(number(s)) <= m * 1329227995784915872903807060280344576real) by {
        lemma_more(1real, 1329227995784915872903807060280344576real / 2real, m);
    }
    lemma_quotient_error(s, mf);
    let t = number(similarity(a, b));
    lemma_score_close(g, e, p, d, number(s), m, t);
    assert(3real * (g * p) / 2real + 2real * (part() * p) + e * p <= (7real * n + 20real) * part()
        * p) by (nonlinear_arith)
        requires
            g == 21real * h / 10real + 3real * part() / 2real,
            h == (4real * n + 12real) * part() / 3real,
            e == (2real * n + 2real) * part(),
            part() == 1real / 16777216real,
            1real <= n,
            p > 0real,
    ;
}

/// How close the computed product of the lengths is.
proof fn lemma_divisor(h: real, p: real, xy: real, m: real, g: real)
    requires
        p >= 1real / 21267647932558653966460912964485513216real,
        xy > 0real,
        100real * xy <= 121real * p,
        10real * size(xy - p) <= 21real * (h * p),
        size(m - xy) <= part() * size(xy) + tiny(),
        g == 21real * h / 10real + 3real * part() / 2real,
    ensures
        size(m - p) <= g * p,
{
    lemma_unit();
    assert(part() * xy == xy / 16777216real) by (nonlinear_arith)
        requires
            part() == 1real / 16777216real,
    ;
    assert(g * p == 21real * (h * p) / 10real + 3real * p / 33554432real) by (nonlinear_arith)
        requires
            g == 21real * h / 10real + 3real * part() / 2real,
            part() == 1real / 16777216real,
    ;
}

proof fn lemma_positive(x: F32)
    requires
        number(x) > 0real,
    ensures
        !x.negative(),
{
    lemma_unit();
    lemma_number(x);
    if x.negative() {
        lemma_cancel(number(x), 0real, unit() as real);
    }
}

proof fn lemma_not_zero(x: F32)
    requires
        number(x) > 0real,
    ensures
        !x.zero(),
{
    lemma_unit();
    lemma_number(x);
    lemma_parts(0);
    if x.zero() {
        lemma_cancel(number(x), 0real, unit() as real);
    }
}

/// The sign of a score is that of the inner product, wherever the inner product is
/// not within rounding of zero.
pub proof fn lemma_score_sign(a: Seq<F32>, b: Seq<F32>, la: real, lb: real)
    requires
        a.len() == b.len(),
        0 < a.len() <= 1048576,
        all_finite(a),
        all_finite(b),
        moderate(la, a.len() as real),
        moderate(lb, a.len() as real),
        la * la == inner(a, a),
        lb * lb == inner(b, b),
        size(inner(a, b)) > (7real * (a.len() as real) + 20real) * part() * (la * lb),
    ensures
        inner(a, b) < 0real <==> number(similarity(a, b)) < 0real,
        inner(a, b) < 0real <==> similarity(a, b).negative(),
        !similarity(a, b).zero(),
{
    lemma_cosine(a, b, la, lb);
    lemma_moderate(la, lb, a.len() as real);
    let (t, p) = (number(similarity(a, b)), la * lb);
    let d = inner(a, b);
    if d < 0real {
        assert(t * p < 0real);
        if t >= 0real {
            lemma_more(0real, t, p);
        }
    } else {
        assert(t * p > 0real);
        if t <= 0real {
            lemma_more(t, 0real, p);
        }
        lemma_positive(similarity(a, b));
    }
    lemma_unit();
    lemma_number(similarity(a, b));
    lemma_parts(0);
    lemma_size_scaled(t, unit() as real);
    if t < 0real {
        lemma_cancel_sign(t, unit() as real);
    } else {
        lemma_not_zero(similarity(a, b));
    }
}

proof fn lemma_cancel_sign(x: real, w: real)
    requires
        w > 0real,
        x < 0real,
    ensures
        x * w < 0real,
{
    assert(x * w < 0real) by (nonlinear_arith)
        requires
            w > 0real,
            x < 0real,
    ;
}

/// A vector scores one against itself, but for rounding.
pub proof fn lemma_self_score(a: Seq<F32>, la: real)
    requires
        0 < a.len() <= 1048576,
        all_finite(a),
        moderate(la, a.len() as real),
        la * la == inner(a, a),
    ensures
        similarity(a, a).finite(),
        size(number(similarity(a, a)) - 1real) <= (7real * (a.len() as real) + 20real) * part(),
{
    lemma_cosine(a, a, la, la);
    lemma_moderate(la, la, a.len() as real);
    let (t, p) = (number(similarity(a, a)), la * la);
    let k = (7real * (a.len() as real) + 20real) * part();
    lemma_ring(t, 1real, p);
    lemma_size_scaled(t - 1real, p);
    lemma_cancel(size(t - 1real), k, p);
}

/// Two numbers of the same size and opposite signs, both zero, or both undefined.
spec fn opposed(x: F32, y: F32) -> bool {
    if x.nan() || y.nan() {
        x.nan() && y.nan()
    } else {
        x.code() == y.code() && (x.zero() || x.negative() != y.negative())
    }
}

proof fn lemma_opposed_product(a: F32, b: F32)
    ensures
        opposed(F32::product(a.negated(), b), F32::product(a, b)),
        F32::product(a.negated(), a.negated()) == F32::product(a, a),
{
    reveal(F32::product);
    let n = a.negated();
    assert(n.code() == a.code() && n.negative() == !a.negative());
}

proof fn lemma_opposed_value(x: F32, y: F32)
    requires
        opposed(x, y),
        !x.nan(),
    ensures
        !y.nan(),
        x.value() == -y.value(),
{
    lemma_parts(0);
}

proof fn lemma_opposed_sum(a: F32, b: F32, c: F32, d: F32)
    requires
        opposed(a, c),
        opposed(b, d),
    ensures
        opposed(F32::sum(a, b), F32::sum(c, d)),
{
    reveal(F32::sum);
    if !a.nan() && !b.nan() {
        lemma_opposed_value(a, c);
        lemma_opposed_value(b, d);
    }
}

proof fn lemma_opposed_quotient(a: F32, b: F32, m: F32)
    requires
        opposed(a, b),
    ensures
        opposed(F32::quotient(a, m), F32::quotient(b, m)),
{
    reveal(F32::quotient);
    if a.zero() && m.finite() && !m.zero() {
        lemma_parts(0);
        lemma_parts(m.code());
        lemma_round_zero(m.magnitude());
        assert(a.magnitude() * unit() == 0) by (nonlinear_arith)
            requires
                a.magnitude() == 0,
        ;
    }
}

proof fn lemma_opposed_sums(x: Seq<F32>, y: Seq<F32>)
    requires
        x.len() == y.len(),
        forall|i: int| 0 <= i < x.len() ==> opposed(#[trigger] x[i], y[i]),
    ensures
        opposed(running_sum(x), running_sum(y)),
    decreases x.len(),
{
    if x.len() > 0 {
        let (p, q) = (x.drop_last(), y.drop_last());
        assert forall|i: int| 0 <= i < p.len() implies opposed(#[trigger] p[i], q[i]) by {
            assert(opposed(x[i], y[i]));
        }
        lemma_opposed_sums(p, q);
        assert(opposed(x[x.len() - 1], y[x.len() - 1]));
        lemma_opposed_sum(running_sum(p), x.last(), running_sum(q), y.last());
    }
}

/// The opposite of a vector.
pub open spec fn opposite(a: Seq<F32>) -> Seq<F32> {
    a.map_values(|x: F32| F32 { bits: (x.bits ^ 0x8000_0000u32) })
}

/// Turning one of two vectors around changes the sign of the score and nothing
/// else, whatever the vectors: the size of the score stays the same bit for bit.
pub proof fn lemma_opposite_score(a: Seq<F32>, b: Seq<F32>)
    ensures
        similarity(opposite(a), b).nan() <==> similarity(a, b).nan(),
        !similarity(a, b).nan() ==> similarity(opposite(a), b).level() == -similarity(a, b).level(),
        !similarity(a, b).nan() && !similarity(a, b).zero() ==> similarity(opposite(a), b).bits
            == similarity(a, b).bits ^ 0x8000_0000u32,
{
    reveal(similarity);
    let o = opposite(a);
    let n = common(a, b) as int;
    assert forall|i: int| 0 <= i < a.len() implies #[trigger] o[i] == a[i].negated() by {
        lemma_flip(a[i].bits);
    }
    let (ha, ho) = (a.take(n), o.take(n));
    assert(products(ho, ho) =~= products(ha, ha)) by {
        assert forall|i: int| 0 <= i < n implies products(ho, ho)[i] == products(ha, ha)[i] by {
            lemma_opposed_product(a[i], a[i]);
        }
    }
    let (x, y) = (products(o, b), products(a, b));
    assert forall|i: int| 0 <= i < x.len() implies opposed(#[trigger] x[i], y[i]) by {
        lemma_opposed_product(a[i], b[i]);
    }
    lemma_opposed_sums(x, y);
    let (na, nb) = (norm(ha), norm(b.take(n)));
    lemma_opposed_quotient(running_sum(x), running_sum(y), F32::product(na, nb));
    lemma_flip(similarity(a, b).bits);
    let (s, t) = (similarity(o, b), similarity(a, b));
    if !t.nan() && !t.zero() {
        assert(s == t.negated());
    }
}

proof fn lemma_flip(bits: u32)
    ensures
        (F32 { bits: (bits ^ 0x8000_0000u32) }) == (F32 { bits }).negated(),
{
    assert(bits ^ 0x8000_0000u32 == if bits >= 0x8000_0000u32 {
        (bits - 0x8000_0000u32) as u32
    } else {
        (bits + 0x8000_0000u32) as u32
    }) by (bit_vector);
    assert(bits % 0x8000_0000u32 == if bits >= 0x8000_0000u32 {
        (bits - 0x8000_0000u32) as u32
    } else {
        bits
    }) by (bit_vector);
}

proof fn lemma_squares_summed(terms: Seq<F32>)
    requires
        forall|i: int| 0 <= i < terms.len() ==> (#[trigger] terms[i]).nan() || !terms[i].negative(),
    ensures
        running_sum(terms).nan() || running_sum(terms).zero() || !running_sum(terms).negative(),
    decreases terms.len(),
{
    if terms.len() > 0 {
        let rest = terms.drop_last();
        assert forall|i: int| 0 <= i < rest.len() implies (#[trigger] rest[i]).nan()
            || !rest[i].negative() by {
            assert(rest[i] == terms[i]);
        }
        lemma_squares_summed(rest);
        reveal(F32::sum);
        lemma_parts(0);
        let last = terms[terms.len() - 1];
        assert(last.nan() || !last.negative());
    }
}

proof fn lemma_square_sign(x: F32)
    ensures
        F32::product(x, x).nan() || !F32::product(x, x).negative(),
{
    reveal(F32::product);
}

proof fn lemma_quotient_sign(a: F32, m: F32)
    requires
        a.nan() || a.zero() || !a.negative(),
        m.nan() || !m.negative(),
    ensures
        F32::quotient(a, m).nan() || F32::quotient(a, m).level() >= 0,
{
    reveal(F32::quotient);
    if a.zero() && m.finite() && !m.zero() {
        lemma_parts(0);
        lemma_parts(m.code());
        lemma_round_zero(m.magnitude());
        assert(a.magnitude() * unit() == 0) by (nonlinear_arith)
            requires
                a.magnitude() == 0,
        ;
    }
}

/// No vector scores below zero against itself, and none above zero against its
/// opposite.
pub proof fn lemma_self_score_sign(a: Seq<F32>)
    ensures
        similarity(a, a).nan() || similarity(a, a).level() >= 0,
        similarity(opposite(a), a).nan() || similarity(opposite(a), a).level() <= 0,
{
    reveal(similarity);
    lemma_opposite_score(a, a);
    assert(a.take(a.len() as int) =~= a);
    let terms = products(a, a);
    assert forall|i: int| 0 <= i < terms.len() implies (#[trigger] terms[i]).nan()
        || !terms[i].negative() by {
        lemma_square_sign(a[i]);
    }
    lemma_squares_summed(terms);
    lemma_square_sign(norm(a));
    lemma_quotient_sign(running_sum(terms), F32::product(norm(a), norm(a)));
}

/// The last step of a score is a single division: the score is what was summed up,
/// divided by the product of the computed lengths, off by no more than one rounding.
/// It may so be a little above one or below minus one.
pub proof fn lemma_score_division(a: Seq<F32>, b: Seq<F32>)
    requires
        a.len() == b.len(),
        ({
            let s = running_sum(products(a, b));
            let m = F32::product(norm(a), norm(b));
            &&& s.finite()
            &&& m.finite()
            &&& !m.negative()
            &&& number(m) > 0real
            &&& size(number(s)) <= number(m) * 1329227995784915872903807060280344576real
        }),
        !norm(a).zero(),
        !norm(b).zero(),
    ensures
        ({
            let s = running_sum(products(a, b));
            let m = F32::product(norm(a), norm(b));
            size(number(similarity(a, b)) * number(m) - number(s)) <= part() * size(number(s))
                + tiny() * number(m)
        }),
{
    reveal(similarity);
    assert(a.take(a.len() as int) =~= a && b.take(b.len() as int) =~= b);
    lemma_quotient_error(running_sum(products(a, b)), F32::product(norm(a), norm(b)));
}

/// A dot product takes up its components from the first to the last, with one rounding
/// for the product and one for the sum: one more component of each vector adds their
/// product to what was summed before.
pub proof fn lemma_dot_grows(a: Seq<F32>, b: Seq<F32>, x: F32, y: F32)
    requires
        a.len() == b.len(),
        ({
            let s = running_sum(products(a, b));
            let p = F32::product(x, y);
            &&& s.finite()
            &&& p.finite()
            &&& size(number(s) + number(p)) <= 1329227995784915872903807060280344576real
        }),
    ensures
        ({
            let s = running_sum(products(a, b));
            let p = F32::product(x, y);
            let t = running_sum(products(a.push(x), b.push(y)));
            t.finite() && size(number(t) - (number(s) + number(p))) <= part() * size(
                number(s) + number(p),
            )
        }),
{
    let (c, d) = (a.push(x), b.push(y));
    assert(products(c, d).drop_last() =~= products(a, b));
    assert(products(c, d).last() == F32::product(x, y));
    lemma_sum_error(running_sum(products(a, b)), F32::product(x, y));
}

} // verus!
