//! Facts about real numbers that the laws of the constraint builder rest on.

use vstd::prelude::*;

verus! {

/// Multiplying by zero, one and minus one.
pub proof fn lemma_unit_products(v: real)
    ensures
        v * 0real == 0real,
        0real * v == 0real,
        (-0real) * v == 0real,
        1real * v == v,
        (-1real) * v == -v,
{
    assert(v * 0real == 0real) by (nonlinear_arith);
    assert(0real * v == 0real) by (nonlinear_arith);
    assert(1real * v == v) by (nonlinear_arith);
    assert((-1real) * v == -v) by (nonlinear_arith);
}

/// A quotient of products of numbers that are not negative, over positive
/// ones, is not negative.
pub proof fn lemma_quotient_not_negative(n: real, ns: real, d: real, ds: real)
    requires
        n >= 0real,
        ns >= 0real,
        d > 0real,
        ds > 0real,
    ensures
        (n * ns) / (d * ds) >= 0real,
{
    let top = n * ns;
    let bottom = d * ds;
    assert(top >= 0real) by (nonlinear_arith)
        requires
            top == n * ns,
            n >= 0real,
            ns >= 0real,
    ;
    assert(bottom > 0real) by (nonlinear_arith)
        requires
            bottom == d * ds,
            d > 0real,
            ds > 0real,
    ;
    assert(top / bottom >= 0real) by (nonlinear_arith)
        requires
            top >= 0real,
            bottom > 0real,
    ;
}

/// `(v * 1) / (1 * 1)` is `v`.
pub proof fn lemma_over_one(v: real)
    ensures
        (v * 1real) / (1real * 1real) == v,
{
    assert(v * 1real == v) by (nonlinear_arith);
    assert(1real * 1real == 1real) by (nonlinear_arith);
    assert(v / 1real == v) by (nonlinear_arith);
}

/// `n / (s * c)`, times `s`, is `n / c`.
pub proof fn lemma_cancel_reserve(n: real, s: real, c: real)
    requires
        s > 0real,
        c > 0real,
    ensures
        ((n * 1real) / (s * c)) * s == n / c,
{
    let m = (n * 1real) / (s * c);
    let sc = s * c;
    assert(sc > 0real) by (nonlinear_arith)
        requires
            sc == s * c,
            s > 0real,
            c > 0real,
    ;
    assert(n * 1real == n) by (nonlinear_arith);
    assert(m * sc == n) by (nonlinear_arith)
        requires
            m == n / sc,
            sc > 0real,
    ;
    let r = n / c;
    assert(r * c == n) by (nonlinear_arith)
        requires
            r == n / c,
            c > 0real,
    ;
    assert((m * s) * c == m * sc) by (nonlinear_arith)
        requires
            sc == s * c,
    ;
    assert(m * s == r) by (nonlinear_arith)
        requires
            (m * s) * c == n,
            r * c == n,
            c > 0real,
    ;
}

/// `(s * k) / (1 * c)` is `s * (k / c)`.
pub proof fn lemma_scaled_share(s: real, k: real, c: real)
    requires
        c > 0real,
    ensures
        (s * k) / (1real * c) == s * (k / c),
{
    let f = k / c;
    let t = (s * k) / (1real * c);
    assert(1real * c == c) by (nonlinear_arith);
    assert(f * c == k) by (nonlinear_arith)
        requires
            f == k / c,
            c > 0real,
    ;
    let sk = s * k;
    assert(t * c == sk) by (nonlinear_arith)
        requires
            t == sk / c,
            c > 0real,
    ;
    assert((s * f) * c == sk) by (nonlinear_arith)
        requires
            f * c == k,
            sk == s * k,
    ;
    assert(t == s * f) by (nonlinear_arith)
        requires
            t * c == sk,
            (s * f) * c == sk,
            c > 0real,
    ;
}

/// The norm of `(2, p - q)` is at most `p + q` exactly when neither `p` nor
/// `q` is negative and their product is at least 1.
pub proof fn lemma_norm_is_product(p: real, q: real)
    ensures
        (p + q >= 0real && 4real + (p - q) * (p - q) <= (p + q) * (p + q)) <==> (p >= 0real && q
            >= 0real && p * q >= 1real),
{
    assert((p + q) * (p + q) - (p - q) * (p - q) == 4real * (p * q)) by (nonlinear_arith);
    if p * q >= 1real && p + q >= 0real {
        assert(p >= 0real && q >= 0real) by (nonlinear_arith)
            requires
                p * q >= 1real,
                p + q >= 0real,
        ;
    }
}

/// Scaling two numbers by positive factors scales their product and keeps
/// their signs.
pub proof fn lemma_scaled_product(s0: real, s1: real, p: real, q: real)
    requires
        s0 > 0real,
        s1 > 0real,
    ensures
        (p >= 0real && q >= 0real && p * q >= 1real) <==> (s0 * p >= 0real && s1 * q >= 0real && (s0
            * p) * (s1 * q) >= s0 * s1),
{
    assert((s0 * p >= 0real) <==> (p >= 0real)) by (nonlinear_arith)
        requires
            s0 > 0real,
    ;
    assert((s1 * q >= 0real) <==> (q >= 0real)) by (nonlinear_arith)
        requires
            s1 > 0real,
    ;
    let w = s0 * s1;
    assert(w > 0real) by (nonlinear_arith)
        requires
            w == s0 * s1,
            s0 > 0real,
            s1 > 0real,
    ;
    assert((s0 * p) * (s1 * q) == w * (p * q)) by (nonlinear_arith)
        requires
            w == s0 * s1,
    ;
    let t = p * q;
    assert((w * t >= w) <==> (t >= 1real)) by (nonlinear_arith)
        requires
            w > 0real,
    ;
}

/// With `cl = -1 / s` and `cd = f / s`, the form `cl * l + cd * d` is the
/// change `f * d - l` divided by `s`.
pub proof fn lemma_relative_change(cl: real, cd: real, s: real, f: real, l: real, d: real)
    requires
        cl * s == -1real,
        cd * s == f,
    ensures
        (cl * l + cd * d) * s == f * d - l,
{
    assert((cl * l) * s == (cl * s) * l) by (nonlinear_arith);
    assert((cd * d) * s == (cd * s) * d) by (nonlinear_arith);
    assert((cl * l + cd * d) * s == (cl * l) * s + (cd * d) * s) by (nonlinear_arith);
    assert((-1real) * l == -l) by (nonlinear_arith);
}

/// Two numbers with the same positive multiple are the same number.
pub proof fn lemma_same_multiple(a: real, b: real, s: real)
    requires
        s > 0real,
        a * s == b * s,
    ensures
        a == b,
{
    assert(a == b) by (nonlinear_arith)
        requires
            s > 0real,
            a * s == b * s,
    ;
}

/// A reserve that changed by the share `a` of itself is `1 + a` times what
/// it was.
pub proof fn lemma_grown(a: real, s: real, n: real)
    requires
        a * s == n - s,
    ensures
        n == s * (1real + a),
{
    assert(s * (1real + a) == s + a * s) by (nonlinear_arith);
}

/// The squares on the cone's left side, in terms of the two growth factors.
pub proof fn lemma_cone_sides(a: real, b: real)
    ensures
        2real * 2real + (a - b) * (a - b) == 4real + ((1real + a) - (1real + b)) * ((1real + a) - (
        1real + b)),
{
    assert(2real * 2real == 4real) by (nonlinear_arith);
    assert((1real + a) - (1real + b) == a - b);
}

/// The left side of a constant-product pool's tangent row is the negated
/// tangent gain.
pub proof fn lemma_tangent_form(
    s0: real,
    s1: real,
    f: real,
    l0: real,
    d0: real,
    l1: real,
    d1: real,
)
    ensures
        s1 * l0 + (-(s1 * f)) * d0 + s0 * l1 + (-(s0 * f)) * d1 == -(s1 * ((s0 + f * d0 - l0) - s0)
            + s0 * ((s1 + f * d1 - l1) - s1)),
{
    let g0 = f * d0 - l0;
    let g1 = f * d1 - l1;
    assert((s0 + f * d0 - l0) - s0 == g0);
    assert((s1 + f * d1 - l1) - s1 == g1);
    assert(s1 * g0 == (s1 * f) * d0 - s1 * l0) by (nonlinear_arith)
        requires
            g0 == f * d0 - l0,
    ;
    assert(s0 * g1 == (s0 * f) * d1 - s0 * l1) by (nonlinear_arith)
        requires
            g1 == f * d1 - l1,
    ;
    assert((-(s1 * f)) * d0 == -((s1 * f) * d0)) by (nonlinear_arith);
    assert((-(s0 * f)) * d1 == -((s0 * f) * d1)) by (nonlinear_arith);
}

/// Where the product of two reserves has not fallen, their changes, each
/// weighed by the other reserve, do not add up to a loss.
pub proof fn lemma_kept_product_gains(s0: real, s1: real, n0: real, n1: real)
    requires
        s0 > 0real,
        s1 > 0real,
        n0 >= 0real,
        n1 >= 0real,
        n0 * n1 >= s0 * s1,
    ensures
        s1 * (n0 - s0) + s0 * (n1 - s1) >= 0real,
{
    let u = s1 * n0;
    let v = s0 * n1;
    let w = s0 * s1;
    assert(u >= 0real && v >= 0real && w > 0real) by (nonlinear_arith)
        requires
            u == s1 * n0,
            v == s0 * n1,
            w == s0 * s1,
            s0 > 0real,
            s1 > 0real,
            n0 >= 0real,
            n1 >= 0real,
    ;
    assert(u * v == w * (n0 * n1)) by (nonlinear_arith)
        requires
            u == s1 * n0,
            v == s0 * n1,
            w == s0 * s1,
    ;
    let t = n0 * n1;
    assert(w * t >= w * w) by (nonlinear_arith)
        requires
            t >= w,
            w > 0real,
    ;
    // (u - v)^2 >= 0 gives (u + v)^2 >= 4 u v >= (2 w)^2.
    assert((u + v) * (u + v) >= 4real * (u * v)) by (nonlinear_arith);
    let z = u + v;
    assert(z >= 2real * w) by (nonlinear_arith)
        requires
            z >= 0real,
            w > 0real,
            z * z >= 4real * (w * w),
    ;
    assert(s1 * (n0 - s0) + s0 * (n1 - s1) == u + v - 2real * w) by (nonlinear_arith)
        requires
            u == s1 * n0,
            v == s0 * n1,
            w == s0 * s1,
    ;
}

/// A one-way trade in whole units keeps the product of the reserves as real
/// numbers exactly when it keeps it in integers, with the fee's denominator
/// multiplied through.
pub proof fn lemma_product_kept_in_integers(r0: int, r1: int, keep: int, paid: int, taken: int)
    requires
        r0 > 0,
        r1 > 0,
        0 <= keep <= 10000,
        paid >= 0,
        taken >= 0,
    ensures
        ({
            let f = keep as real / 10000real;
            let n0 = r0 as real + f * (paid as real) - 0real;
            let n1 = r1 as real + f * 0real - taken as real;
            (n0 >= 0real && n1 >= 0real && n0 * n1 >= (r0 as real) * (r1 as real)) <==> (taken
                <= r1 && (r0 * 10000 + paid * keep) * (r1 - taken) >= r0 * 10000 * r1)
        }),
{
    let s0 = r0 as real;
    let s1 = r1 as real;
    let k = keep as real;
    let d = paid as real;
    let l = taken as real;
    let f = k / 10000real;
    let n0 = s0 + f * d - 0real;
    let n1 = s1 + f * 0real - l;
    let a_int = r0 * 10000 + paid * keep;
    let b_int = r1 - taken;
    let c_int = r0 * 10000 * r1;
    lemma_real_of_product(paid, keep);
    lemma_real_of_product(r0 * 10000, r1);
    lemma_real_of_product(a_int, b_int);
    let a = a_int as real;
    let b = b_int as real;
    let c = c_int as real;
    assert(a == s0 * 10000real + d * k);
    assert(b == s1 - l);
    assert(c == (s0 * 10000real) * s1);
    lemma_unit_products(f);
    assert(n1 == b);
    assert(f * 10000real == k) by (nonlinear_arith)
        requires
            f == k / 10000real,
    ;
    assert(n0 * 10000real == a) by (nonlinear_arith)
        requires
            n0 == s0 + f * d - 0real,
            a == s0 * 10000real + d * k,
            f * 10000real == k,
    ;
    assert(a > 0real) by (nonlinear_arith)
        requires
            a == s0 * 10000real + d * k,
            s0 > 0real,
            d >= 0real,
            k >= 0real,
    ;
    assert(n0 > 0real) by (nonlinear_arith)
        requires
            n0 * 10000real == a,
            a > 0real,
    ;
    let w = s0 * s1;
    assert((n0 * n1) * 10000real == a * b) by (nonlinear_arith)
        requires
            n0 * 10000real == a,
            n1 == b,
    ;
    assert(w * 10000real == c) by (nonlinear_arith)
        requires
            w == s0 * s1,
            c == (s0 * 10000real) * s1,
    ;
    let u = n0 * n1;
    assert((u >= w) <==> (u * 10000real >= w * 10000real)) by (nonlinear_arith);
    assert((a_int * b_int) as real == a * b);
    assert((a_int * b_int >= c_int) <==> (a * b >= c));
}

/// The real number of a product of integers is the product of their real
/// numbers.
pub proof fn lemma_real_of_product(x: int, y: int)
    ensures
        (x * y) as real == (x as real) * (y as real),
{
    assert((x * y) as real == (x as real) * (y as real)) by (nonlinear_arith);
}

} // verus!
