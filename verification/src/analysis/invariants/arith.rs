//! Divisibility and greatest common divisors, and the sums of products
//! that the elimination works with.
use vstd::prelude::*;
use vstd::arithmetic::div_mod::{lemma_fundamental_div_mod, lemma_fundamental_div_mod_converse, lemma_mod_multiples_basic};

use super::{abs, dot, dot_int, entry_value, gcd, gcd_of, trunc_div, vals, BigNum};

verus! {

/// Whether `d` divides `x`.
pub open spec fn divides(d: nat, x: nat) -> bool {
    if d == 0 {
        x == 0
    } else {
        x % d == 0
    }
}

pub proof fn lemma_divides_intro(d: nat, x: nat, q: nat)
    requires
        x == q * d,
    ensures
        divides(d, x),
{
    if d > 0 {
        lemma_mod_multiples_basic(q as int, d as int);
    } else {
        assert(x == 0) by (nonlinear_arith)
            requires
                x == q * d,
                d == 0,
        ;
    }
}

pub proof fn lemma_divides_quot(d: nat, x: nat) -> (q: nat)
    requires
        divides(d, x),
    ensures
        x == q * d,
{
    if d == 0 {
        0
    } else {
        lemma_fundamental_div_mod(x as int, d as int);
        assert((x / d) * d == d * (x / d)) by (nonlinear_arith);
        x / d
    }
}

pub proof fn lemma_divides_trans(a: nat, b: nat, c: nat)
    requires
        divides(a, b),
        divides(b, c),
    ensures
        divides(a, c),
{
    let q1 = lemma_divides_quot(a, b);
    let q2 = lemma_divides_quot(b, c);
    assert(c == (q2 * q1) * a) by (nonlinear_arith)
        requires
            b == q1 * a,
            c == q2 * b,
    ;
    lemma_divides_intro(a, c, q2 * q1);
}

/// The greatest common divisor divides both numbers.
pub proof fn lemma_gcd_divides(a: nat, b: nat)
    ensures
        divides(gcd(a, b), a),
        divides(gcd(a, b), b),
    decreases b,
{
    if b == 0 {
        lemma_divides_intro(a, a, 1);
        lemma_divides_intro(a, 0, 0);
    } else {
        let r = a % b;
        lemma_fundamental_div_mod(a as int, b as int);
        assert(r < b);
        lemma_gcd_divides(b, r);
        let g = gcd(b, r);
        assert(gcd(a, b) == g);
        let q1 = lemma_divides_quot(g, b);
        let q2 = lemma_divides_quot(g, r);
        let k = a / b;
        assert(a == (q1 * k + q2) * g) by (nonlinear_arith)
            requires
                b == q1 * g,
                r == q2 * g,
                a == b * k + r,
        ;
        assert(k >= 0);
        lemma_divides_intro(g, a, (q1 * k + q2) as nat);
    }
}

/// Only zeros have a greatest common divisor of zero.
pub proof fn lemma_gcd_zero(a: nat, b: nat)
    requires
        gcd(a, b) == 0,
    ensures
        a == 0,
        b == 0,
{
    lemma_gcd_divides(a, b);
}

/// Scaling both numbers scales their greatest common divisor.
pub proof fn lemma_gcd_scale(k: nat, a: nat, b: nat)
    ensures
        gcd(k * a, k * b) == k * gcd(a, b),
    decreases b,
{
    if b == 0 {
        assert(k * b == 0) by (nonlinear_arith)
            requires
                b == 0,
        ;
    } else if k == 0 {
        assert(k * a == 0 && k * b == 0) by (nonlinear_arith)
            requires
                k == 0,
        ;
        assert(k * gcd(a, b) == 0) by (nonlinear_arith)
            requires
                k == 0,
        ;
    } else {
        let r = a % b;
        lemma_fundamental_div_mod(a as int, b as int);
        let q = a / b;
        assert(k * a == q * (k * b) + k * r && 0 <= k * r < k * b) by (nonlinear_arith)
            requires
                a == b * q + r,
                0 <= r < b,
                k > 0,
        ;
        lemma_fundamental_div_mod_converse((k * a) as int, (k * b) as int, q as int, (k * r) as int);
        assert((k * a) % (k * b) == k * r);
        assert(k * b > 0) by (nonlinear_arith)
            requires
                k > 0,
                b > 0,
        ;
        lemma_gcd_scale(k, b, r);
    }
}

/// The greatest common divisor of the entries divides each of them.
pub proof fn lemma_gcd_of_divides(v: Seq<BigNum>, n: nat, c: int)
    requires
        n <= v.len(),
        0 <= c < n,
    ensures
        divides(gcd_of(v, n), abs(v[c].value())),
    decreases n,
{
    let prev = gcd_of(v, (n - 1) as nat);
    lemma_gcd_divides(prev, abs(v[n - 1].value()));
    if c < n - 1 {
        lemma_gcd_of_divides(v, (n - 1) as nat, c);
        lemma_divides_trans(gcd_of(v, n), prev, abs(v[c].value()));
    }
}

/// Scaling every entry scales the greatest common divisor.
pub proof fn lemma_gcd_of_scale(v: Seq<BigNum>, w: Seq<BigNum>, k: nat, n: nat)
    requires
        n <= v.len(),
        n <= w.len(),
        forall|c: int| 0 <= c < n ==> #[trigger] abs(v[c].value()) == k * abs(w[c].value()),
    ensures
        gcd_of(v, n) == k * gcd_of(w, n),
    decreases n,
{
    if n == 0 {
        assert(k * 0 == 0) by (nonlinear_arith);
    } else {
        lemma_gcd_of_scale(v, w, k, (n - 1) as nat);
        assert(abs(v[n - 1].value()) == k * abs(w[n - 1].value()));
        lemma_gcd_scale(k, gcd_of(w, (n - 1) as nat), abs(w[n - 1].value()));
    }
}

/// Dividing exactly, toward zero, gives back the number when multiplied.
pub proof fn lemma_trunc_div_exact(a: int, d: int)
    requires
        d != 0,
        divides(abs(d), abs(a)),
    ensures
        trunc_div(a, d) * d == a,
{
    let q = lemma_divides_quot(abs(d), abs(a));
    if a >= 0 {
        if d > 0 {
            lemma_fundamental_div_mod_converse(a, d, q as int, 0);
        } else {
            lemma_fundamental_div_mod_converse(a, -d, q as int, 0);
            assert((-(a / (-d))) * d == a) by (nonlinear_arith)
                requires
                    a / (-d) == q,
                    a == q * (-d),
            ;
        }
    } else {
        if d > 0 {
            lemma_fundamental_div_mod_converse(-a, d, q as int, 0);
            assert((-((-a) / d)) * d == a) by (nonlinear_arith)
                requires
                    (-a) / d == q,
                    -a == q * d,
            ;
        } else {
            lemma_fundamental_div_mod_converse(-a, -d, q as int, 0);
            assert(((-a) / (-d)) * d == a) by (nonlinear_arith)
                requires
                    (-a) / (-d) == q,
                    -a == q * (-d),
            ;
        }
    }
}

/// A sum over big numbers is the sum over their values.
pub proof fn lemma_dot_vals(row: Seq<BigNum>, v: Seq<BigNum>, n: nat)
    requires
        n <= v.len(),
    ensures
        dot(row, v, n) == dot_int(row, vals(v), n),
    decreases n,
{
    if n > 0 {
        lemma_dot_vals(row, v, (n - 1) as nat);
    }
}

/// Rows equal on the first `n` columns have equal sums there.
pub proof fn lemma_dot_int_same(r1: Seq<BigNum>, r2: Seq<BigNum>, z: Seq<int>, n: nat)
    requires
        forall|c: int| 0 <= c < n ==> #[trigger] entry_value(r1, c) == entry_value(r2, c),
    ensures
        dot_int(r1, z, n) == dot_int(r2, z, n),
    decreases n,
{
    if n > 0 {
        lemma_dot_int_same(r1, r2, z, (n - 1) as nat);
        assert(entry_value(r1, n - 1) == entry_value(r2, n - 1));
    }
}

/// A row made as `row` times `p` minus `prow` times `f` sums as those sums.
pub proof fn lemma_dot_int_combine(
    new: Seq<BigNum>,
    row: Seq<BigNum>,
    prow: Seq<BigNum>,
    p: int,
    f: int,
    z: Seq<int>,
    n: nat,
)
    requires
        forall|c: int|
            0 <= c < n ==> #[trigger] entry_value(new, c) == entry_value(row, c) * p - entry_value(prow, c) * f,
    ensures
        dot_int(new, z, n) == p * dot_int(row, z, n) - f * dot_int(prow, z, n),
    decreases n,
{
    if n > 0 {
        let m = (n - 1) as nat;
        lemma_dot_int_combine(new, row, prow, p, f, z, m);
        let a = entry_value(row, n - 1);
        let b = entry_value(prow, n - 1);
        let x = z[n - 1];
        let dn = dot_int(new, z, m);
        let dr = dot_int(row, z, m);
        let dp = dot_int(prow, z, m);
        assert(entry_value(new, n - 1) == a * p - b * f);
        assert(dn + (a * p - b * f) * x == p * (dr + a * x) - f * (dp + b * x)) by (nonlinear_arith)
            requires
                dn == p * dr - f * dp,
        ;
    }
}

/// A sum in which every term but the one of column `c0` is zero is that
/// term.
pub proof fn lemma_dot_int_only(row: Seq<BigNum>, z: Seq<int>, n: nat, c0: int)
    requires
        0 <= c0 < n,
        forall|c: int| 0 <= c < n && c != c0 ==> #[trigger] (entry_value(row, c) * z[c]) == 0,
    ensures
        dot_int(row, z, n) == entry_value(row, c0) * z[c0],
    decreases n,
{
    if n - 1 > c0 {
        lemma_dot_int_only(row, z, (n - 1) as nat, c0);
        assert(entry_value(row, n - 1) * z[n - 1] == 0);
    } else {
        lemma_dot_int_zero(row, z, (n - 1) as nat);
    }
}

/// A sum in which every term is zero is zero.
pub proof fn lemma_dot_int_zero(row: Seq<BigNum>, z: Seq<int>, n: nat)
    requires
        forall|c: int| 0 <= c < n ==> #[trigger] (entry_value(row, c) * z[c]) == 0,
    ensures
        dot_int(row, z, n) == 0,
    decreases n,
{
    if n > 0 {
        lemma_dot_int_zero(row, z, (n - 1) as nat);
        assert(entry_value(row, n - 1) * z[n - 1] == 0);
    }
}

/// A sum in which every term but those of columns `c1` and `c2` is zero is
/// the sum of those two.
pub proof fn lemma_dot_int_pair(row: Seq<BigNum>, z: Seq<int>, n: nat, c1: int, c2: int)
    requires
        0 <= c1 < n,
        0 <= c2 < n,
        c1 != c2,
        forall|c: int| 0 <= c < n && c != c1 && c != c2 ==> #[trigger] (entry_value(row, c) * z[c]) == 0,
    ensures
        dot_int(row, z, n) == entry_value(row, c1) * z[c1] + entry_value(row, c2) * z[c2],
    decreases n,
{
    let m = (n - 1) as nat;
    if n - 1 != c1 && n - 1 != c2 {
        lemma_dot_int_pair(row, z, m, c1, c2);
        assert(entry_value(row, n - 1) * z[n - 1] == 0);
    } else if n - 1 == c1 {
        lemma_dot_int_only(row, z, m, c2);
    } else {
        lemma_dot_int_only(row, z, m, c1);
    }
}

/// Scaling the vector scales the sum.
pub proof fn lemma_dot_int_scale(row: Seq<BigNum>, z: Seq<int>, w: Seq<int>, g: int, n: nat)
    requires
        forall|c: int| 0 <= c < n ==> #[trigger] z[c] == g * w[c],
    ensures
        dot_int(row, z, n) == g * dot_int(row, w, n),
    decreases n,
{
    if n > 0 {
        let m = (n - 1) as nat;
        lemma_dot_int_scale(row, z, w, g, m);
        let a = entry_value(row, n - 1);
        assert(z[n - 1] == g * w[n - 1]);
        assert(dot_int(row, z, m) + a * (g * w[n - 1]) == g * (dot_int(row, w, m) + a * w[n - 1])) by (nonlinear_arith)
            requires
                dot_int(row, z, m) == g * dot_int(row, w, m),
        ;
    }
}

} // verus!
