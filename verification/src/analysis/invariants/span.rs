//! Vectors with columns of their own that determine a set of vectors
//! closed under linear combination span it over the rationals.
use vstd::prelude::*;

use super::arith::{divides, lemma_divides_intro, lemma_divides_quot, lemma_divides_trans};

verus! {

/// The vector `u + c·v` over `n` entries.
pub open spec fn lin(u: Seq<int>, c: int, v: Seq<int>, n: nat) -> Seq<int> {
    Seq::new(n, |p: int| u[p] + c * v[p])
}

/// The sum over the first `k` vectors of `vecs` of `lam[i]` times entry `p`.
pub open spec fn combo_int(vecs: Seq<Seq<int>>, lam: Seq<int>, p: int, k: nat) -> int
    decreases k,
{
    if k == 0 {
        0
    } else {
        combo_int(vecs, lam, p, (k - 1) as nat) + lam[k - 1] * vecs[k - 1][p]
    }
}

/// The product of the entries of the first `k` vectors on their own
/// columns.
pub open spec fn own_product(vecs: Seq<Seq<int>>, fs: Seq<int>, k: nat) -> int
    decreases k,
{
    if k == 0 {
        1
    } else {
        own_product(vecs, fs, (k - 1) as nat) * vecs[k - 1][fs[k - 1]]
    }
}

/// Whether `fs` gives each vector of `vecs` (all of `n` entries) a column
/// of its own: positive there, and zero there in every other vector.
pub open spec fn own_int_columns(vecs: Seq<Seq<int>>, fs: Seq<int>, n: nat) -> bool {
    &&& fs.len() == vecs.len()
    &&& forall|k: int| 0 <= k < vecs.len() ==> (#[trigger] vecs[k]).len() == n
    &&& forall|k: int| 0 <= k < fs.len() ==> 0 <= #[trigger] fs[k] < n && vecs[k][fs[k]] > 0
    &&& forall|j: int, k: int| 0 <= j < fs.len() && 0 <= k < fs.len() && j != k ==> (#[trigger] vecs[j])[#[trigger] fs[k]] == 0
}

proof fn lemma_own_product(vecs: Seq<Seq<int>>, fs: Seq<int>, n: nat, k: nat)
    requires
        own_int_columns(vecs, fs, n),
        k <= vecs.len(),
    ensures
        own_product(vecs, fs, k) > 0,
        forall|j: int| 0 <= j < k ==> divides((#[trigger] vecs[j][fs[j]]) as nat, own_product(vecs, fs, k) as nat),
    decreases k,
{
    if k > 0 {
        let m = (k - 1) as nat;
        lemma_own_product(vecs, fs, n, m);
        let pm = own_product(vecs, fs, m);
        let x = vecs[m as int][fs[m as int]];
        assert(x > 0);
        assert(pm * x > 0) by (nonlinear_arith)
            requires
                pm > 0,
                x > 0,
        ;
        lemma_divides_intro(x as nat, (pm * x) as nat, pm as nat);
        lemma_divides_intro(pm as nat, (pm * x) as nat, x as nat);
        assert forall|j: int| 0 <= j < k implies divides((#[trigger] vecs[j][fs[j]]) as nat, own_product(vecs, fs, k) as nat) by {
            if j < m {
                lemma_divides_trans(vecs[j][fs[j]] as nat, pm as nat, (pm * x) as nat);
            }
        }
    }
}

/// On the own column of vector `j`, only that vector counts in a
/// combination.
proof fn lemma_combo_own(vecs: Seq<Seq<int>>, fs: Seq<int>, n: nat, lam: Seq<int>, j: int, k: nat)
    requires
        own_int_columns(vecs, fs, n),
        k <= vecs.len(),
        0 <= j < vecs.len(),
    ensures
        combo_int(vecs, lam, fs[j], k) == if j < k {
            lam[j] * vecs[j][fs[j]]
        } else {
            0
        },
    decreases k,
{
    if k > 0 {
        lemma_combo_own(vecs, fs, n, lam, j, (k - 1) as nat);
        if k - 1 != j {
            assert(vecs[k - 1][fs[j]] == 0);
            assert(lam[k - 1] * 0 == 0) by (nonlinear_arith);
        }
    }
}

/// Whether `d` times `y` is the combination of `vecs` with coefficients
/// `lam`, on all `n` entries, with `d` positive.
pub open spec fn represents(y: Seq<int>, vecs: Seq<Seq<int>>, d: int, lam: Seq<int>, n: nat) -> bool {
    &&& d > 0
    &&& lam.len() == vecs.len()
    &&& forall|p: int| 0 <= p < n ==> d * y[p] == #[trigger] combo_int(vecs, lam, p, vecs.len())
}

/// `d·y` minus the combination of the first `k` vectors.
pub open spec fn partial(y: Seq<int>, vecs: Seq<Seq<int>>, lam: Seq<int>, d: int, n: nat, k: nat) -> Seq<int> {
    Seq::new(n, |p: int| d * y[p] - combo_int(vecs, lam, p, k))
}

proof fn lemma_partial_in(
    kern: spec_fn(Seq<int>) -> bool,
    y: Seq<int>,
    vecs: Seq<Seq<int>>,
    lam: Seq<int>,
    d: int,
    n: nat,
    k: nat,
)
    requires
        k <= vecs.len(),
        y.len() == n,
        kern(y),
        forall|i: int| 0 <= i < vecs.len() ==> (#[trigger] vecs[i]).len() == n && kern(vecs[i]),
        forall|u: Seq<int>, c: int, v: Seq<int>|
            u.len() == n && v.len() == n && kern(u) && kern(v) ==> #[trigger] kern(lin(u, c, v, n)),
    ensures
        kern(partial(y, vecs, lam, d, n, k)),
    decreases k,
{
    if k == 0 {
        let zero = lin(y, -1, y, n);
        assert(kern(zero));
        assert(kern(lin(zero, d, y, n)));
        assert(lin(zero, d, y, n) =~= partial(y, vecs, lam, d, n, 0));
    } else {
        let m = (k - 1) as nat;
        lemma_partial_in(kern, y, vecs, lam, d, n, m);
        let prev = partial(y, vecs, lam, d, n, m);
        assert(kern(lin(prev, -lam[m as int], vecs[m as int], n)));
        assert forall|p: int| 0 <= p < n implies #[trigger] lin(prev, -lam[m as int], vecs[m as int], n)[p] == partial(
            y,
            vecs,
            lam,
            d,
            n,
            k,
        )[p] by {
            let l = lam[m as int];
            let v = vecs[m as int][p];
            assert((-l) * v == -(l * v)) by (nonlinear_arith);
        }
        assert(lin(prev, -lam[m as int], vecs[m as int], n) =~= partial(y, vecs, lam, d, n, k));
    }
}

/// Vectors with columns of their own, in a set closed under `u + c·v` in
/// which a vector zero on all those columns is zero, span the set: a
/// positive multiple of any member is an integer combination of them.
pub proof fn lemma_own_columns_span(
    kern: spec_fn(Seq<int>) -> bool,
    vecs: Seq<Seq<int>>,
    fs: Seq<int>,
    n: nat,
    y: Seq<int>,
)
    requires
        own_int_columns(vecs, fs, n),
        forall|i: int| 0 <= i < vecs.len() ==> kern(#[trigger] vecs[i]),
        forall|u: Seq<int>, c: int, v: Seq<int>|
            u.len() == n && v.len() == n && kern(u) && kern(v) ==> #[trigger] kern(lin(u, c, v, n)),
        forall|z: Seq<int>|
            z.len() == n && #[trigger] kern(z) && (forall|k: int| 0 <= k < fs.len() ==> z[#[trigger] fs[k]] == 0)
                ==> forall|p: int| 0 <= p < n ==> #[trigger] z[p] == 0,
        y.len() == n,
        kern(y),
    ensures
        exists|d: int, lam: Seq<int>| #[trigger] represents(y, vecs, d, lam, n),
{
    let kk = vecs.len();
    lemma_own_product(vecs, fs, n, kk);
    let d = own_product(vecs, fs, kk);
    let lam = Seq::new(kk, |i: int| y[fs[i]] * (d / vecs[i][fs[i]]));
    lemma_partial_in(kern, y, vecs, lam, d, n, kk);
    let z = partial(y, vecs, lam, d, n, kk);
    assert forall|k: int| 0 <= k < fs.len() implies z[#[trigger] fs[k]] == 0 by {
        lemma_combo_own(vecs, fs, n, lam, k, kk);
        let x = vecs[k][fs[k]];
        assert(divides(x as nat, d as nat));
        let q = lemma_divides_quot(x as nat, d as nat);
        assert(d / x == q) by {
            vstd::arithmetic::div_mod::lemma_fundamental_div_mod_converse(d, x, q as int, 0);
        }
        assert(lam[k] * x == y[fs[k]] * d) by (nonlinear_arith)
            requires
                lam[k] == y[fs[k]] * q,
                d == q * x,
        ;
    }
    assert(forall|p: int| 0 <= p < n ==> #[trigger] z[p] == 0);
    assert forall|p: int| 0 <= p < n implies d * y[p] == #[trigger] combo_int(vecs, lam, p, kk) by {
        assert(z[p] == 0);
    }
    assert(represents(y, vecs, d, lam, n));
}

} // verus!
