//! Difference bound matrices.
//!
//! A DBM over `n` clocks (clock 0 is the reference clock, constantly zero)
//! stores one bound per ordered pair: entry `(i, j)` is `c` when the zone
//! satisfies `x_i - x_j <= c`. [`INF_TIME`] marks "no bound". The matrix is
//! kept row-major in a flat vector of `n * n` entries.
use vstd::prelude::*;

pub mod order;

use crate::text::{decimal, padded, push_char, push_decimal, push_padded, push_signed, push_str, signed_decimal, string_of};
use vstd::arithmetic::div_mod::lemma_fundamental_div_mod;
use vstd::arithmetic::div_mod::lemma_fundamental_div_mod_converse;

verus! {

/// Sentinel for "no upper bound" (+infinity) inside DBM matrices.
pub const INF_TIME: i32 = 0x7fff_ffffi32;

// ---------------------------------------------------------------------------
// Mathematical model
// ---------------------------------------------------------------------------

/// Adding two bounds: infinity absorbs, and a finite sum outside the `i32`
/// range saturates to infinity (upwards) or to `i32::MIN` (downwards).
pub open spec fn bound_add(a: i32, b: i32) -> i32 {
    if a == INF_TIME || b == INF_TIME {
        INF_TIME
    } else if a + b > i32::MAX {
        INF_TIME
    } else if a + b < i32::MIN {
        i32::MIN
    } else {
        (a + b) as i32
    }
}

/// Entry `(i, j)` of the row-major `n x n` matrix `m`.
pub open spec fn cell(m: Seq<i32>, n: nat, i: int, j: int) -> i32 {
    m[i * n + j]
}

/// Whether `(i, j)` is a position of an `n x n` matrix.
pub open spec fn in_range(n: nat, i: int, j: int) -> bool {
    0 <= i < n && 0 <= j < n
}

/// The entry of a freshly created zone: the diagonal and the first row are
/// zero (every clock is non-negative and no clock lags another one), every
/// other entry is unbounded.
pub open spec fn init_cell(i: int, j: int) -> i32 {
    if i == j || i == 0 {
        0
    } else {
        INF_TIME
    }
}

/// The `n x n` matrix whose entry `(i, j)` is `f(i, j)`.
pub open spec fn matrix_of(n: nat, f: spec_fn(int, int) -> i32) -> Seq<i32> {
    Seq::new(n * n, |x: int| f(x / (n as int), x % (n as int)))
}

/// A strictly increasing sequence (a sorted set without repetitions).
pub open spec fn strictly_sorted(s: Seq<usize>) -> bool {
    forall|a: int, b: int| 0 <= a < b < s.len() ==> s[a] < s[b]
}

/// Whether every diagonal entry is non-negative.
pub open spec fn diagonal_ok(m: Seq<i32>, n: nat) -> bool {
    forall|i: int| 0 <= i < n ==> #[trigger] cell(m, n, i, i) >= 0
}

/// One Floyd–Warshall relaxation step: improve `(i, j)` through `k`.
pub open spec fn relax(m: Seq<i32>, n: nat, k: int, i: int, j: int) -> Seq<i32> {
    let ik = cell(m, n, i, k);
    let kj = cell(m, n, k, j);
    let ij = cell(m, n, i, j);
    if ik == INF_TIME || kj == INF_TIME {
        m
    } else if ij == INF_TIME || bound_add(ik, kj) < ij {
        m.update(i * n + j, bound_add(ik, kj))
    } else {
        m
    }
}

/// Relaxing the first `j` entries of row `i` through `k`, in order.
pub open spec fn relax_row(m: Seq<i32>, n: nat, k: int, i: int, j: nat) -> Seq<i32>
    decreases j,
{
    if j == 0 {
        m
    } else {
        relax(relax_row(m, n, k, i, (j - 1) as nat), n, k, i, j - 1)
    }
}

/// Relaxing the first `i` rows through `k`, in order.
pub open spec fn relax_rows(m: Seq<i32>, n: nat, k: int, i: nat) -> Seq<i32>
    decreases i,
{
    if i == 0 {
        m
    } else {
        relax_row(relax_rows(m, n, k, (i - 1) as nat), n, k, i - 1, n)
    }
}

/// The in-place Floyd–Warshall pass over the first `k` intermediate clocks.
pub open spec fn closure_upto(m: Seq<i32>, n: nat, k: nat) -> Seq<i32>
    decreases k,
{
    if k == 0 {
        m
    } else {
        relax_rows(closure_upto(m, n, (k - 1) as nat), n, k - 1, n)
    }
}

/// The all-pairs shortest-path closure computed in place by Floyd–Warshall
/// (rows, then columns, for every intermediate clock in increasing order).
pub open spec fn closure(m: Seq<i32>, n: nat) -> Seq<i32> {
    closure_upto(m, n, n)
}

/// `a` is at least as tight as `b` (infinity is the loosest bound).
pub open spec fn tighter_or_equal(a: i32, b: i32) -> bool {
    b == INF_TIME || (a != INF_TIME && a <= b)
}

/// Whether `p` holds of some `x` in `[0, k)`.
pub open spec fn exists_below(p: spec_fn(int) -> bool, k: int) -> bool {
    exists|x: int| #![trigger p(x)] 0 <= x < k && p(x)
}

/// Extending the range of [`exists_below`] by one.
pub proof fn lemma_exists_below_step(p: spec_fn(int) -> bool, k: int)
    requires
        0 <= k,
    ensures
        exists_below(p, k + 1) == (exists_below(p, k) || p(k)),
{
    if exists_below(p, k + 1) && !p(k) {
        let x = choose|x: int| #![trigger p(x)] 0 <= x < k + 1 && p(x);
        assert(0 <= x < k && p(x));
    }
    if exists_below(p, k) {
        let x = choose|x: int| #![trigger p(x)] 0 <= x < k && p(x);
        assert(0 <= x < k + 1 && p(x));
    }
    if p(k) {
        assert(0 <= k < k + 1 && p(k));
    }
}

// ---------------------------------------------------------------------------
// Index arithmetic
// ---------------------------------------------------------------------------

/// A position of an `n x n` matrix lies inside its `n * n` entries.
pub proof fn lemma_cell_index(n: nat, i: int, j: int)
    requires
        in_range(n, i, j),
    ensures
        0 <= i * n + j < n * n,
{
    assert(0 <= i * n + j < n * n) by (nonlinear_arith)
        requires
            0 <= i < n,
            0 <= j < n,
    ;
}

/// Two positions of a matrix share an entry only when they are equal.
pub proof fn lemma_cell_index_inj(n: nat, i: int, j: int, a: int, b: int)
    requires
        in_range(n, i, j),
        in_range(n, a, b),
        i * n + j == a * n + b,
    ensures
        i == a,
        j == b,
{
    lemma_fundamental_div_mod_converse(i * n + j, n as int, i, j);
    lemma_fundamental_div_mod_converse(a * n + b, n as int, a, b);
}

/// Every entry of an `n x n` matrix is at some position.
pub proof fn lemma_cell_decompose(n: nat, x: int)
    requires
        0 <= x < n * n,
    ensures
        in_range(n, x / (n as int), x % (n as int)),
        x == (x / (n as int)) * n + x % (n as int),
{
    let q = x / (n as int);
    let r = x % (n as int);
    assert(n > 0) by (nonlinear_arith)
        requires
            0 <= x < n * n,
    ;
    lemma_fundamental_div_mod(x, n as int);
    assert(0 <= r < n) by {
        vstd::arithmetic::div_mod::lemma_mod_pos_bound(x, n as int);
    }
    assert(x == q * n + r) by (nonlinear_arith)
        requires
            x == n * q + r,
    ;
    assert(0 <= q < n) by (nonlinear_arith)
        requires
            x == q * n + r,
            0 <= r < n,
            0 <= x < n * n,
    ;
}

/// The entries of [`matrix_of`].
pub proof fn lemma_matrix_of(n: nat, f: spec_fn(int, int) -> i32)
    ensures
        matrix_of(n, f).len() == n * n,
        forall|i: int, j: int|
            #![trigger cell(matrix_of(n, f), n, i, j)]
            in_range(n, i, j) ==> cell(matrix_of(n, f), n, i, j) == f(i, j),
{
    assert forall|i: int, j: int|
        #![trigger cell(matrix_of(n, f), n, i, j)]
        in_range(n, i, j) implies cell(matrix_of(n, f), n, i, j) == f(i, j) by {
        lemma_cell_index(n, i, j);
        lemma_fundamental_div_mod_converse(i * n + j, n as int, i, j);
    }
}

/// Two `n x n` matrices with the same entries are equal.
pub proof fn lemma_matrix_ext(n: nat, m1: Seq<i32>, m2: Seq<i32>)
    requires
        m1.len() == n * n,
        m2.len() == n * n,
        forall|i: int, j: int|
            #![trigger cell(m1, n, i, j)]
            in_range(n, i, j) ==> cell(m1, n, i, j) == cell(m2, n, i, j),
    ensures
        m1 == m2,
{
    assert forall|x: int| 0 <= x < m1.len() implies m1[x] == m2[x] by {
        lemma_cell_decompose(n, x);
        let i = x / (n as int);
        let j = x % (n as int);
        assert(cell(m1, n, i, j) == cell(m2, n, i, j));
    }
    assert(m1 =~= m2);
}

/// Writing one entry leaves every other entry unchanged.
pub proof fn lemma_update_cell(m: Seq<i32>, n: nat, i: int, j: int, v: i32)
    requires
        m.len() == n * n,
        in_range(n, i, j),
    ensures
        m.update(i * n + j, v).len() == n * n,
        forall|a: int, b: int|
            #![trigger cell(m.update(i * n + j, v), n, a, b)]
            in_range(n, a, b) ==> cell(m.update(i * n + j, v), n, a, b) == if a == i && b == j {
                v
            } else {
                cell(m, n, a, b)
            },
{
    lemma_cell_index(n, i, j);
    assert forall|a: int, b: int|
        #![trigger cell(m.update(i * n + j, v), n, a, b)]
        in_range(n, a, b) implies cell(m.update(i * n + j, v), n, a, b) == if a == i && b == j {
            v
        } else {
            cell(m, n, a, b)
        } by {
        lemma_cell_index(n, a, b);
        if !(a == i && b == j) && a * n + b == i * n + j {
            lemma_cell_index_inj(n, a, b, i, j);
        }
    }
}

fn safe_add_bound(lhs: i32, rhs: i32) -> (r: i32)
    ensures
        r == bound_add(lhs, rhs),
{
    if lhs == INF_TIME || rhs == INF_TIME {
        return INF_TIME;
    }
    if (rhs > 0 && lhs > i32::MAX - rhs) || (rhs < 0 && lhs < i32::MIN - rhs) {
        return if rhs > 0 {
            INF_TIME
        } else {
            i32::MIN
        };
    }
    lhs + rhs
}

fn dbm_offset(clock_count: usize, i: usize, j: usize) -> (r: usize)
    requires
        in_range(clock_count as nat, i as int, j as int),
        clock_count * clock_count <= usize::MAX,
    ensures
        r == i * clock_count + j,
        r < clock_count * clock_count,
{
    proof {
        lemma_cell_index(clock_count as nat, i as int, j as int);
    }
    i * clock_count + j
}

// ---------------------------------------------------------------------------
// The zone
// ---------------------------------------------------------------------------

/// A clock zone: an `n x n` difference bound matrix plus the set of frozen
/// clocks (clocks that do not advance when time elapses).
#[derive(Debug)]
pub struct DBM {
    matrix: Vec<i32>,
    clock_count: usize,
    /// Sorted, unique frozen clock indices.
    frozen_clocks: Vec<usize>,
}

impl Clone for DBM {
    fn clone(&self) -> (r: Self)
        ensures
            r.dim() == self.dim(),
            r.m() == self.m(),
            r.frozen() == self.frozen(),
    {
        DBM { matrix: self.matrix.clone(), clock_count: self.clock_count, frozen_clocks: self.frozen_clocks.clone() }
    }
}

impl DBM {
    /// The number of clocks, including the reference clock.
    pub closed spec fn dim(&self) -> nat {
        self.clock_count as nat
    }

    /// The bounds, row-major.
    pub closed spec fn m(&self) -> Seq<i32> {
        self.matrix@
    }

    /// The frozen clocks, in increasing order.
    pub closed spec fn frozen(&self) -> Seq<usize> {
        self.frozen_clocks@
    }

    /// Bound `(i, j)`: the zone satisfies `x_i - x_j <= self.bound(i, j)`.
    pub open spec fn bound(&self, i: int, j: int) -> i32 {
        cell(self.m(), self.dim(), i, j)
    }

    /// Well-formedness: a full `n x n` matrix whose size fits in memory, and
    /// a strictly increasing list of frozen clocks, which never holds the
    /// reference clock 0.
    pub open spec fn wf(&self) -> bool {
        &&& self.m().len() == self.dim() * self.dim()
        &&& self.dim() * self.dim() <= usize::MAX
        &&& strictly_sorted(self.frozen())
        &&& !self.frozen().contains(0usize)
    }

    /// Creates the zone over `size` clocks in which every clock is
    /// non-negative and otherwise unconstrained.
    pub fn new(size: usize) -> (d: DBM)
        requires
            size * size <= usize::MAX,
        ensures
            d.wf(),
            d.dim() == size,
            d.frozen() == Seq::<usize>::empty(),
            forall|i: int, j: int|
                #![trigger d.bound(i, j)]
                in_range(size as nat, i, j) ==> d.bound(i, j) == init_cell(i, j),
    {
        let total = size * size;
        let mut matrix: Vec<i32> = Vec::new();
        while matrix.len() < total
            invariant
                matrix.len() <= total,
                total == size * size,
                forall|x: int| 0 <= x < matrix.len() ==> matrix@[x] == INF_TIME,
            decreases total - matrix.len(),
        {
            matrix.push(INF_TIME);
        }
        let ghost n = size as nat;
        assert forall|a: int, b: int|
            #![trigger cell(matrix@, n, a, b)]
            in_range(n, a, b) implies cell(matrix@, n, a, b) == INF_TIME by {
            lemma_cell_index(n, a, b);
        }
        for i in 0..size
            invariant
                matrix@.len() == n * n,
                n * n <= usize::MAX,
                n == size,
                forall|a: int, b: int|
                    #![trigger cell(matrix@, n, a, b)]
                    in_range(n, a, b) ==> cell(matrix@, n, a, b) == if a == b && a < i {
                        0
                    } else {
                        INF_TIME
                    },
        {
            let idx = dbm_offset(size, i, i);
            proof {
                lemma_update_cell(matrix@, n, i as int, i as int, 0);
            }
            matrix.set(idx, 0);
        }
        if size > 1 {
            for i in 1..size
                invariant
                    matrix@.len() == n * n,
                    n * n <= usize::MAX,
                    n == size,
                    size > 1,
                    forall|a: int, b: int|
                        #![trigger cell(matrix@, n, a, b)]
                        in_range(n, a, b) ==> cell(matrix@, n, a, b) == if a == b {
                            0
                        } else if a == 0 && b < i {
                            0
                        } else {
                            INF_TIME
                        },
            {
                let lower = dbm_offset(size, i, 0);
                proof {
                    lemma_update_cell(matrix@, n, i as int, 0, INF_TIME);
                }
                matrix.set(lower, INF_TIME);
                let upper = dbm_offset(size, 0, i);
                proof {
                    lemma_update_cell(matrix@, n, 0, i as int, 0);
                }
                matrix.set(upper, 0);
            }
        }
        let d = DBM { matrix, clock_count: size, frozen_clocks: Vec::new() };
        assert forall|i: int, j: int|
            #![trigger d.bound(i, j)]
            in_range(size as nat, i, j) implies d.bound(i, j) == init_cell(i, j) by {
            assert(cell(d.matrix@, n, i, j) == init_cell(i, j));
        }
        d
    }

    /// The number of clocks, including the reference clock.
    pub fn size(&self) -> (r: usize)
        ensures
            r == self.dim(),
    {
        self.clock_count
    }

    /// Overwrites bound `(i, j)`.
    pub fn set_constraint(&mut self, i: usize, j: usize, bound: i32)
        requires
            old(self).wf(),
            in_range(old(self).dim(), i as int, j as int),
        ensures
            final(self).wf(),
            final(self).dim() == old(self).dim(),
            final(self).frozen() == old(self).frozen(),
            final(self).m() == old(self).m().update(i * old(self).dim() + j, bound),
            forall|a: int, b: int|
                #![trigger final(self).bound(a, b)]
                in_range(old(self).dim(), a, b) ==> final(self).bound(a, b) == if a == i && b == j {
                    bound
                } else {
                    old(self).bound(a, b)
                },
    {
        let idx = dbm_offset(self.clock_count, i, j);
        proof {
            lemma_update_cell(self.matrix@, self.clock_count as nat, i as int, j as int, bound);
        }
        self.matrix.set(idx, bound);
    }

    /// Reads bound `(i, j)`.
    pub fn get_constraint(&self, i: usize, j: usize) -> (r: i32)
        requires
            self.wf(),
            in_range(self.dim(), i as int, j as int),
        ensures
            r == self.bound(i as int, j as int),
    {
        self.matrix[dbm_offset(self.clock_count, i, j)]
    }

    /// Floyd–Warshall all-pairs shortest path closure.
    pub fn minimize(&mut self)
        requires
            old(self).wf(),
        ensures
            final(self).wf(),
            final(self).dim() == old(self).dim(),
            final(self).frozen() == old(self).frozen(),
            final(self).m() == closure(old(self).m(), old(self).dim()),
    {
        if self.clock_count == 0 {
            return;
        }
        let n = self.clock_count;
        let ghost nn = n as nat;
        let ghost m0 = self.matrix@;
        for k in 0..n
            invariant
                self.wf(),
                self.clock_count == n,
                nn == n,
                self.frozen_clocks@ == old(self).frozen_clocks@,
                self.matrix@ == closure_upto(m0, nn, k as nat),
        {
            let ghost mk = self.matrix@;
            for i in 0..n
                invariant
                    self.wf(),
                    self.clock_count == n,
                    nn == n,
                    0 <= k < n,
                    self.frozen_clocks@ == old(self).frozen_clocks@,
                    self.matrix@ == relax_rows(mk, nn, k as int, i as nat),
            {
                let ik = dbm_offset(n, i, k);
                if self.matrix[ik] == INF_TIME {
                    proof {
                        lemma_relax_row_skip(self.matrix@, nn, k as int, i as int, nn);
                    }
                } else {
                    self.relax_row_through(k, i);
                }
            }
        }
    }

    /// Relaxes every entry of row `i` through clock `k`.
    fn relax_row_through(&mut self, k: usize, i: usize)
        requires
            old(self).wf(),
            in_range(old(self).dim(), i as int, k as int),
        ensures
            final(self).wf(),
            final(self).dim() == old(self).dim(),
            final(self).frozen() == old(self).frozen(),
            final(self).m() == relax_row(old(self).m(), old(self).dim(), k as int, i as int, old(self).dim()),
    {
                let n = self.clock_count;
                let ghost nn = n as nat;
                let ik = dbm_offset(n, i, k);
                let ghost mi = self.matrix@;
                for j in 0..n
                    invariant
                        self.wf(),
                        self.clock_count == n,
                        nn == n,
                        0 <= k < n,
                        0 <= i < n,
                        ik == i * n + k,
                        ik < n * n,
                        self.frozen_clocks@ == old(self).frozen_clocks@,
                        self.matrix@ == relax_row(mi, nn, k as int, i as int, j as nat),
                {
                    let kj = dbm_offset(n, k, j);
                    if self.matrix[kj] != INF_TIME {
                        let new_bound = safe_add_bound(self.matrix[ik], self.matrix[kj]);
                        let ij = dbm_offset(n, i, j);
                        if self.matrix[ij] == INF_TIME || new_bound < self.matrix[ij] {
                            self.matrix.set(ij, new_bound);
                        }
                    }
                }
    }
}

impl DBM {
    fn duplicate(&self) -> (r: DBM)
        requires
            self.wf(),
        ensures
            r.wf(),
            r.dim() == self.dim(),
            r.m() == self.m(),
            r.frozen() == self.frozen(),
    {
        DBM {
            matrix: copy_vec(&self.matrix),
            clock_count: self.clock_count,
            frozen_clocks: copy_vec(&self.frozen_clocks),
        }
    }

    fn diagonal_nonnegative(&self) -> (r: bool)
        requires
            self.wf(),
        ensures
            r == diagonal_ok(self.m(), self.dim()),
    {
        let n = self.clock_count;
        for i in 0..n
            invariant
                self.wf(),
                n == self.dim(),
                forall|a: int| 0 <= a < i ==> #[trigger] cell(self.m(), self.dim(), a, a) >= 0,
        {
            if self.matrix[dbm_offset(n, i, i)] < 0 {
                assert(cell(self.m(), self.dim(), i as int, i as int) < 0);
                return false;
            }
        }
        true
    }

    /// Whether the zone is non-empty: no diagonal entry is negative, neither
    /// in the matrix as stored nor in its shortest-path closure.
    pub fn is_consistent(&self) -> (r: bool)
        requires
            self.wf(),
        ensures
            r == (diagonal_ok(self.m(), self.dim()) && diagonal_ok(
                closure(self.m(), self.dim()),
                self.dim(),
            )),
    {
        if self.clock_count == 0 {
            return true;
        }
        if !self.diagonal_nonnegative() {
            return false;
        }
        let mut temp = self.duplicate();
        temp.minimize();
        temp.diagonal_nonnegative()
    }

    /// Closes the matrix and reports whether the zone is non-empty.
    pub fn minimize_and_check(&mut self) -> (r: bool)
        requires
            old(self).wf(),
        ensures
            final(self).wf(),
            final(self).dim() == old(self).dim(),
            final(self).frozen() == old(self).frozen(),
            final(self).m() == closure(old(self).m(), old(self).dim()),
            r == diagonal_ok(final(self).m(), final(self).dim()),
    {
        self.minimize();
        self.diagonal_nonnegative()
    }

    /// Whether the zone is empty (the negation of [`DBM::is_consistent`]).
    pub fn is_empty(&self) -> (r: bool)
        requires
            self.wf(),
        ensures
            r == !(diagonal_ok(self.m(), self.dim()) && diagonal_ok(
                closure(self.m(), self.dim()),
                self.dim(),
            )),
    {
        !self.is_consistent()
    }

    /// Brings the matrix to its closed form.
    pub fn prune(&mut self)
        requires
            old(self).wf(),
        ensures
            final(self).wf(),
            final(self).dim() == old(self).dim(),
            final(self).frozen() == old(self).frozen(),
            final(self).m() == closure(old(self).m(), old(self).dim()),
    {
        self.minimize();
    }

    /// The bounds, row-major.
    pub fn raw_matrix(&self) -> (r: &[i32])
        ensures
            r@ == self.m(),
    {
        self.matrix.as_slice()
    }

    /// The frozen clocks, in increasing order.
    pub fn frozen_clocks(&self) -> (r: &[usize])
        ensures
            r@ == self.frozen(),
    {
        self.frozen_clocks.as_slice()
    }

    /// Element-wise minimum of two zones over the same clocks, then closure.
    /// The result has no frozen clocks.
    pub fn intersection(&self, other: &DBM) -> (r: DBM)
        requires
            self.wf(),
            other.wf(),
            self.dim() == other.dim(),
        ensures
            r.wf(),
            r.dim() == self.dim(),
            r.frozen() == Seq::<usize>::empty(),
            r.m() == closure(meet(self.m(), other.m(), self.dim()), self.dim()),
    {
        let n = self.clock_count;
        let ghost nn = n as nat;
        let mut result = DBM::new(n);
        for i in 0..n
            invariant
                result.wf(),
                self.wf(),
                other.wf(),
                result.dim() == nn,
                self.dim() == nn,
                other.dim() == nn,
                nn == n,
                result.frozen() == Seq::<usize>::empty(),
                forall|a: int, b: int|
                    #![trigger cell(result.m(), nn, a, b)]
                    in_range(nn, a, b) && a < i ==> cell(result.m(), nn, a, b) == min_bound(
                        cell(self.m(), nn, a, b),
                        cell(other.m(), nn, a, b),
                    ),
        {
            for j in 0..n
                invariant
                    result.wf(),
                    self.wf(),
                    other.wf(),
                    result.dim() == nn,
                    self.dim() == nn,
                    other.dim() == nn,
                    nn == n,
                    0 <= i < n,
                    result.frozen() == Seq::<usize>::empty(),
                    forall|a: int, b: int|
                        #![trigger cell(result.m(), nn, a, b)]
                        in_range(nn, a, b) && (a < i || (a == i && b < j)) ==> cell(
                            result.m(),
                            nn,
                            a,
                            b,
                        ) == min_bound(cell(self.m(), nn, a, b), cell(other.m(), nn, a, b)),
            {
                let b1 = self.matrix[dbm_offset(n, i, j)];
                let b2 = other.matrix[dbm_offset(n, i, j)];
                let idx = dbm_offset(n, i, j);
                let v = if b1 == INF_TIME {
                    b2
                } else if b2 == INF_TIME {
                    b1
                } else if b1 <= b2 {
                    b1
                } else {
                    b2
                };
                proof {
                    lemma_update_cell(result.m(), nn, i as int, j as int, v);
                }
                result.matrix.set(idx, v);
            }
        }
        proof {
            lemma_matrix_of(nn, |a: int, b: int| min_bound(cell(self.m(), nn, a, b), cell(other.m(), nn, a, b)));
            lemma_matrix_ext(nn, result.m(), meet(self.m(), other.m(), nn));
        }
        result.minimize();
        result
    }

    /// Whether `other` is a subset of `self` (this zone contains the other
    /// zone): same clocks, every bound of `other` at least as tight as the
    /// corresponding bound of `self`, and the same frozen clocks.
    pub fn contains(&self, other: &DBM) -> (r: bool)
        requires
            self.wf(),
            other.wf(),
        ensures
            r == (self.dim() == other.dim() && bounds_within(other, self) && self.frozen()
                == other.frozen()),
    {
        if self.clock_count != other.clock_count {
            return false;
        }
        let n = self.clock_count;
        for i in 0..n
            invariant
                self.wf(),
                other.wf(),
                n == self.dim(),
                n == other.dim(),
                forall|a: int, b: int|
                    #![trigger other.bound(a, b)]
                    in_range(self.dim(), a, b) && a < i ==> tighter_or_equal(other.bound(a, b), self.bound(a, b)),
        {
            for j in 0..n
                invariant
                    self.wf(),
                    other.wf(),
                    n == self.dim(),
                    n == other.dim(),
                    0 <= i < n,
                    forall|a: int, b: int|
                        #![trigger other.bound(a, b)]
                        in_range(self.dim(), a, b) && (a < i || (a == i && b < j)) ==> tighter_or_equal(
                            other.bound(a, b),
                            self.bound(a, b),
                        ),
            {
                let this_bound = self.matrix[dbm_offset(n, i, j)];
                let other_bound = other.matrix[dbm_offset(n, i, j)];
                if this_bound != INF_TIME && (other_bound == INF_TIME || other_bound > this_bound) {
                    assert(!tighter_or_equal(other.bound(i as int, j as int), self.bound(i as int, j as int)));
                    return false;
                }
            }
        }
        let same = self.frozen_clocks == other.frozen_clocks;
        proof {
            if same {
                assert(self.frozen_clocks@ =~= other.frozen_clocks@);
            }
        }
        same
    }

    /// Whether this zone is a subset of `other`: same clocks and every bound
    /// at least as tight as the corresponding bound of `other` (a sound
    /// inclusion test when both matrices are closed).
    pub fn included_in(&self, other: &DBM) -> (r: bool)
        requires
            self.wf(),
            other.wf(),
        ensures
            r == (self.dim() == other.dim() && bounds_within(self, other)),
    {
        if self.clock_count != other.clock_count {
            return false;
        }
        let n = self.clock_count;
        for i in 0..n
            invariant
                self.wf(),
                other.wf(),
                n == self.dim(),
                n == other.dim(),
                forall|a: int, b: int|
                    #![trigger self.bound(a, b)]
                    in_range(self.dim(), a, b) && a < i ==> tighter_or_equal(self.bound(a, b), other.bound(a, b)),
        {
            for j in 0..n
                invariant
                    self.wf(),
                    other.wf(),
                    n == self.dim(),
                    n == other.dim(),
                    0 <= i < n,
                    forall|a: int, b: int|
                        #![trigger self.bound(a, b)]
                        in_range(self.dim(), a, b) && (a < i || (a == i && b < j)) ==> tighter_or_equal(
                            self.bound(a, b),
                            other.bound(a, b),
                        ),
            {
                let this_bound = self.matrix[dbm_offset(n, i, j)];
                let other_bound = other.matrix[dbm_offset(n, i, j)];
                if other_bound != INF_TIME {
                    if this_bound == INF_TIME || this_bound > other_bound {
                        assert(!tighter_or_equal(self.bound(i as int, j as int), other.bound(i as int, j as int)));
                        return false;
                    }
                }
            }
        }
        true
    }

    /// Tightens the upper bound of clock `clock_idx` to `beta` when that is
    /// stricter than its current finite upper bound, then closes the matrix.
    pub fn constrain_upper_bound(&mut self, clock_idx: usize, beta: i32)
        requires
            old(self).wf(),
        ensures
            final(self).wf(),
            final(self).dim() == old(self).dim(),
            final(self).frozen() == old(self).frozen(),
            final(self).m() == if clock_idx < old(self).dim() && beta != INF_TIME && old(self).bound(
                clock_idx as int,
                0,
            ) != INF_TIME && beta < old(self).bound(clock_idx as int, 0) {
                closure(old(self).m().update(clock_idx * old(self).dim(), beta), old(self).dim())
            } else {
                old(self).m()
            },
    {
        if clock_idx >= self.clock_count || beta == INF_TIME {
            return;
        }
        let idx = dbm_offset(self.clock_count, clock_idx, 0);
        let current_upper = self.matrix[idx];
        if current_upper != INF_TIME && beta < current_upper {
            self.matrix.set(idx, beta);
            self.minimize();
        }
    }
}

impl DBM {
    /// Binary search of `clock_idx` among the frozen clocks: whether it is
    /// there, and the position where it is or would be inserted.
    fn search_frozen(&self, clock_idx: usize) -> (r: (bool, usize))
        requires
            strictly_sorted(self.frozen()),
        ensures
            r.1 <= self.frozen().len(),
            forall|a: int| 0 <= a < r.1 ==> self.frozen()[a] < clock_idx,
            forall|a: int| r.1 <= a < self.frozen().len() ==> self.frozen()[a] >= clock_idx,
            r.0 == (r.1 < self.frozen().len() && self.frozen()[r.1 as int] == clock_idx),
            r.0 == self.frozen().contains(clock_idx),
    {
        let mut lo: usize = 0;
        let mut hi: usize = self.frozen_clocks.len();
        while lo < hi
            invariant
                lo <= hi <= self.frozen().len(),
                strictly_sorted(self.frozen()),
                self.frozen_clocks@ == self.frozen(),
                forall|a: int| 0 <= a < lo ==> self.frozen()[a] < clock_idx,
                forall|a: int| hi <= a < self.frozen().len() ==> self.frozen()[a] >= clock_idx,
            decreases hi - lo,
        {
            let mid = lo + (hi - lo) / 2;
            if self.frozen_clocks[mid] < clock_idx {
                lo = mid + 1;
            } else {
                hi = mid;
            }
        }
        let found = lo < self.frozen_clocks.len() && self.frozen_clocks[lo] == clock_idx;
        proof {
            if !found && self.frozen().contains(clock_idx) {
                let w = choose|w: int| 0 <= w < self.frozen().len() && self.frozen()[w] == clock_idx;
                if w > lo as int {
                    assert(self.frozen()[lo as int] < self.frozen()[w]);
                }
            }
        }
        (found, lo)
    }

    /// Whether `clock_idx` is frozen.
    pub fn is_frozen(&self, clock_idx: usize) -> (r: bool)
        requires
            self.wf(),
        ensures
            r == self.frozen().contains(clock_idx),
    {
        self.search_frozen(clock_idx).0
    }

    /// Freezes clock `clock_idx` (the reference clock and clocks outside the
    /// zone are ignored).
    pub fn freeze_clock(&mut self, clock_idx: usize)
        requires
            old(self).wf(),
        ensures
            final(self).wf(),
            final(self).dim() == old(self).dim(),
            final(self).m() == old(self).m(),
            forall|x: usize| #[trigger]
                final(self).frozen().contains(x) == (old(self).frozen().contains(x) || (x
                    == clock_idx && 0 < clock_idx < old(self).dim())),
    {
        if clock_idx >= self.clock_count || clock_idx == 0 {
            return;
        }
        let (found, pos) = self.search_frozen(clock_idx);
        if !found {
            let ghost f0 = self.frozen_clocks@;
            self.frozen_clocks.insert(pos, clock_idx);
            proof {
                let f1 = self.frozen_clocks@;
                assert(f1 == f0.insert(pos as int, clock_idx));
                assert forall|a: int, b: int| 0 <= a < b < f1.len() implies f1[a] < f1[b] by {
                    if b < pos {
                    } else if b == pos {
                    } else if a < pos {
                    } else if a == pos {
                        assert(f1[b] == f0[b - 1]);
                        assert(f0[b - 1] >= clock_idx);
                        assert(f0[b - 1] != clock_idx);
                    } else {
                    }
                }
                assert forall|x: usize| #[trigger]
                    f1.contains(x) == (f0.contains(x) || x == clock_idx) by {
                    if f1.contains(x) {
                        let w = choose|w: int| 0 <= w < f1.len() && f1[w] == x;
                        if w < pos {
                            assert(f0[w] == x);
                        } else if w > pos {
                            assert(f0[w - 1] == x);
                        }
                    }
                    if f0.contains(x) {
                        let w = choose|w: int| 0 <= w < f0.len() && f0[w] == x;
                        if w < pos {
                            assert(f1[w] == x);
                        } else {
                            assert(f1[w + 1] == x);
                        }
                    }
                    if x == clock_idx {
                        assert(f1[pos as int] == x);
                    }
                }
            }
        }
    }

    /// Unfreezes clock `clock_idx`.
    pub fn unfreeze_clock(&mut self, clock_idx: usize)
        requires
            old(self).wf(),
        ensures
            final(self).wf(),
            final(self).dim() == old(self).dim(),
            final(self).m() == old(self).m(),
            forall|x: usize| #[trigger]
                final(self).frozen().contains(x) == (old(self).frozen().contains(x) && x
                    != clock_idx),
    {
        let (found, pos) = self.search_frozen(clock_idx);
        if found {
            let ghost f0 = self.frozen_clocks@;
            self.frozen_clocks.remove(pos);
            proof {
                let f1 = self.frozen_clocks@;
                assert(f1 == f0.remove(pos as int));
                assert forall|a: int, b: int| 0 <= a < b < f1.len() implies f1[a] < f1[b] by {
                    if a < pos && b >= pos {
                        assert(f1[b] == f0[b + 1]);
                    }
                }
                assert forall|x: usize| #[trigger]
                    f1.contains(x) == (f0.contains(x) && x != clock_idx) by {
                    if f1.contains(x) {
                        let w = choose|w: int| 0 <= w < f1.len() && f1[w] == x;
                        if w < pos {
                            assert(f0[w] == x);
                        } else {
                            assert(f0[w + 1] == x);
                            assert(f0[pos as int] < f0[w + 1]);
                        }
                    }
                    if f0.contains(x) && x != clock_idx {
                        let w = choose|w: int| 0 <= w < f0.len() && f0[w] == x;
                        if w < pos {
                            assert(f1[w] == x);
                        } else {
                            assert(w != pos);
                            assert(f1[w - 1] == x);
                        }
                    }
                }
            }
        } else {
            proof {
                assert forall|x: usize| #[trigger]
                    self.frozen().contains(x) == (old(self).frozen().contains(x) && x != clock_idx) by {
                }
            }
        }
    }
}

// ---------------------------------------------------------------------------
// Entry-wise passes of the zone operations
// ---------------------------------------------------------------------------

/// Entry of the matrix after letting `delta` time units elapse: the upper
/// bound `(i, 0)` of every running clock grows by `delta`, its lower bound
/// `(0, i)` shrinks by `delta` (infinite bounds stay infinite).
pub open spec fn elapse_cell(m: Seq<i32>, n: nat, frozen: Seq<usize>, delta: i32, i: int, j: int) -> i32 {
    if 1 <= i && j == 0 && !frozen.contains(i as usize) && cell(m, n, i, 0) != INF_TIME {
        bound_add(cell(m, n, i, 0), delta)
    } else if i == 0 && 1 <= j && !frozen.contains(j as usize) && cell(m, n, 0, j) != INF_TIME {
        bound_add(cell(m, n, 0, j), (0 - delta) as i32)
    } else {
        cell(m, n, i, j)
    }
}

/// Whether clock `i` is a running clock with a finite upper or lower bound.
pub open spec fn elapse_moves(m: Seq<i32>, n: nat, frozen: Seq<usize>) -> spec_fn(int) -> bool {
    |i: int|
        1 <= i && !frozen.contains(i as usize) && (cell(m, n, i, 0) != INF_TIME || cell(m, n, 0, i)
            != INF_TIME)
}

/// Whether some running clock has a finite upper or lower bound.
pub open spec fn elapse_changes(m: Seq<i32>, n: nat, frozen: Seq<usize>) -> bool {
    exists_below(elapse_moves(m, n, frozen), n as int)
}

/// The matrix after the elapse pass (before closure).
pub open spec fn elapse_pass(m: Seq<i32>, n: nat, frozen: Seq<usize>, delta: i32) -> Seq<i32> {
    matrix_of(n, |i: int, j: int| elapse_cell(m, n, frozen, delta, i, j))
}

/// Entry of the matrix after releasing the lower bounds of running clocks.
pub open spec fn future_cell(m: Seq<i32>, n: nat, frozen: Seq<usize>, i: int, j: int) -> i32 {
    if j == 0 && 1 <= i && !frozen.contains(i as usize) {
        INF_TIME
    } else {
        cell(m, n, i, j)
    }
}

/// Whether clock `j` is a running clock with a finite upper bound.
pub open spec fn future_moves(m: Seq<i32>, n: nat, frozen: Seq<usize>) -> spec_fn(int) -> bool {
    |j: int| 1 <= j && !frozen.contains(j as usize) && cell(m, n, j, 0) != INF_TIME
}

/// Whether some running clock has a finite upper bound.
pub open spec fn future_changes(m: Seq<i32>, n: nat, frozen: Seq<usize>) -> bool {
    exists_below(future_moves(m, n, frozen), n as int)
}

/// The matrix after the future pass (before closure).
pub open spec fn future_pass(m: Seq<i32>, n: nat, frozen: Seq<usize>) -> Seq<i32> {
    matrix_of(n, |i: int, j: int| future_cell(m, n, frozen, i, j))
}

/// Entry after k-extrapolation: finite bounds between two distinct running
/// clocks above `k` become infinite, those below `-k` become `-k`.
pub open spec fn extrapolate_cell(m: Seq<i32>, n: nat, frozen: Seq<usize>, k: i32, i: int, j: int) -> i32 {
    let b = cell(m, n, i, j);
    if i != j && !frozen.contains(i as usize) && !frozen.contains(j as usize) && b != INF_TIME {
        if b > k {
            INF_TIME
        } else if b < -k {
            (0 - k) as i32
        } else {
            b
        }
    } else {
        b
    }
}

/// Whether extrapolation alters entry `(i, j)`, as a predicate of `j`.
pub open spec fn extrapolate_moves(m: Seq<i32>, n: nat, frozen: Seq<usize>, k: i32, i: int) -> spec_fn(
    int,
) -> bool {
    |j: int| extrapolate_cell(m, n, frozen, k, i, j) != cell(m, n, i, j)
}

/// Whether extrapolation alters some entry of row `i`, as a predicate of `i`.
pub open spec fn extrapolate_row_moves(m: Seq<i32>, n: nat, frozen: Seq<usize>, k: i32) -> spec_fn(
    int,
) -> bool {
    |i: int| exists_below(extrapolate_moves(m, n, frozen, k, i), n as int)
}

/// Whether extrapolation alters some entry.
pub open spec fn extrapolate_changes(m: Seq<i32>, n: nat, frozen: Seq<usize>, k: i32) -> bool {
    exists_below(extrapolate_row_moves(m, n, frozen, k), n as int)
}

/// The matrix after the extrapolation pass (before closure).
pub open spec fn extrapolate_pass(m: Seq<i32>, n: nat, frozen: Seq<usize>, k: i32) -> Seq<i32> {
    matrix_of(n, |i: int, j: int| extrapolate_cell(m, n, frozen, k, i, j))
}

/// Entry after resetting clock `c` to zero: row `c` copies row 0, column `c`
/// copies column 0, and `(c, c)` is zero.
pub open spec fn reset_cell(m: Seq<i32>, n: nat, c: int, i: int, j: int) -> i32 {
    if i == c && j == c {
        0
    } else if i == c {
        cell(m, n, 0, j)
    } else if j == c {
        cell(m, n, i, 0)
    } else {
        cell(m, n, i, j)
    }
}

/// The matrix after the reset pass (before closure).
pub open spec fn reset_pass(m: Seq<i32>, n: nat, c: int) -> Seq<i32> {
    matrix_of(n, |i: int, j: int| reset_cell(m, n, c, i, j))
}

/// Whether position `x` of row or column `c` differs from row or column 0.
pub open spec fn reset_moves(m: Seq<i32>, n: nat, c: int) -> spec_fn(int) -> bool {
    |x: int| x != c && (cell(m, n, 0, x) != cell(m, n, c, x) || cell(m, n, x, 0) != cell(m, n, x, c))
}

/// Whether the reset closes the matrix: the reset pass alters row or column
/// `c`, or the reference clock's own bound is not zero.
pub open spec fn reset_changes(m: Seq<i32>, n: nat, c: int) -> bool {
    cell(m, n, 0, 0) != 0 || cell(m, n, c, c) != 0 || exists_below(reset_moves(m, n, c), n as int)
}

/// Entry after forgetting clock `c`: every bound involving `c` becomes
/// infinite except its lower bound and its diagonal, which become zero.
pub open spec fn forget_cell(m: Seq<i32>, n: nat, c: int, i: int, j: int) -> i32 {
    if (i == c && j == c) || (i == 0 && j == c) {
        0
    } else if i == c || j == c {
        INF_TIME
    } else {
        cell(m, n, i, j)
    }
}

/// The matrix after the forget pass (before closure).
pub open spec fn forget_pass(m: Seq<i32>, n: nat, c: int) -> Seq<i32> {
    matrix_of(n, |i: int, j: int| forget_cell(m, n, c, i, j))
}

/// Entry after resizing an `old_n x old_n` matrix: surviving positions keep
/// their bounds, new positions start as in a fresh zone.
pub open spec fn resize_cell(m: Seq<i32>, old_n: nat, i: int, j: int) -> i32 {
    if i < old_n && j < old_n {
        cell(m, old_n, i, j)
    } else {
        init_cell(i, j)
    }
}

/// The position in the old matrix of position `x` of a matrix from which
/// clock `c` was removed.
pub open spec fn skip_index(c: int, x: int) -> int {
    if x < c {
        x
    } else {
        x + 1
    }
}

/// The index that clock `x` takes once clock `c` is removed.
pub open spec fn shift_down(c: usize, x: usize) -> usize {
    if x < c {
        x
    } else {
        (x - 1) as usize
    }
}

/// The matrix after narrowing clock `c` to `[alpha, beta]`, before closure.
pub open spec fn restrict_pass(m: Seq<i32>, n: nat, c: int, alpha: i32, beta: i32) -> Seq<i32> {
    let m1 = if alpha > -cell(m, n, 0, c) {
        m.update(0 * n + c, (0 - alpha) as i32)
    } else {
        m
    };
    let upper = cell(m1, n, c, 0);
    if beta != INF_TIME && (upper == INF_TIME || beta < upper) {
        m1.update(c * n + 0, beta)
    } else {
        m1
    }
}

/// Improving `(a, b)` through the path `a -> i -> j -> b` whose first two
/// legs cost `via`.
pub open spec fn tighten_cell(m: Seq<i32>, n: nat, j: int, a: int, via: i32, b: int) -> Seq<i32> {
    let jb = cell(m, n, j, b);
    let ab = cell(m, n, a, b);
    if jb == INF_TIME {
        m
    } else if ab == INF_TIME || bound_add(via, jb) < ab {
        m.update(a * n + b, bound_add(via, jb))
    } else {
        m
    }
}

/// [`tighten_cell`] over the first `b` entries of row `a`.
pub open spec fn tighten_row(m: Seq<i32>, n: nat, j: int, a: int, via: i32, b: nat) -> Seq<i32>
    decreases b,
{
    if b == 0 {
        m
    } else {
        tighten_cell(tighten_row(m, n, j, a, via, (b - 1) as nat), n, j, a, via, b - 1)
    }
}

/// The incremental re-closure after tightening `(i, j)` to `bound`, over the
/// first `a` rows.
pub open spec fn tighten_rows(m: Seq<i32>, n: nat, i: int, j: int, bound: i32, a: nat) -> Seq<i32>
    decreases a,
{
    if a == 0 {
        m
    } else {
        let m1 = tighten_rows(m, n, i, j, bound, (a - 1) as nat);
        let ai = cell(m1, n, a - 1, i);
        if ai == INF_TIME || bound_add(ai, bound) == INF_TIME {
            m1
        } else {
            tighten_row(m1, n, j, a - 1, bound_add(ai, bound), n)
        }
    }
}

/// The matrix after tightening `(i, j)` to `bound` on a closed matrix.
pub open spec fn tighten_matrix(m: Seq<i32>, n: nat, i: int, j: int, bound: i32) -> Seq<i32> {
    let ij = cell(m, n, i, j);
    if ij != INF_TIME && ij <= bound {
        m
    } else {
        let m1 = m.update(i * n + j, bound);
        let ji = cell(m1, n, j, i);
        if ji != INF_TIME && bound_add(bound, ji) < 0 {
            m1.update(i * n + i, bound_add(bound, ji))
        } else {
            tighten_rows(m1, n, i, j, bound, n)
        }
    }
}

/// Whether the zone stays non-empty after the tightening.
pub open spec fn tighten_ok(m: Seq<i32>, n: nat, i: int, j: int, bound: i32) -> bool {
    let ij = cell(m, n, i, j);
    if ij != INF_TIME && ij <= bound {
        true
    } else {
        let m1 = m.update(i * n + j, bound);
        let ji = cell(m1, n, j, i);
        if ji != INF_TIME && bound_add(bound, ji) < 0 {
            false
        } else {
            diagonal_ok(tighten_rows(m1, n, i, j, bound, n), n)
        }
    }
}

impl DBM {
    /// Lets `delta` time units elapse for every running (unfrozen) clock,
    /// then closes the matrix if some bound moved.
    #[verifier::spinoff_prover]
    #[verifier::rlimit(40)]
    pub fn elapse_time(&mut self, delta: i32)
        requires
            old(self).wf(),
        ensures
            final(self).wf(),
            final(self).dim() == old(self).dim(),
            final(self).frozen() == old(self).frozen(),
            final(self).m() == if delta <= 0 || !elapse_changes(
                old(self).m(),
                old(self).dim(),
                old(self).frozen(),
            ) {
                old(self).m()
            } else {
                closure(
                    elapse_pass(old(self).m(), old(self).dim(), old(self).frozen(), delta),
                    old(self).dim(),
                )
            },
    {
        if delta <= 0 || self.clock_count == 0 {
            return;
        }
        let n = self.clock_count;
        let ghost nn = n as nat;
        let ghost m0 = self.matrix@;
        let ghost fr = self.frozen_clocks@;
        let ghost moves = elapse_moves(m0, nn, fr);
        let mut changed = false;
        proof {
            lemma_exists_below_step(moves, 0);
        }
        let mut i: usize = 1;
        while i < n
            invariant
                1 <= i <= n,
                self.wf(),
                self.clock_count == n,
                nn == n,
                delta > 0,
                m0.len() == nn * nn,
                self.frozen_clocks@ == fr,
                moves == elapse_moves(m0, nn, fr),
                forall|a: int, b: int|
                    #![trigger cell(self.matrix@, nn, a, b)]
                    in_range(nn, a, b) ==> cell(self.matrix@, nn, a, b) == if (a < i && b == 0) || (a
                        == 0 && b < i) {
                        elapse_cell(m0, nn, fr, delta, a, b)
                    } else {
                        cell(m0, nn, a, b)
                    },
                changed == exists_below(moves, i as int),
            decreases n - i,
        {
            proof {
                lemma_exists_below_step(moves, i as int);
            }
            assert(cell(self.matrix@, nn, i as int, 0) == cell(m0, nn, i as int, 0));
            assert(cell(self.matrix@, nn, 0, i as int) == cell(m0, nn, 0, i as int));
            let frozen_i = self.is_frozen(i);
            if !frozen_i {
                let upper_idx = dbm_offset(n, i, 0);
                let current_upper = self.matrix[upper_idx];
                if current_upper != INF_TIME {
                    proof {
                        lemma_update_cell(self.matrix@, nn, i as int, 0, bound_add(current_upper, delta));
                    }
                    self.matrix.set(upper_idx, safe_add_bound(current_upper, delta));
                    changed = true;
                }
                let lower_idx = dbm_offset(n, 0, i);
                let current_lower = self.matrix[lower_idx];
                if current_lower != INF_TIME {
                    proof {
                        lemma_update_cell(self.matrix@, nn, 0, i as int, bound_add(current_lower, (0 - delta) as i32));
                    }
                    self.matrix.set(lower_idx, safe_add_bound(current_lower, -delta));
                    changed = true;
                }
            }
            i = i + 1;
        }
        proof {
            lemma_matrix_of(nn, |a: int, b: int| elapse_cell(m0, nn, fr, delta, a, b));
            if changed {
                lemma_matrix_ext(nn, self.matrix@, elapse_pass(m0, nn, fr, delta));
            } else {
                assert forall|a: int, b: int|
                    #![trigger cell(self.matrix@, nn, a, b)]
                    in_range(nn, a, b) implies cell(self.matrix@, nn, a, b) == cell(m0, nn, a, b) by {
                    if b == 0 && a >= 1 {
                        assert(!moves(a));
                    }
                    if a == 0 && b >= 1 {
                        assert(!moves(b));
                    }
                }
                lemma_matrix_ext(nn, self.matrix@, m0);
            }
        }
        if changed {
            self.minimize();
        }
    }

    /// Lets time advance without limit: drops the upper bounds of all
    /// running (unfrozen) clocks, keeping their lower bounds, then closes the
    /// matrix if some bound moved.
    pub fn future(&mut self)
        requires
            old(self).wf(),
        ensures
            final(self).wf(),
            final(self).dim() == old(self).dim(),
            final(self).frozen() == old(self).frozen(),
            final(self).m() == if !future_changes(old(self).m(), old(self).dim(), old(self).frozen()) {
                old(self).m()
            } else {
                closure(future_pass(old(self).m(), old(self).dim(), old(self).frozen()), old(self).dim())
            },
    {
        let ghost moves = future_moves(self.matrix@, self.clock_count as nat, self.frozen_clocks@);
        if self.clock_count <= 1 {
            proof {
                lemma_exists_below_step(moves, 0);
                assert(!future_changes(self.matrix@, self.clock_count as nat, self.frozen_clocks@));
            }
            return;
        }
        let n = self.clock_count;
        let ghost nn = n as nat;
        let ghost m0 = self.matrix@;
        let ghost fr = self.frozen_clocks@;
        let mut changed = false;
        proof {
            lemma_exists_below_step(moves, 0);
        }
        let mut i: usize = 1;
        while i < n
            invariant
                1 <= i <= n,
                self.wf(),
                self.clock_count == n,
                nn == n,
                m0.len() == nn * nn,
                self.frozen_clocks@ == fr,
                moves == future_moves(m0, nn, fr),
                forall|a: int, b: int|
                    #![trigger cell(self.matrix@, nn, a, b)]
                    in_range(nn, a, b) ==> cell(self.matrix@, nn, a, b) == if b == 0 && a < i {
                        future_cell(m0, nn, fr, a, b)
                    } else {
                        cell(m0, nn, a, b)
                    },
                changed == exists_below(moves, i as int),
            decreases n - i,
        {
            proof {
                lemma_exists_below_step(moves, i as int);
            }
            assert(cell(self.matrix@, nn, i as int, 0) == cell(m0, nn, i as int, 0));
            let frozen_i = self.is_frozen(i);
            if !frozen_i {
                let ub = dbm_offset(n, i, 0);
                if self.matrix[ub] != INF_TIME {
                    proof {
                        lemma_update_cell(self.matrix@, nn, i as int, 0, INF_TIME);
                    }
                    self.matrix.set(ub, INF_TIME);
                    changed = true;
                }
            }
            i = i + 1;
        }
        proof {
            lemma_matrix_of(nn, |a: int, b: int| future_cell(m0, nn, fr, a, b));
            if changed {
                lemma_matrix_ext(nn, self.matrix@, future_pass(m0, nn, fr));
            } else {
                assert forall|a: int, b: int|
                    #![trigger cell(self.matrix@, nn, a, b)]
                    in_range(nn, a, b) implies cell(self.matrix@, nn, a, b) == cell(m0, nn, a, b) by {
                    if b == 0 && a >= 1 {
                        assert(!moves(a));
                    }
                }
                lemma_matrix_ext(nn, self.matrix@, m0);
            }
        }
        if changed {
            self.minimize();
        }
    }

    /// Forgets everything known about clock `clock_idx` except that it is
    /// non-negative, unfreezes it, and closes the matrix. The reference clock
    /// is left alone.
    pub fn forget_clock(&mut self, clock_idx: usize)
        requires
            old(self).wf(),
            clock_idx < old(self).dim(),
        ensures
            final(self).wf(),
            final(self).dim() == old(self).dim(),
            clock_idx == 0 ==> final(self).m() == old(self).m() && final(self).frozen() == old(
                self,
            ).frozen(),
            clock_idx != 0 ==> final(self).m() == closure(
                forget_pass(old(self).m(), old(self).dim(), clock_idx as int),
                old(self).dim(),
            ),
            clock_idx != 0 ==> forall|x: usize| #[trigger]
                final(self).frozen().contains(x) == (old(self).frozen().contains(x) && x
                    != clock_idx),
    {
        if clock_idx == 0 {
            return;
        }
        let n = self.clock_count;
        let ghost nn = n as nat;
        let ghost m0 = self.matrix@;
        let c = clock_idx;
        let mut changed = false;
        for i in 0..n
            invariant
                self.wf(),
                self.clock_count == n,
                nn == n,
                0 < c < n,
                m0.len() == nn * nn,
                self.frozen_clocks@ == old(self).frozen_clocks@,
                forall|a: int, b: int|
                    #![trigger cell(self.matrix@, nn, a, b)]
                    in_range(nn, a, b) ==> cell(self.matrix@, nn, a, b) == if (a == c && b != c
                        && b < i) || (b == c && a != c && a < i) {
                        INF_TIME
                    } else {
                        cell(m0, nn, a, b)
                    },
        {
            if i != c {
                let ci = dbm_offset(n, c, i);
                if self.matrix[ci] != INF_TIME {
                    proof {
                        lemma_update_cell(self.matrix@, nn, c as int, i as int, INF_TIME);
                    }
                    self.matrix.set(ci, INF_TIME);
                    changed = true;
                }
                let ic = dbm_offset(n, i, c);
                if self.matrix[ic] != INF_TIME {
                    proof {
                        lemma_update_cell(self.matrix@, nn, i as int, c as int, INF_TIME);
                    }
                    self.matrix.set(ic, INF_TIME);
                    changed = true;
                }
            }
        }
        let c0 = dbm_offset(n, c, 0);
        if self.matrix[c0] != INF_TIME {
            proof {
                lemma_update_cell(self.matrix@, nn, c as int, 0, INF_TIME);
            }
            self.matrix.set(c0, INF_TIME);
            changed = true;
        }
        let oc = dbm_offset(n, 0, c);
        assert(cell(self.matrix@, nn, 0, c as int) == INF_TIME);
        if self.matrix[oc] != 0 {
            proof {
                lemma_update_cell(self.matrix@, nn, 0, c as int, 0);
            }
            self.matrix.set(oc, 0);
            changed = true;
        }
        let cc = dbm_offset(n, c, c);
        if self.matrix[cc] != 0 {
            proof {
                lemma_update_cell(self.matrix@, nn, c as int, c as int, 0);
            }
            self.matrix.set(cc, 0);
            changed = true;
        }
        proof {
            lemma_matrix_of(nn, |a: int, b: int| forget_cell(m0, nn, c as int, a, b));
            lemma_matrix_ext(nn, self.matrix@, forget_pass(m0, nn, c as int));
        }
        self.unfreeze_clock(clock_idx);
        if changed {
            self.minimize();
        }
    }

    /// Classic k-extrapolation with a uniform bound: finite bounds between
    /// distinct running clocks above `k` are dropped, those below `-k` are
    /// raised to `-k`; rows and columns of frozen clocks are left untouched.
    /// The matrix is closed again when some bound changed.
    pub fn extrapolate(&mut self, k: i32)
        requires
            old(self).wf(),
        ensures
            final(self).wf(),
            final(self).dim() == old(self).dim(),
            final(self).frozen() == old(self).frozen(),
            final(self).m() == if k < 0 || !extrapolate_changes(
                old(self).m(),
                old(self).dim(),
                old(self).frozen(),
                k,
            ) {
                old(self).m()
            } else {
                closure(
                    extrapolate_pass(old(self).m(), old(self).dim(), old(self).frozen(), k),
                    old(self).dim(),
                )
            },
    {
        let ghost rows = extrapolate_row_moves(self.matrix@, self.clock_count as nat, self.frozen_clocks@, k);
        proof {
            lemma_exists_below_step(rows, 0);
        }
        if self.clock_count == 0 || k < 0 {
            return;
        }
        let n = self.clock_count;
        let ghost nn = n as nat;
        let ghost m0 = self.matrix@;
        let ghost fr = self.frozen_clocks@;
        let mut changed = false;
        let mut i: usize = 0;
        while i < n
            invariant
                i <= n,
                k >= 0,
                self.wf(),
                self.clock_count == n,
                nn == n,
                m0.len() == nn * nn,
                self.frozen_clocks@ == fr,
                rows == extrapolate_row_moves(m0, nn, fr, k),
                forall|a: int, b: int|
                    #![trigger cell(self.matrix@, nn, a, b)]
                    in_range(nn, a, b) ==> cell(self.matrix@, nn, a, b) == if a < i {
                        extrapolate_cell(m0, nn, fr, k, a, b)
                    } else {
                        cell(m0, nn, a, b)
                    },
                changed == exists_below(rows, i as int),
            decreases n - i,
        {
            let frozen_i = self.is_frozen(i);
            let ghost changed_row = changed;
            let ghost moves = extrapolate_moves(m0, nn, fr, k, i as int);
            proof {
                lemma_exists_below_step(rows, i as int);
                lemma_exists_below_step(moves, 0);
            }
            let mut j: usize = 0;
            while j < n
                invariant
                    i < n,
                    j <= n,
                    k >= 0,
                    self.wf(),
                    self.clock_count == n,
                    nn == n,
                    m0.len() == nn * nn,
                    self.frozen_clocks@ == fr,
                    frozen_i == fr.contains(i),
                    moves == extrapolate_moves(m0, nn, fr, k, i as int),
                    forall|a: int, b: int|
                        #![trigger cell(self.matrix@, nn, a, b)]
                        in_range(nn, a, b) ==> cell(self.matrix@, nn, a, b) == if a < i || (a == i
                            && b < j) {
                            extrapolate_cell(m0, nn, fr, k, a, b)
                        } else {
                            cell(m0, nn, a, b)
                        },
                    changed == (changed_row || exists_below(moves, j as int)),
                decreases n - j,
            {
                proof {
                    lemma_exists_below_step(moves, j as int);
                }
                assert(cell(self.matrix@, nn, i as int, j as int) == cell(m0, nn, i as int, j as int));
                if !frozen_i && i != j {
                    let frozen_j = self.is_frozen(j);
                    if !frozen_j {
                        let ij = dbm_offset(n, i, j);
                        let bound = self.matrix[ij];
                        if bound != INF_TIME {
                            if bound > k {
                                proof {
                                    lemma_update_cell(self.matrix@, nn, i as int, j as int, INF_TIME);
                                }
                                self.matrix.set(ij, INF_TIME);
                                changed = true;
                            } else if bound < -k {
                                proof {
                                    lemma_update_cell(self.matrix@, nn, i as int, j as int, (0 - k) as i32);
                                }
                                self.matrix.set(ij, -k);
                                changed = true;
                            }
                        }
                    }
                }
                j = j + 1;
            }
            assert(rows(i as int) == exists_below(moves, n as int));
            i = i + 1;
        }
        proof {
            lemma_matrix_of(nn, |a: int, b: int| extrapolate_cell(m0, nn, fr, k, a, b));
            if changed {
                lemma_matrix_ext(nn, self.matrix@, extrapolate_pass(m0, nn, fr, k));
            } else {
                assert forall|a: int, b: int|
                    #![trigger cell(self.matrix@, nn, a, b)]
                    in_range(nn, a, b) implies cell(self.matrix@, nn, a, b) == cell(m0, nn, a, b) by {
                    assert(!rows(a));
                    assert(!extrapolate_moves(m0, nn, fr, k, a)(b));
                }
                lemma_matrix_ext(nn, self.matrix@, m0);
            }
        }
        if changed {
            self.minimize();
        }
    }

    /// Resets clock `clock_idx` to zero: its row and column copy those of the
    /// reference clock. The matrix is closed again when the reset changed a
    /// bound or the reference clock's own bound is not zero.
    pub fn reset_clock(&mut self, clock_idx: usize)
        requires
            old(self).wf(),
            clock_idx < old(self).dim(),
        ensures
            final(self).wf(),
            final(self).dim() == old(self).dim(),
            final(self).frozen() == old(self).frozen(),
            final(self).m() == if clock_idx == 0 || !reset_changes(
                old(self).m(),
                old(self).dim(),
                clock_idx as int,
            ) {
                old(self).m()
            } else {
                closure(reset_pass(old(self).m(), old(self).dim(), clock_idx as int), old(self).dim())
            },
    {
        if clock_idx == 0 {
            return;
        }
        let n = self.clock_count;
        let ghost nn = n as nat;
        let ghost m0 = self.matrix@;
        let c = clock_idx;
        let ghost moves = reset_moves(m0, nn, c as int);
        let mut changed = self.matrix[dbm_offset(n, 0, 0)] != 0;
        proof {
            lemma_exists_below_step(moves, 0);
        }
        let mut k: usize = 0;
        while k < n
            invariant
                k <= n,
                self.wf(),
                self.clock_count == n,
                nn == n,
                0 < c < n,
                m0.len() == nn * nn,
                self.frozen_clocks@ == old(self).frozen_clocks@,
                moves == reset_moves(m0, nn, c as int),
                forall|a: int, b: int|
                    #![trigger cell(self.matrix@, nn, a, b)]
                    in_range(nn, a, b) ==> cell(self.matrix@, nn, a, b) == if (a == c && b != c && b
                        < k) || (b == c && a != c && a < k) {
                        reset_cell(m0, nn, c as int, a, b)
                    } else {
                        cell(m0, nn, a, b)
                    },
                changed == (cell(m0, nn, 0, 0) != 0 || exists_below(moves, k as int)),
            decreases n - k,
        {
            proof {
                lemma_exists_below_step(moves, k as int);
            }
            if k != c {
                assert(cell(self.matrix@, nn, 0, k as int) == cell(m0, nn, 0, k as int));
                assert(cell(self.matrix@, nn, c as int, k as int) == cell(m0, nn, c as int, k as int));
                let row0 = self.matrix[dbm_offset(n, 0, k)];
                let ck = dbm_offset(n, c, k);
                if self.matrix[ck] != row0 {
                    proof {
                        lemma_update_cell(self.matrix@, nn, c as int, k as int, row0);
                    }
                    self.matrix.set(ck, row0);
                    changed = true;
                }
                assert(cell(self.matrix@, nn, k as int, 0) == cell(m0, nn, k as int, 0));
                assert(cell(self.matrix@, nn, k as int, c as int) == cell(m0, nn, k as int, c as int));
                let col0 = self.matrix[dbm_offset(n, k, 0)];
                let kc = dbm_offset(n, k, c);
                if self.matrix[kc] != col0 {
                    proof {
                        lemma_update_cell(self.matrix@, nn, k as int, c as int, col0);
                    }
                    self.matrix.set(kc, col0);
                    changed = true;
                }
            }
            k = k + 1;
        }
        let cc = dbm_offset(n, c, c);
        assert(cell(self.matrix@, nn, c as int, c as int) == cell(m0, nn, c as int, c as int));
        if self.matrix[cc] != 0 {
            proof {
                lemma_update_cell(self.matrix@, nn, c as int, c as int, 0);
            }
            self.matrix.set(cc, 0);
            changed = true;
        }
        proof {
            lemma_matrix_of(nn, |a: int, b: int| reset_cell(m0, nn, c as int, a, b));
            assert forall|a: int, b: int|
                #![trigger cell(self.matrix@, nn, a, b)]
                in_range(nn, a, b) implies cell(self.matrix@, nn, a, b) == reset_cell(m0, nn, c as int, a, b) by {
            }
            lemma_matrix_ext(nn, self.matrix@, reset_pass(m0, nn, c as int));
            if !changed {
                assert forall|a: int, b: int|
                    #![trigger cell(self.matrix@, nn, a, b)]
                    in_range(nn, a, b) implies cell(self.matrix@, nn, a, b) == cell(m0, nn, a, b) by {
                    if a == c && b != c {
                        assert(!moves(b));
                    }
                    if b == c && a != c {
                        assert(!moves(a));
                    }
                }
                lemma_matrix_ext(nn, self.matrix@, m0);
            }
        }
        if changed {
            self.minimize();
        }
    }
}

impl DBM {
    /// Tightens bound `(i, j)` to `bound` on an already-closed matrix, with an
    /// O(n^2) incremental re-closure through the new edge. Returns false when
    /// the tightening empties the zone.
    pub fn tighten(&mut self, i: usize, j: usize, bound: i32) -> (r: bool)
        requires
            old(self).wf(),
            in_range(old(self).dim(), i as int, j as int),
        ensures
            final(self).wf(),
            final(self).dim() == old(self).dim(),
            final(self).frozen() == old(self).frozen(),
            final(self).m() == tighten_matrix(old(self).m(), old(self).dim(), i as int, j as int, bound),
            r == tighten_ok(old(self).m(), old(self).dim(), i as int, j as int, bound),
    {
        let n = self.clock_count;
        let ghost nn = n as nat;
        let ij = dbm_offset(n, i, j);
        if self.matrix[ij] != INF_TIME && self.matrix[ij] <= bound {
            return true;
        }
        self.matrix.set(ij, bound);
        let ji = self.matrix[dbm_offset(n, j, i)];
        if ji != INF_TIME && safe_add_bound(bound, ji) < 0 {
            let diag = dbm_offset(n, i, i);
            self.matrix.set(diag, safe_add_bound(bound, ji));
            return false;
        }
        let ghost m1 = self.matrix@;
        for a in 0..n
            invariant
                self.wf(),
                self.clock_count == n,
                nn == n,
                in_range(nn, i as int, j as int),
                self.frozen_clocks@ == old(self).frozen_clocks@,
                self.matrix@ == tighten_rows(m1, nn, i as int, j as int, bound, a as nat),
        {
            let ai = self.matrix[dbm_offset(n, a, i)];
            if ai != INF_TIME {
                let a_via = safe_add_bound(ai, bound);
                if a_via != INF_TIME {
                    self.tighten_row_via(j, a, a_via);
                }
            }
        }
        self.diagonal_nonnegative()
    }

    /// Improves every entry `(a, b)` through `a -> ... -> j -> b`, the path to
    /// `j` costing `via`.
    fn tighten_row_via(&mut self, j: usize, a: usize, via: i32)
        requires
            old(self).wf(),
            in_range(old(self).dim(), a as int, j as int),
        ensures
            final(self).wf(),
            final(self).dim() == old(self).dim(),
            final(self).frozen() == old(self).frozen(),
            final(self).m() == tighten_row(old(self).m(), old(self).dim(), j as int, a as int, via, old(self).dim()),
    {
        let n = self.clock_count;
        let ghost nn = n as nat;
        let ghost m0 = self.matrix@;
        for b in 0..n
            invariant
                self.wf(),
                self.clock_count == n,
                nn == n,
                in_range(nn, a as int, j as int),
                self.frozen_clocks@ == old(self).frozen_clocks@,
                self.matrix@ == tighten_row(m0, nn, j as int, a as int, via, b as nat),
        {
            let jb = self.matrix[dbm_offset(n, j, b)];
            if jb != INF_TIME {
                let candidate = safe_add_bound(via, jb);
                let ab = dbm_offset(n, a, b);
                if self.matrix[ab] == INF_TIME || candidate < self.matrix[ab] {
                    self.matrix.set(ab, candidate);
                }
            }
        }
    }

    /// Appends one clock, unconstrained except for being non-negative, and
    /// returns its index.
    pub fn add_clock(&mut self) -> (r: usize)
        requires
            old(self).wf(),
            (old(self).dim() + 1) * (old(self).dim() + 1) <= usize::MAX,
        ensures
            r == old(self).dim(),
            final(self).wf(),
            final(self).dim() == old(self).dim() + 1,
            final(self).frozen() == old(self).frozen(),
            forall|a: int, b: int|
                #![trigger final(self).bound(a, b)]
                in_range(final(self).dim(), a, b) ==> final(self).bound(a, b) == resize_cell(
                    old(self).m(),
                    old(self).dim(),
                    a,
                    b,
                ),
    {
        let new_idx = self.clock_count;
        proof {
            let d = self.clock_count as int;
            assert(d + 1 <= (d + 1) * (d + 1)) by (nonlinear_arith)
                requires
                    d >= 0,
            ;
        }
        self.resize(self.clock_count + 1);
        new_idx
    }

    /// Changes the number of clocks. Surviving bounds are kept; bounds of new
    /// clocks start as in a fresh zone. Frozen clocks are kept as they are.
    pub fn resize(&mut self, new_size: usize)
        requires
            old(self).wf(),
            new_size * new_size <= usize::MAX,
        ensures
            final(self).wf(),
            final(self).dim() == new_size,
            final(self).frozen() == old(self).frozen(),
            new_size == old(self).dim() ==> final(self).m() == old(self).m(),
            forall|a: int, b: int|
                #![trigger final(self).bound(a, b)]
                in_range(new_size as nat, a, b) ==> final(self).bound(a, b) == resize_cell(
                    old(self).m(),
                    old(self).dim(),
                    a,
                    b,
                ),
    {
        let ghost m0 = self.matrix@;
        let ghost n0 = self.clock_count as nat;
        if new_size == self.clock_count {
            assert forall|a: int, b: int|
                #![trigger self.bound(a, b)]
                in_range(new_size as nat, a, b) implies self.bound(a, b) == resize_cell(m0, n0, a, b) by {
            }
            return;
        }
        let old_size = self.clock_count;
        let old_matrix = copy_vec(&self.matrix);
        let fresh = DBM::new(new_size);
        let ghost nn = new_size as nat;
        assert forall|a: int, b: int|
            #![trigger cell(fresh.m(), nn, a, b)]
            in_range(nn, a, b) implies cell(fresh.m(), nn, a, b) == init_cell(a, b) by {
            assert(fresh.bound(a, b) == init_cell(a, b));
        }
        self.clock_count = new_size;
        self.matrix = fresh.matrix;
        let preserved = if old_size < new_size {
            old_size
        } else {
            new_size
        };
        proof {
            assert(preserved * preserved <= old_size * old_size) by (nonlinear_arith)
                requires
                    preserved <= old_size,
            ;
        }
        for i in 0..preserved
            invariant
                self.wf(),
                self.clock_count == new_size,
                nn == new_size,
                old_matrix@ == m0,
                m0.len() == n0 * n0,
                n0 * n0 <= usize::MAX,
                n0 == old_size,
                preserved <= old_size,
                preserved <= new_size,
                self.frozen_clocks@ == old(self).frozen_clocks@,
                forall|a: int, b: int|
                    #![trigger cell(self.matrix@, nn, a, b)]
                    in_range(nn, a, b) ==> cell(self.matrix@, nn, a, b) == if a < i && b < preserved {
                        cell(m0, n0, a, b)
                    } else {
                        init_cell(a, b)
                    },
        {
            for j in 0..preserved
                invariant
                    self.wf(),
                    self.clock_count == new_size,
                    nn == new_size,
                    old_matrix@ == m0,
                    m0.len() == n0 * n0,
                    n0 * n0 <= usize::MAX,
                    n0 == old_size,
                    preserved <= old_size,
                    preserved <= new_size,
                    0 <= i < preserved,
                    self.frozen_clocks@ == old(self).frozen_clocks@,
                    forall|a: int, b: int|
                        #![trigger cell(self.matrix@, nn, a, b)]
                        in_range(nn, a, b) ==> cell(self.matrix@, nn, a, b) == if (a < i && b
                            < preserved) || (a == i && b < j) {
                            cell(m0, n0, a, b)
                        } else {
                            init_cell(a, b)
                        },
            {
                let v = old_matrix[dbm_offset(old_size, i, j)];
                let idx = dbm_offset(new_size, i, j);
                proof {
                    lemma_update_cell(self.matrix@, nn, i as int, j as int, v);
                }
                self.matrix.set(idx, v);
            }
        }
        if old_size < new_size {
        for i in old_size..new_size
            invariant
                self.wf(),
                self.clock_count == new_size,
                nn == new_size,
                n0 == old_size,
                preserved == if old_size < new_size {
                    old_size
                } else {
                    new_size
                },
                self.frozen_clocks@ == old(self).frozen_clocks@,
                forall|a: int, b: int|
                    #![trigger cell(self.matrix@, nn, a, b)]
                    in_range(nn, a, b) ==> cell(self.matrix@, nn, a, b) == if a < preserved && b
                        < preserved {
                        cell(m0, n0, a, b)
                    } else {
                        init_cell(a, b)
                    },
        {
            self.initialize_clock(i);
        }
        }
    }

    /// Gives clock `clock_idx` the bounds of a fresh zone.
    fn initialize_clock(&mut self, clock_idx: usize)
        requires
            old(self).wf(),
        ensures
            final(self).wf(),
            final(self).dim() == old(self).dim(),
            final(self).frozen() == old(self).frozen(),
            forall|a: int, b: int|
                #![trigger cell(final(self).m(), final(self).dim(), a, b)]
                in_range(final(self).dim(), a, b) ==> cell(final(self).m(), final(self).dim(), a, b)
                    == if clock_idx < old(self).dim() && (a == clock_idx || b == clock_idx) {
                    init_cell(a, b)
                } else {
                    cell(old(self).m(), old(self).dim(), a, b)
                },
    {
        let ghost m0 = self.matrix@;
        if clock_idx >= self.clock_count {
            return;
        }
        let n = self.clock_count;
        let ghost nn = n as nat;
        let c = clock_idx;
        let cc = dbm_offset(n, c, c);
        proof {
            lemma_update_cell(self.matrix@, nn, c as int, c as int, 0);
        }
        self.matrix.set(cc, 0);
        if c == 0 {
            for i in 1..n
                invariant
                    self.wf(),
                    self.clock_count == n,
                    nn == n,
                    c == 0,
                    self.frozen_clocks@ == old(self).frozen_clocks@,
                    forall|a: int, b: int|
                        #![trigger cell(self.matrix@, nn, a, b)]
                        in_range(nn, a, b) ==> cell(self.matrix@, nn, a, b) == if (a == 0 && b == 0)
                            || (a == 0 && b < i) || (b == 0 && a < i) {
                            init_cell(a, b)
                        } else {
                            cell(m0, nn, a, b)
                        },
            {
                let row = dbm_offset(n, 0, i);
                proof {
                    lemma_update_cell(self.matrix@, nn, 0, i as int, 0);
                }
                self.matrix.set(row, 0);
                let col = dbm_offset(n, i, 0);
                proof {
                    lemma_update_cell(self.matrix@, nn, i as int, 0, INF_TIME);
                }
                self.matrix.set(col, INF_TIME);
            }
        } else {
            let c0 = dbm_offset(n, c, 0);
            proof {
                lemma_update_cell(self.matrix@, nn, c as int, 0, INF_TIME);
            }
            self.matrix.set(c0, INF_TIME);
            let oc = dbm_offset(n, 0, c);
            proof {
                lemma_update_cell(self.matrix@, nn, 0, c as int, 0);
            }
            self.matrix.set(oc, 0);
            for i in 1..n
                invariant
                    self.wf(),
                    self.clock_count == n,
                    nn == n,
                    0 < c < n,
                    self.frozen_clocks@ == old(self).frozen_clocks@,
                    forall|a: int, b: int|
                        #![trigger cell(self.matrix@, nn, a, b)]
                        in_range(nn, a, b) ==> cell(self.matrix@, nn, a, b) == if (a == c && (b == c
                            || b == 0 || b < i)) || (b == c && (a == 0 || a < i)) {
                            init_cell(a, b)
                        } else {
                            cell(m0, nn, a, b)
                        },
            {
                if i != c {
                    let ci = dbm_offset(n, c, i);
                    proof {
                        lemma_update_cell(self.matrix@, nn, c as int, i as int, INF_TIME);
                    }
                    self.matrix.set(ci, INF_TIME);
                    let ic = dbm_offset(n, i, c);
                    proof {
                        lemma_update_cell(self.matrix@, nn, i as int, c as int, INF_TIME);
                    }
                    self.matrix.set(ic, INF_TIME);
                }
            }
        }
    }
}

/// The closed matrix after narrowing clock `c` to `[alpha, beta]`.
pub open spec fn restricted(m: Seq<i32>, n: nat, c: int, alpha: i32, beta: i32) -> Seq<i32> {
    closure(restrict_pass(m, n, c, alpha, beta), n)
}

/// Entry `(a, b)` of a target zone over `tn` clocks after copying the row and
/// column of clock `c` from a source zone over `n` clocks (the target being
/// first grown to `c + 1` clocks when needed).
pub open spec fn copy_clock_cell(src: Seq<i32>, n: nat, tgt: Seq<i32>, tn: nat, c: int, a: int, b: int) -> i32 {
    if a == c && b < n {
        cell(src, n, c, b)
    } else if b == c && a < n {
        cell(src, n, a, c)
    } else {
        resize_cell(tgt, tn, a, b)
    }
}

impl DBM {
    /// Removes clock `clock_idx` (not the reference clock): its row and column
    /// disappear and later clocks shift down by one, in the matrix and in the
    /// frozen set.
    pub fn remove_clock(&mut self, clock_idx: usize)
        requires
            old(self).wf(),
        ensures
            final(self).wf(),
            clock_idx >= old(self).dim() || clock_idx == 0 ==> final(self).dim() == old(self).dim()
                && final(self).m() == old(self).m() && final(self).frozen() == old(self).frozen(),
            0 < clock_idx < old(self).dim() ==> {
                &&& final(self).dim() == old(self).dim() - 1
                &&& forall|a: int, b: int|
                    #![trigger final(self).bound(a, b)]
                    in_range(final(self).dim(), a, b) ==> final(self).bound(a, b) == old(self).bound(
                        skip_index(clock_idx as int, a),
                        skip_index(clock_idx as int, b),
                    )
                &&& forall|x: usize| #[trigger]
                    final(self).frozen().contains(x) == exists|y: usize|
                        #![trigger old(self).frozen().contains(y)]
                        old(self).frozen().contains(y) && y != clock_idx && x == shift_down(clock_idx, y)
            },
    {
        if clock_idx >= self.clock_count || clock_idx == 0 {
            return;
        }
        let ghost f0 = self.frozen_clocks@;
        let ghost m0 = self.matrix@;
        let n = self.clock_count;
        let ghost nn = n as nat;
        let c = clock_idx;
        self.unfreeze_clock(clock_idx);
        let ghost f1 = self.frozen_clocks@;
        let new_count = n - 1;
        let ghost nc = new_count as nat;
        proof {
            assert(new_count * new_count <= n * n) by (nonlinear_arith)
                requires
                    new_count < n,
            ;
        }
        let total = new_count * new_count;
        let mut new_matrix: Vec<i32> = Vec::new();
        while new_matrix.len() < total
            invariant
                new_matrix.len() <= total,
                total == new_count * new_count,
            decreases total - new_matrix.len(),
        {
            new_matrix.push(INF_TIME);
        }
        for a in 0..new_count
            invariant
                self.wf(),
                self.clock_count == n,
                self.matrix@ == m0,
                nn == n,
                nc == new_count,
                new_count == n - 1,
                0 < c < n,
                new_matrix@.len() == nc * nc,
                nc * nc <= usize::MAX,
                forall|x: int, y: int|
                    #![trigger cell(new_matrix@, nc, x, y)]
                    in_range(nc, x, y) && x < a ==> cell(new_matrix@, nc, x, y) == cell(
                        m0,
                        nn,
                        skip_index(c as int, x),
                        skip_index(c as int, y),
                    ),
        {
            let i = if a < c {
                a
            } else {
                a + 1
            };
            for b in 0..new_count
                invariant
                    self.wf(),
                    self.clock_count == n,
                    self.matrix@ == m0,
                    nn == n,
                    nc == new_count,
                    new_count == n - 1,
                    0 < c < n,
                    0 <= a < new_count,
                    i == skip_index(c as int, a as int),
                    new_matrix@.len() == nc * nc,
                    nc * nc <= usize::MAX,
                    forall|x: int, y: int|
                        #![trigger cell(new_matrix@, nc, x, y)]
                        in_range(nc, x, y) && (x < a || (x == a && y < b)) ==> cell(new_matrix@, nc, x, y)
                            == cell(m0, nn, skip_index(c as int, x), skip_index(c as int, y)),
            {
                let j = if b < c {
                    b
                } else {
                    b + 1
                };
                let v = self.matrix[dbm_offset(n, i, j)];
                let idx = dbm_offset(new_count, a, b);
                proof {
                    lemma_update_cell(new_matrix@, nc, a as int, b as int, v);
                }
                new_matrix.set(idx, v);
            }
        }
        self.matrix = new_matrix;
        self.clock_count = new_count;
        let mut new_frozen: Vec<usize> = Vec::new();
        for k in 0..self.frozen_clocks.len()
            invariant
                self.frozen_clocks@ == f1,
                forall|x: usize| #[trigger] f1.contains(x) == (f0.contains(x) && x != c),
                new_frozen@.len() == k,
                forall|t: int| 0 <= t < k ==> new_frozen@[t] == shift_down(c, #[trigger] f1[t]),
        {
            let idx = self.frozen_clocks[k];
            assert(f1.contains(f1[k as int]));
            if idx < c {
                new_frozen.push(idx);
            } else if idx > c {
                new_frozen.push(idx - 1);
            }
        }
        self.frozen_clocks = new_frozen;
        proof {
            let f2 = self.frozen_clocks@;
            assert forall|p: int, q: int| 0 <= p < q < f2.len() implies f2[p] < f2[q] by {
                assert(f1[p] < f1[q]);
                assert(f1.contains(f1[p]));
                assert(f1.contains(f1[q]));
            }
            assert forall|x: usize| #[trigger]
                f2.contains(x) == exists|y: usize|
                    #![trigger f0.contains(y)]
                    f0.contains(y) && y != c && x == shift_down(c, y) by {
                if f2.contains(x) {
                    let t = choose|t: int| 0 <= t < f2.len() && f2[t] == x;
                    let y = f1[t];
                    assert(f1.contains(y));
                    assert(f0.contains(y) && y != c && x == shift_down(c, y));
                }
                if exists|y: usize|
                    #![trigger f0.contains(y)]
                    f0.contains(y) && y != c && x == shift_down(c, y) {
                    let y = choose|y: usize|
                        #![trigger f0.contains(y)]
                        f0.contains(y) && y != c && x == shift_down(c, y);
                    assert(f1.contains(y));
                    let t = choose|t: int| 0 <= t < f1.len() && f1[t] == y;
                    assert(f2[t] == x);
                }
            }
        }
    }

    /// A copy of the zone with clock `clock_idx` narrowed to the interval
    /// `[alpha, beta]` and closed; the empty zone over zero clocks when the
    /// narrowing makes it empty. Clocks outside the zone leave it unchanged.
    pub fn restrict_clock(&self, clock_idx: usize, alpha: i32, beta: i32) -> (r: DBM)
        requires
            self.wf(),
            clock_idx < self.dim() ==> self.bound(0, clock_idx as int) != i32::MIN,
        ensures
            r.wf(),
            clock_idx >= self.dim() ==> r.dim() == self.dim() && r.m() == self.m() && r.frozen()
                == self.frozen(),
            clock_idx < self.dim() ==> if diagonal_ok(
                restricted(self.m(), self.dim(), clock_idx as int, alpha, beta),
                self.dim(),
            ) {
                r.dim() == self.dim() && r.m() == restricted(self.m(), self.dim(), clock_idx as int, alpha, beta)
                    && r.frozen() == self.frozen()
            } else {
                r.dim() == 0 && r.frozen() == Seq::<usize>::empty()
            },
    {
        if clock_idx >= self.clock_count {
            return self.duplicate();
        }
        let mut result = self.duplicate();
        let current_lower = -result.get_constraint(0, clock_idx);
        if alpha > current_lower {
            result.set_constraint(0, clock_idx, -alpha);
        }
        let current_upper = result.get_constraint(clock_idx, 0);
        if beta != INF_TIME && (current_upper == INF_TIME || beta < current_upper) {
            result.set_constraint(clock_idx, 0, beta);
        }
        result.minimize();
        if !result.diagonal_nonnegative() {
            return DBM::new(0);
        }
        result
    }

    /// [`DBM::restrict_clock`] applied to the execution clock of transition
    /// `transition_id`, which is clock `transition_id + 1`.
    pub fn restrict_for_firing(&self, transition_id: usize, alpha: i32, beta: i32) -> (r: DBM)
        requires
            self.wf(),
            transition_id < usize::MAX,
            transition_id + 1 < self.dim() ==> self.bound(0, transition_id + 1) != i32::MIN,
        ensures
            r.wf(),
            transition_id + 1 >= self.dim() ==> r.dim() == self.dim() && r.m() == self.m() && r.frozen()
                == self.frozen(),
            transition_id + 1 < self.dim() ==> if diagonal_ok(
                restricted(self.m(), self.dim(), transition_id + 1, alpha, beta),
                self.dim(),
            ) {
                r.dim() == self.dim() && r.m() == restricted(self.m(), self.dim(), transition_id + 1, alpha, beta)
                    && r.frozen() == self.frozen()
            } else {
                r.dim() == 0 && r.frozen() == Seq::<usize>::empty()
            },
    {
        self.restrict_clock(transition_id + 1, alpha, beta)
    }

    /// Copies the row and column of clock `clock_idx` into `target` (growing
    /// it to hold the clock when needed) and freezes the clock there when it is
    /// frozen here.
    pub fn copy_clock_constraints(&self, clock_idx: usize, target: &mut DBM)
        requires
            self.wf(),
            old(target).wf(),
        ensures
            final(target).wf(),
            clock_idx >= self.dim() ==> final(target).dim() == old(target).dim() && final(target).m()
                == old(target).m() && final(target).frozen() == old(target).frozen(),
            clock_idx < self.dim() ==> {
                &&& final(target).dim() == if clock_idx < old(target).dim() {
                    old(target).dim()
                } else {
                    (clock_idx + 1) as nat
                }
                &&& forall|a: int, b: int|
                    #![trigger final(target).bound(a, b)]
                    in_range(final(target).dim(), a, b) ==> final(target).bound(a, b)
                        == copy_clock_cell(self.m(), self.dim(), old(target).m(), old(target).dim(), clock_idx as int, a, b)
                &&& forall|x: usize| #[trigger]
                    final(target).frozen().contains(x) == (old(target).frozen().contains(x) || (x
                        == clock_idx && clock_idx != 0 && self.frozen().contains(clock_idx)))
            },
    {
        if clock_idx >= self.clock_count {
            return;
        }
        let ghost tm = target.m();
        let ghost tn = target.dim();
        let n = self.clock_count;
        let c = clock_idx;
        if clock_idx >= target.size() {
            proof {
                assert((c + 1) * (c + 1) <= n * n) by (nonlinear_arith)
                    requires
                        c < n,
                ;
            }
            target.resize(clock_idx + 1);
        } else {
            assert forall|a: int, b: int|
                #![trigger target.bound(a, b)]
                in_range(tn, a, b) implies target.bound(a, b) == resize_cell(tm, tn, a, b) by {
            }
        }
        let ghost d1 = target.dim();
        let ghost f_t = target.frozen();
        assert forall|a: int, b: int|
            #![trigger cell(target.m(), d1, a, b)]
            in_range(d1, a, b) implies cell(target.m(), d1, a, b) == resize_cell(tm, tn, a, b) by {
            assert(target.bound(a, b) == resize_cell(tm, tn, a, b));
        }
        for i in 0..n
            invariant
                self.wf(),
                target.wf(),
                target.dim() == d1,
                target.frozen() == f_t,
                n == self.dim(),
                c < n,
                c < d1,
                forall|a: int, b: int|
                    #![trigger cell(target.m(), d1, a, b)]
                    in_range(d1, a, b) ==> cell(target.m(), d1, a, b) == if a == c && b < n && b < i {
                        cell(self.m(), self.dim(), c as int, b)
                    } else if b == c && a < n && a < i {
                        cell(self.m(), self.dim(), a, c as int)
                    } else {
                        resize_cell(tm, tn, a, b)
                    },
        {
            if i < target.size() {
                let v1 = self.matrix[dbm_offset(n, c, i)];
                proof {
                    lemma_update_cell(target.m(), d1, c as int, i as int, v1);
                }
                target.set_constraint(c, i, v1);
                let v2 = self.matrix[dbm_offset(n, i, c)];
                proof {
                    lemma_update_cell(target.m(), d1, i as int, c as int, v2);
                }
                target.set_constraint(i, c, v2);
            }
        }
        let ghost mid = target.m();
        if self.is_frozen(clock_idx) {
            target.freeze_clock(clock_idx);
        }
        assert forall|a: int, b: int|
            #![trigger target.bound(a, b)]
            in_range(d1, a, b) implies target.bound(a, b) == copy_clock_cell(self.m(), self.dim(), tm, tn, c as int, a, b) by {
            assert(cell(mid, d1, a, b) == copy_clock_cell(self.m(), self.dim(), tm, tn, c as int, a, b));
        }
    }
}

/// Whether the listed pair at positions `(l, r)` names clocks `a` and `b`
/// (in either order), both inside a zone over `n` clocks.
pub open spec fn sync_names(idx: Seq<usize>, n: nat, l: int, r: int, a: int, b: int) -> bool {
    &&& idx[l] < n
    &&& idx[r] < n
    &&& ((idx[l] == a && idx[r] == b) || (idx[l] == b && idx[r] == a))
}

/// Whether some listed pair `(l, r)`, `l < r`, that comes before `(lo, ro)`
/// in lexicographic order names clocks `a` and `b`.
pub open spec fn sync_pair_before(idx: Seq<usize>, n: nat, a: int, b: int, lo: int, ro: int) -> bool {
    exists|l: int, r: int|
        #![trigger sync_names(idx, n, l, r, a, b)]
        0 <= l < r < idx.len() && (l < lo || (l == lo && r < ro)) && sync_names(idx, n, l, r, a, b)
}

/// Whether some listed pair names clocks `a` and `b`.
pub open spec fn sync_pair(idx: Seq<usize>, n: nat, a: int, b: int) -> bool {
    sync_pair_before(idx, n, a, b, idx.len() as int, 0)
}

/// Entry after synchronizing the listed clocks: every bound between two of
/// them is zero.
pub open spec fn sync_cell(m: Seq<i32>, n: nat, idx: Seq<usize>, a: int, b: int) -> i32 {
    if sync_pair(idx, n, a, b) {
        0
    } else {
        cell(m, n, a, b)
    }
}

/// The matrix after the synchronization pass (before closure).
pub open spec fn sync_pass(m: Seq<i32>, n: nat, idx: Seq<usize>) -> Seq<i32> {
    matrix_of(n, |a: int, b: int| sync_cell(m, n, idx, a, b))
}

/// Whether some nonzero bound is zeroed by pairs before `(lo, ro)`.
pub open spec fn sync_changes_before(m: Seq<i32>, n: nat, idx: Seq<usize>, lo: int, ro: int) -> bool {
    exists|a: int, b: int|
        #![trigger cell(m, n, a, b)]
        in_range(n, a, b) && sync_pair_before(idx, n, a, b, lo, ro) && cell(m, n, a, b) != 0
}

/// Whether the synchronization zeroes some nonzero bound.
pub open spec fn sync_changes(m: Seq<i32>, n: nat, idx: Seq<usize>) -> bool {
    sync_changes_before(m, n, idx, idx.len() as int, 0)
}

/// Advancing the pair cursor by one pair.
proof fn lemma_sync_step(idx: Seq<usize>, n: nat, lo: int, ro: int)
    requires
        0 <= lo < ro < idx.len(),
    ensures
        forall|a: int, b: int|
            #![trigger sync_pair_before(idx, n, a, b, lo, ro + 1)]
            sync_pair_before(idx, n, a, b, lo, ro + 1) == (sync_pair_before(idx, n, a, b, lo, ro)
                || sync_names(idx, n, lo, ro, a, b)),
{
    assert forall|a: int, b: int|
        #![trigger sync_pair_before(idx, n, a, b, lo, ro + 1)]
        sync_pair_before(idx, n, a, b, lo, ro + 1) == (sync_pair_before(idx, n, a, b, lo, ro)
            || sync_names(idx, n, lo, ro, a, b)) by {
        if sync_pair_before(idx, n, a, b, lo, ro + 1) && !sync_names(idx, n, lo, ro, a, b) {
            let (l, r) = choose|l: int, r: int|
                #![trigger sync_names(idx, n, l, r, a, b)]
                0 <= l < r < idx.len() && (l < lo || (l == lo && r < ro + 1)) && sync_names(idx, n, l, r, a, b);
            assert(0 <= l < r < idx.len() && (l < lo || (l == lo && r < ro)) && sync_names(idx, n, l, r, a, b));
        }
        if sync_pair_before(idx, n, a, b, lo, ro) {
            let (l, r) = choose|l: int, r: int|
                #![trigger sync_names(idx, n, l, r, a, b)]
                0 <= l < r < idx.len() && (l < lo || (l == lo && r < ro)) && sync_names(idx, n, l, r, a, b);
            assert(0 <= l < r < idx.len() && (l < lo || (l == lo && r < ro + 1)) && sync_names(idx, n, l, r, a, b));
        }
        if sync_names(idx, n, lo, ro, a, b) {
            assert(0 <= lo < ro < idx.len() && (lo < lo || (lo == lo && ro < ro + 1)) && sync_names(idx, n, lo, ro, a, b));
        }
    }
}

/// Finishing row `lo` of the pair cursor.
proof fn lemma_sync_next_row(idx: Seq<usize>, n: nat, lo: int)
    requires
        0 <= lo < idx.len(),
    ensures
        forall|a: int, b: int|
            #![trigger sync_pair_before(idx, n, a, b, lo + 1, lo + 2)]
            sync_pair_before(idx, n, a, b, lo + 1, lo + 2) == sync_pair_before(idx, n, a, b, lo, idx.len() as int),
        forall|a: int, b: int|
            #![trigger sync_pair_before(idx, n, a, b, lo + 1, lo + 2)]
            sync_pair_before(idx, n, a, b, lo + 1, lo + 2) == sync_pair_before(idx, n, a, b, lo + 1, 0),
{
    assert forall|a: int, b: int|
        #![trigger sync_pair_before(idx, n, a, b, lo + 1, lo + 2)]
        sync_pair_before(idx, n, a, b, lo + 1, lo + 2) == sync_pair_before(idx, n, a, b, lo, idx.len() as int)
            && sync_pair_before(idx, n, a, b, lo + 1, lo + 2) == sync_pair_before(idx, n, a, b, lo + 1, 0) by {
        if sync_pair_before(idx, n, a, b, lo + 1, lo + 2) {
            let (l, r) = choose|l: int, r: int|
                #![trigger sync_names(idx, n, l, r, a, b)]
                0 <= l < r < idx.len() && (l < lo + 1 || (l == lo + 1 && r < lo + 2)) && sync_names(idx, n, l, r, a, b);
            assert(0 <= l < r < idx.len() && (l < lo || (l == lo && r < idx.len())) && sync_names(idx, n, l, r, a, b));
            assert(0 <= l < r < idx.len() && (l < lo + 1 || (l == lo + 1 && r < 0)) && sync_names(idx, n, l, r, a, b));
        }
        if sync_pair_before(idx, n, a, b, lo, idx.len() as int) {
            let (l, r) = choose|l: int, r: int|
                #![trigger sync_names(idx, n, l, r, a, b)]
                0 <= l < r < idx.len() && (l < lo || (l == lo && r < idx.len())) && sync_names(idx, n, l, r, a, b);
            assert(0 <= l < r < idx.len() && (l < lo + 1 || (l == lo + 1 && r < lo + 2)) && sync_names(idx, n, l, r, a, b));
        }
        if sync_pair_before(idx, n, a, b, lo + 1, 0) {
            let (l, r) = choose|l: int, r: int|
                #![trigger sync_names(idx, n, l, r, a, b)]
                0 <= l < r < idx.len() && (l < lo + 1 || (l == lo + 1 && r < 0)) && sync_names(idx, n, l, r, a, b);
            assert(0 <= l < r < idx.len() && (l < lo + 1 || (l == lo + 1 && r < lo + 2)) && sync_names(idx, n, l, r, a, b));
        }
    }
}

impl DBM {
    /// Forces the listed clocks to be equal (every bound between two of them
    /// becomes zero; indices outside the zone are ignored), then closes the
    /// matrix if some bound changed.
    pub fn synchronize_clocks(&mut self, clock_indices: &[usize])
        requires
            old(self).wf(),
        ensures
            final(self).wf(),
            final(self).dim() == old(self).dim(),
            final(self).frozen() == old(self).frozen(),
            final(self).m() == if !sync_changes(old(self).m(), old(self).dim(), clock_indices@) {
                old(self).m()
            } else {
                closure(sync_pass(old(self).m(), old(self).dim(), clock_indices@), old(self).dim())
            },
    {
        let ghost idx = clock_indices@;
        let n = self.clock_count;
        let ghost nn = n as nat;
        let ghost m0 = self.matrix@;
        let len = clock_indices.len();
        if len < 2 {
            proof {
                if sync_changes(m0, nn, idx) {
                    let (a, b) = choose|a: int, b: int|
                        #![trigger cell(m0, nn, a, b)]
                        in_range(nn, a, b) && sync_pair_before(idx, nn, a, b, idx.len() as int, 0) && cell(m0, nn, a, b) != 0;
                    let (l, r) = choose|l: int, r: int|
                        #![trigger sync_names(idx, nn, l, r, a, b)]
                        0 <= l < r < idx.len() && (l < idx.len() || (l == idx.len() && r < 0)) && sync_names(idx, nn, l, r, a, b);
                }
            }
            return;
        }
        let mut changed = false;
        let mut left: usize = 0;
        while left < len
            invariant
                left <= len,
                len == idx.len(),
                idx == clock_indices@,
                len >= 2,
                self.wf(),
                self.clock_count == n,
                nn == n,
                m0.len() == nn * nn,
                self.frozen_clocks@ == old(self).frozen_clocks@,
                forall|a: int, b: int|
                    #![trigger cell(self.matrix@, nn, a, b)]
                    in_range(nn, a, b) ==> cell(self.matrix@, nn, a, b) == if sync_pair_before(
                        idx,
                        nn,
                        a,
                        b,
                        left as int,
                        0,
                    ) {
                        0
                    } else {
                        cell(m0, nn, a, b)
                    },
                changed == sync_changes_before(m0, nn, idx, left as int, 0),
            decreases len - left,
        {
            let first = clock_indices[left];
            let mut right: usize = left + 1;
            proof {
                assert forall|a: int, b: int|
                    #![trigger sync_pair_before(idx, nn, a, b, left as int, left + 1)]
                    sync_pair_before(idx, nn, a, b, left as int, left + 1) == sync_pair_before(idx, nn, a, b, left as int, 0) by {
                    if sync_pair_before(idx, nn, a, b, left as int, left + 1) {
                        let (l, r) = choose|l: int, r: int|
                            #![trigger sync_names(idx, nn, l, r, a, b)]
                            0 <= l < r < idx.len() && (l < left || (l == left && r < left + 1)) && sync_names(idx, nn, l, r, a, b);
                        assert(0 <= l < r < idx.len() && (l < left || (l == left && r < 0)) && sync_names(idx, nn, l, r, a, b));
                    }
                    if sync_pair_before(idx, nn, a, b, left as int, 0) {
                        let (l, r) = choose|l: int, r: int|
                            #![trigger sync_names(idx, nn, l, r, a, b)]
                            0 <= l < r < idx.len() && (l < left || (l == left && r < 0)) && sync_names(idx, nn, l, r, a, b);
                        assert(0 <= l < r < idx.len() && (l < left || (l == left && r < left + 1)) && sync_names(idx, nn, l, r, a, b));
                    }
                }
                assert(changed == sync_changes_before(m0, nn, idx, left as int, left + 1)) by {
                    if sync_changes_before(m0, nn, idx, left as int, left + 1) {
                        let (a, b) = choose|a: int, b: int|
                            #![trigger cell(m0, nn, a, b)]
                            in_range(nn, a, b) && sync_pair_before(idx, nn, a, b, left as int, left + 1) && cell(m0, nn, a, b) != 0;
                        assert(sync_pair_before(idx, nn, a, b, left as int, 0));
                    }
                    if sync_changes_before(m0, nn, idx, left as int, 0) {
                        let (a, b) = choose|a: int, b: int|
                            #![trigger cell(m0, nn, a, b)]
                            in_range(nn, a, b) && sync_pair_before(idx, nn, a, b, left as int, 0) && cell(m0, nn, a, b) != 0;
                        assert(sync_pair_before(idx, nn, a, b, left as int, left + 1));
                    }
                }
            }
            while right < len
                invariant
                    left < right <= len,
                    len == idx.len(),
                    idx == clock_indices@,
                    first == idx[left as int],
                    self.wf(),
                    self.clock_count == n,
                    nn == n,
                    m0.len() == nn * nn,
                    self.frozen_clocks@ == old(self).frozen_clocks@,
                    forall|a: int, b: int|
                        #![trigger cell(self.matrix@, nn, a, b)]
                        in_range(nn, a, b) ==> cell(self.matrix@, nn, a, b) == if sync_pair_before(
                            idx,
                            nn,
                            a,
                            b,
                            left as int,
                            right as int,
                        ) {
                            0
                        } else {
                            cell(m0, nn, a, b)
                        },
                    changed == sync_changes_before(m0, nn, idx, left as int, right as int),
                decreases len - right,
            {
                let second = clock_indices[right];
                proof {
                    lemma_sync_step(idx, nn, left as int, right as int);
                }
                let ghost changed_before = changed;
                let ghost mb = self.matrix@;
                if first < n && second < n {
                    let fs = dbm_offset(n, first, second);
                    if self.matrix[fs] != 0 {
                        proof {
                            lemma_update_cell(self.matrix@, nn, first as int, second as int, 0);
                        }
                        self.matrix.set(fs, 0);
                        changed = true;
                    }
                    let sf = dbm_offset(n, second, first);
                    if self.matrix[sf] != 0 {
                        proof {
                            lemma_update_cell(self.matrix@, nn, second as int, first as int, 0);
                        }
                        self.matrix.set(sf, 0);
                        changed = true;
                    }
                }
                proof {
                    let lo = left as int;
                    let ro = right as int;
                    assert forall|a: int, b: int|
                        #![trigger cell(self.matrix@, nn, a, b)]
                        in_range(nn, a, b) implies cell(self.matrix@, nn, a, b) == if sync_pair_before(
                            idx, nn, a, b, lo, ro + 1) {
                            0
                        } else {
                            cell(m0, nn, a, b)
                        } by {
                        assert(sync_pair_before(idx, nn, a, b, lo, ro + 1) == (sync_pair_before(idx, nn, a, b, lo, ro)
                            || sync_names(idx, nn, lo, ro, a, b)));
                        assert(cell(mb, nn, a, b) == cell(mb, nn, a, b));
                    }
                    let next = sync_changes_before(m0, nn, idx, lo, ro + 1);
                    if changed_before {
                        let (a, b) = choose|a: int, b: int|
                            #![trigger cell(m0, nn, a, b)]
                            in_range(nn, a, b) && sync_pair_before(idx, nn, a, b, lo, ro) && cell(m0, nn, a, b) != 0;
                        assert(sync_pair_before(idx, nn, a, b, lo, ro + 1));
                        assert(next);
                    } else if changed {
                        if cell(mb, nn, first as int, second as int) != 0 {
                            assert(sync_names(idx, nn, lo, ro, first as int, second as int));
                            assert(sync_pair_before(idx, nn, first as int, second as int, lo, ro + 1));
                            assert(cell(m0, nn, first as int, second as int) != 0);
                        } else {
                            assert(sync_names(idx, nn, lo, ro, second as int, first as int));
                            assert(sync_pair_before(idx, nn, second as int, first as int, lo, ro + 1));
                            assert(cell(mb, nn, second as int, first as int) != 0);
                            assert(cell(m0, nn, second as int, first as int) != 0);
                        }
                        assert(next);
                    } else {
                        if next {
                            let (a, b) = choose|a: int, b: int|
                                #![trigger cell(m0, nn, a, b)]
                                in_range(nn, a, b) && sync_pair_before(idx, nn, a, b, lo, ro + 1) && cell(m0, nn, a, b) != 0;
                            assert(!sync_pair_before(idx, nn, a, b, lo, ro));
                            assert(sync_names(idx, nn, lo, ro, a, b));
                            assert(cell(mb, nn, a, b) == cell(m0, nn, a, b));
                        }
                    }
                }
                right = right + 1;
            }
            proof {
                lemma_sync_next_row(idx, nn, left as int);
                assert forall|a: int, b: int|
                    #![trigger cell(self.matrix@, nn, a, b)]
                    in_range(nn, a, b) implies cell(self.matrix@, nn, a, b) == if sync_pair_before(
                        idx, nn, a, b, left + 1, 0) {
                        0
                    } else {
                        cell(m0, nn, a, b)
                    } by {
                    assert(sync_pair_before(idx, nn, a, b, left + 1, left + 2) == sync_pair_before(idx, nn, a, b, left as int, len as int));
                }
                let cur = sync_changes_before(m0, nn, idx, left as int, len as int);
                let nxt = sync_changes_before(m0, nn, idx, left + 1, 0);
                if cur {
                    let (a, b) = choose|a: int, b: int|
                        #![trigger cell(m0, nn, a, b)]
                        in_range(nn, a, b) && sync_pair_before(idx, nn, a, b, left as int, len as int) && cell(m0, nn, a, b) != 0;
                    assert(sync_pair_before(idx, nn, a, b, left + 1, left + 2));
                    assert(nxt);
                }
                if nxt {
                    let (a, b) = choose|a: int, b: int|
                        #![trigger cell(m0, nn, a, b)]
                        in_range(nn, a, b) && sync_pair_before(idx, nn, a, b, left + 1, 0) && cell(m0, nn, a, b) != 0;
                    assert(sync_pair_before(idx, nn, a, b, left + 1, left + 2));
                    assert(cur);
                }
            }
            left = left + 1;
        }
        proof {
            lemma_matrix_of(nn, |a: int, b: int| sync_cell(m0, nn, idx, a, b));
            if changed {
                lemma_matrix_ext(nn, self.matrix@, sync_pass(m0, nn, idx));
            } else {
                assert forall|a: int, b: int|
                    #![trigger cell(self.matrix@, nn, a, b)]
                    in_range(nn, a, b) implies cell(self.matrix@, nn, a, b) == cell(m0, nn, a, b) by {
                    assert(cell(m0, nn, a, b) == cell(m0, nn, a, b));
                }
                lemma_matrix_ext(nn, self.matrix@, m0);
            }
        }
        if changed {
            self.minimize();
        }
    }
}

fn copy_vec<T: Copy>(v: &Vec<T>) -> (r: Vec<T>)
    ensures
        r@ == v@,
{
    let mut r: Vec<T> = Vec::new();
    for i in 0..v.len()
        invariant
            r@ == v@.take(i as int),
    {
        r.push(v[i]);
        assert(v@.take(i + 1) == v@.take(i as int).push(v@[i as int]));
    }
    assert(v@.take(v.len() as int) == v@);
    r
}

/// Every bound of `a` is at least as tight as the corresponding bound of `b`
/// (over the positions of `a`).
pub open spec fn bounds_within(a: &DBM, b: &DBM) -> bool {
    forall|i: int, j: int|
        #![trigger a.bound(i, j)]
        in_range(a.dim(), i, j) ==> tighter_or_equal(a.bound(i, j), b.bound(i, j))
}

/// The smaller of two bounds (infinity being the largest).
pub open spec fn min_bound(a: i32, b: i32) -> i32 {
    if a <= b {
        a
    } else {
        b
    }
}

/// The entry-wise minimum of two `n x n` matrices.
pub open spec fn meet(m1: Seq<i32>, m2: Seq<i32>, n: nat) -> Seq<i32> {
    matrix_of(n, |i: int, j: int| min_bound(cell(m1, n, i, j), cell(m2, n, i, j)))
}

/// Relaxing a row through an unreachable intermediate clock changes nothing.
pub proof fn lemma_relax_row_skip(m: Seq<i32>, n: nat, k: int, i: int, j: nat)
    requires
        cell(m, n, i, k) == INF_TIME,
    ensures
        relax_row(m, n, k, i, j) == m,
    decreases j,
{
    if j > 0 {
        lemma_relax_row_skip(m, n, k, i, (j - 1) as nat);
    }
}

// ---------------------------------------------------------------------------
// Laws
// ---------------------------------------------------------------------------

proof fn lemma_tighter_trans(a: i32, b: i32, c: i32)
    requires
        tighter_or_equal(a, b),
        tighter_or_equal(b, c),
    ensures
        tighter_or_equal(a, c),
{
}

proof fn lemma_relax_tightens(m: Seq<i32>, n: nat, k: int, i: int, j: int)
    requires
        m.len() == n * n,
        in_range(n, i, j),
        in_range(n, k, k),
    ensures
        relax(m, n, k, i, j).len() == n * n,
        forall|a: int, b: int|
            #![trigger cell(relax(m, n, k, i, j), n, a, b)]
            in_range(n, a, b) ==> tighter_or_equal(cell(relax(m, n, k, i, j), n, a, b), cell(m, n, a, b)),
{
    let ik = cell(m, n, i, k);
    let kj = cell(m, n, k, j);
    let ij = cell(m, n, i, j);
    if !(ik == INF_TIME || kj == INF_TIME) && (ij == INF_TIME || bound_add(ik, kj) < ij) {
        lemma_update_cell(m, n, i, j, bound_add(ik, kj));
    }
}

proof fn lemma_relax_row_tightens(m: Seq<i32>, n: nat, k: int, i: int, j: nat)
    requires
        m.len() == n * n,
        0 <= i < n,
        0 <= k < n,
        j <= n,
    ensures
        relax_row(m, n, k, i, j).len() == n * n,
        forall|a: int, b: int|
            #![trigger cell(relax_row(m, n, k, i, j), n, a, b)]
            in_range(n, a, b) ==> tighter_or_equal(cell(relax_row(m, n, k, i, j), n, a, b), cell(m, n, a, b)),
    decreases j,
{
    if j > 0 {
        let prev = relax_row(m, n, k, i, (j - 1) as nat);
        lemma_relax_row_tightens(m, n, k, i, (j - 1) as nat);
        lemma_relax_tightens(prev, n, k, i, j - 1);
        assert forall|a: int, b: int|
            #![trigger cell(relax_row(m, n, k, i, j), n, a, b)]
            in_range(n, a, b) implies tighter_or_equal(cell(relax_row(m, n, k, i, j), n, a, b), cell(m, n, a, b)) by {
            lemma_tighter_trans(cell(relax(prev, n, k, i, j - 1), n, a, b), cell(prev, n, a, b), cell(m, n, a, b));
        }
    }
}

proof fn lemma_relax_rows_tightens(m: Seq<i32>, n: nat, k: int, i: nat)
    requires
        m.len() == n * n,
        0 <= k < n,
        i <= n,
    ensures
        relax_rows(m, n, k, i).len() == n * n,
        forall|a: int, b: int|
            #![trigger cell(relax_rows(m, n, k, i), n, a, b)]
            in_range(n, a, b) ==> tighter_or_equal(cell(relax_rows(m, n, k, i), n, a, b), cell(m, n, a, b)),
    decreases i,
{
    if i > 0 {
        let prev = relax_rows(m, n, k, (i - 1) as nat);
        lemma_relax_rows_tightens(m, n, k, (i - 1) as nat);
        lemma_relax_row_tightens(prev, n, k, i - 1, n);
        assert forall|a: int, b: int|
            #![trigger cell(relax_rows(m, n, k, i), n, a, b)]
            in_range(n, a, b) implies tighter_or_equal(cell(relax_rows(m, n, k, i), n, a, b), cell(m, n, a, b)) by {
            lemma_tighter_trans(cell(relax_row(prev, n, k, i - 1, n), n, a, b), cell(prev, n, a, b), cell(m, n, a, b));
        }
    }
}

proof fn lemma_closure_upto_tightens(m: Seq<i32>, n: nat, k: nat)
    requires
        m.len() == n * n,
        k <= n,
    ensures
        closure_upto(m, n, k).len() == n * n,
        forall|a: int, b: int|
            #![trigger cell(closure_upto(m, n, k), n, a, b)]
            in_range(n, a, b) ==> tighter_or_equal(cell(closure_upto(m, n, k), n, a, b), cell(m, n, a, b)),
    decreases k,
{
    if k > 0 {
        let prev = closure_upto(m, n, (k - 1) as nat);
        lemma_closure_upto_tightens(m, n, (k - 1) as nat);
        lemma_relax_rows_tightens(prev, n, k - 1, n);
        assert forall|a: int, b: int|
            #![trigger cell(closure_upto(m, n, k), n, a, b)]
            in_range(n, a, b) implies tighter_or_equal(cell(closure_upto(m, n, k), n, a, b), cell(m, n, a, b)) by {
            lemma_tighter_trans(cell(relax_rows(prev, n, k - 1, n), n, a, b), cell(prev, n, a, b), cell(m, n, a, b));
        }
    }
}

/// Closing a zone never loosens a bound: every entry of the closure is at
/// least as tight as the corresponding entry of the matrix it closes.
pub proof fn law_closure_only_tightens(m: Seq<i32>, n: nat)
    requires
        m.len() == n * n,
    ensures
        closure(m, n).len() == n * n,
        forall|a: int, b: int|
            #![trigger cell(closure(m, n), n, a, b)]
            in_range(n, a, b) ==> tighter_or_equal(cell(closure(m, n), n, a, b), cell(m, n, a, b)),
{
    lemma_closure_upto_tightens(m, n, n);
}

/// Containment and inclusion are converse relations: `a` contains `b`
/// exactly when `b` is included in `a` and both freeze the same clocks.
pub proof fn law_contains_is_converse_inclusion(a: DBM, b: DBM)
    requires
        a.wf(),
        b.wf(),
    ensures
        (a.dim() == b.dim() && bounds_within(&b, &a) && a.frozen() == b.frozen()) == ((b.dim()
            == a.dim() && bounds_within(&b, &a)) && a.frozen() == b.frozen()),
{
}

/// The intersection of two zones does not depend on their order.
pub proof fn law_intersection_commutes(m1: Seq<i32>, m2: Seq<i32>, n: nat)
    ensures
        closure(meet(m1, m2, n), n) == closure(meet(m2, m1, n), n),
{
    lemma_matrix_of(n, |i: int, j: int| min_bound(cell(m1, n, i, j), cell(m2, n, i, j)));
    lemma_matrix_of(n, |i: int, j: int| min_bound(cell(m2, n, i, j), cell(m1, n, i, j)));
    assert forall|i: int, j: int|
        #![trigger cell(meet(m1, m2, n), n, i, j)]
        in_range(n, i, j) implies cell(meet(m1, m2, n), n, i, j) == cell(meet(m2, m1, n), n, i, j) by {
    }
    lemma_matrix_ext(n, meet(m1, m2, n), meet(m2, m1, n));
}

/// Intersecting a zone with itself gives back its closure.
pub proof fn law_intersection_idempotent(m: Seq<i32>, n: nat)
    requires
        m.len() == n * n,
    ensures
        closure(meet(m, m, n), n) == closure(m, n),
{
    lemma_matrix_of(n, |i: int, j: int| min_bound(cell(m, n, i, j), cell(m, n, i, j)));
    assert forall|i: int, j: int|
        #![trigger cell(meet(m, m, n), n, i, j)]
        in_range(n, i, j) implies cell(meet(m, m, n), n, i, j) == cell(m, n, i, j) by {
    }
    lemma_matrix_ext(n, meet(m, m, n), m);
}

/// The intersection is at least as tight as either zone, before closure and
/// therefore after it.
pub proof fn law_intersection_tightens(m1: Seq<i32>, m2: Seq<i32>, n: nat)
    requires
        m1.len() == n * n,
        m2.len() == n * n,
    ensures
        forall|a: int, b: int|
            #![trigger cell(closure(meet(m1, m2, n), n), n, a, b)]
            in_range(n, a, b) ==> tighter_or_equal(cell(closure(meet(m1, m2, n), n), n, a, b), cell(m1, n, a, b))
                && tighter_or_equal(cell(closure(meet(m1, m2, n), n), n, a, b), cell(m2, n, a, b)),
{
    let mt = meet(m1, m2, n);
    lemma_matrix_of(n, |i: int, j: int| min_bound(cell(m1, n, i, j), cell(m2, n, i, j)));
    law_closure_only_tightens(mt, n);
    assert forall|a: int, b: int|
        #![trigger cell(closure(mt, n), n, a, b)]
        in_range(n, a, b) implies tighter_or_equal(cell(closure(mt, n), n, a, b), cell(m1, n, a, b))
            && tighter_or_equal(cell(closure(mt, n), n, a, b), cell(m2, n, a, b)) by {
        lemma_tighter_trans(cell(closure(mt, n), n, a, b), cell(mt, n, a, b), cell(m1, n, a, b));
        lemma_tighter_trans(cell(closure(mt, n), n, a, b), cell(mt, n, a, b), cell(m2, n, a, b));
    }
}

/// Closing a zone and then checking its diagonal decides the same as
/// checking the diagonal before and after closing: closure never raises a
/// diagonal entry, so `minimize_and_check` answers what `is_consistent`
/// answers on the zone before it was closed.
pub proof fn law_minimize_and_check_is_consistency(m: Seq<i32>, n: nat)
    requires
        m.len() == n * n,
    ensures
        diagonal_ok(closure(m, n), n) == (diagonal_ok(m, n) && diagonal_ok(closure(m, n), n)),
{
    law_closure_only_tightens(m, n);
    if diagonal_ok(closure(m, n), n) {
        assert forall|i: int| 0 <= i < n implies #[trigger] cell(m, n, i, i) >= 0 by {
            assert(in_range(n, i, i));
            assert(tighter_or_equal(cell(closure(m, n), n, i, i), cell(m, n, i, i)));
            assert(cell(closure(m, n), n, i, i) >= 0);
        }
    }
}

/// The reference clock 0 is never frozen, whatever operations built the
/// zone: freezing it is ignored, so no well-formed zone lists it.
pub proof fn law_reference_clock_never_frozen(d: DBM)
    requires
        d.wf(),
    ensures
        !d.frozen().contains(0usize),
{
}

/// The text of a bound: `inf` for no bound, else its decimal notation.
pub open spec fn bound_text(v: i32) -> Seq<char> {
    if v == INF_TIME {
        "inf"@
    } else {
        signed_decimal(v as int)
    }
}

/// The column headers `x0`, `x1`, ... of the first `k` clocks, each right
/// aligned in eight characters.
pub open spec fn header_text(k: nat) -> Seq<char>
    decreases k,
{
    if k == 0 {
        Seq::empty()
    } else {
        header_text((k - 1) as nat) + padded(seq!['x'] + decimal((k - 1) as nat), 8)
    }
}

/// The first `k` bounds of row `i`, each right aligned in eight characters.
pub open spec fn row_text(m: Seq<i32>, n: nat, i: int, k: nat) -> Seq<char>
    decreases k,
{
    if k == 0 {
        Seq::empty()
    } else {
        row_text(m, n, i, (k - 1) as nat) + padded(bound_text(cell(m, n, i, k - 1)), 8)
    }
}

/// The first `k` rows: each `x<i> ` followed by its bounds and a newline.
pub open spec fn rows_text(m: Seq<i32>, n: nat, k: nat) -> Seq<char>
    decreases k,
{
    if k == 0 {
        Seq::empty()
    } else {
        rows_text(m, n, (k - 1) as nat) + seq!['x'] + decimal((k - 1) as nat) + seq![' '] + row_text(
            m,
            n,
            k - 1,
            n,
        ) + seq!['\n']
    }
}

/// The text of a zone over `n` clocks with bounds `m`: `DBM(empty)` for no
/// clock, else a `DBM(size=<n>):` line, a line of column headers, and a
/// line per row.
pub open spec fn dbm_text(m: Seq<i32>, n: nat) -> Seq<char> {
    if n == 0 {
        "DBM(empty)"@
    } else {
        "DBM(size="@ + decimal(n) + "):\n"@ + "   "@ + header_text(n) + seq!['\n'] + rows_text(m, n, n)
    }
}

impl DBM {
    /// The zone as a table: its size, then a row per clock with its bounds
    /// to every clock, `inf` where there is none.
    pub fn render(&self) -> (r: String)
        requires
            self.wf(),
        ensures
            r@ == dbm_text(self.m(), self.dim()),
    {
        let n = self.clock_count;
        if n == 0 {
            return string_of("DBM(empty)");
        }
        let mut out = string_of("DBM(size=");
        push_decimal(&mut out, n as u64);
        push_str(&mut out, "):\n");
        push_str(&mut out, "   ");
        let ghost head = out@;
        let mut j: usize = 0;
        while j < n
            invariant
                j <= n,
                n == self.clock_count,
                out@ == head + header_text(j as nat),
            decreases n - j,
        {
            let mut name = string_of("x");
            push_decimal(&mut name, j as u64);
            proof {
                reveal_strlit("x");
            }
            push_padded(&mut out, name.as_str(), 8);
            j = j + 1;
        }
        push_char(&mut out, '\n');
        let ghost top = out@;
        let mut i: usize = 0;
        while i < n
            invariant
                i <= n,
                n == self.clock_count,
                self.wf(),
                n == self.dim(),
                out@ == top + rows_text(self.m(), n as nat, i as nat),
            decreases n - i,
        {
            let ghost before = out@;
            push_char(&mut out, 'x');
            push_decimal(&mut out, i as u64);
            push_char(&mut out, ' ');
            let ghost line = out@;
            let mut j: usize = 0;
            while j < n
                invariant
                    j <= n,
                    i < n,
                    n == self.clock_count,
                    self.wf(),
                    n == self.dim(),
                    out@ == line + row_text(self.m(), n as nat, i as int, j as nat),
                decreases n - j,
            {
                let v = self.get_constraint(i, j);
                let mut t = String::new();
                if v == INF_TIME {
                    push_str(&mut t, "inf");
                } else {
                    push_signed(&mut t, v as i64);
                }
                push_padded(&mut out, t.as_str(), 8);
                j = j + 1;
            }
            push_char(&mut out, '\n');
            i = i + 1;
        }
        out
    }
}

// ---------------------------------------------------------------------------
// Suffixes of a sequence, as walked by a left-to-right comparison
// ---------------------------------------------------------------------------

/// The elements of `s` from position `i` on.
pub open spec fn suffix_from<T>(s: Seq<T>, i: usize) -> Seq<T> {
    s.skip(i as int)
}

/// A nonempty suffix starts with the element at its position, and dropping
/// that element gives the next suffix.
pub proof fn lemma_suffix_step<T>(s: Seq<T>, i: usize)
    requires
        i < s.len(),
        i < usize::MAX,
    ensures
        suffix_from(s, i).len() > 0,
        suffix_from(s, i)[0] == s[i as int],
        suffix_from(s, i).drop_first() == suffix_from(s, (i + 1) as usize),
{
    assert(suffix_from(s, i).drop_first() =~= suffix_from(s, (i + 1) as usize));
}

/// A suffix holds what is left after its position.
pub proof fn lemma_suffix_len<T>(s: Seq<T>, i: usize)
    requires
        i <= s.len(),
    ensures
        suffix_from(s, i).len() == s.len() - i,
{
}

} // verus!
